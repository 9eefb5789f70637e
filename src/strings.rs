//! Algorithms on DNA text: k-mer counts, frequent words, clumps and skew.
//!
//! Texts are ASCII; their contracts speak of their bytes.
use vstd::prelude::*;
use vstd::std_specs::iter::IteratorSpec;
use vstd::string::{is_ascii_spec_bytes, StringSliceAdditionalSpecFns, StrSliceExecFns};

use vstd::arithmetic::power::pow;
use vstd::utf8::decode_utf8;

use crate::dna::{complement_of, is_dna, is_nuc, lemma_ascii_is_utf8, lemma_dna_is_utf8, reverse_complement_seq, utf8_to_string, Dna, A, C, G, T};
use crate::dna::motif::{neighborhood, vec_views};
use crate::seq::{hamming, num_windows, slices_equal, window};

verus! {

broadcast use is_ascii_spec_bytes;

/// Strict lexicographic order of byte strings, the order of `str`.
pub open spec fn lex_lt(a: Seq<u8>, b: Seq<u8>) -> bool
    decreases a.len(),
{
    if a.len() == 0 {
        b.len() > 0
    } else if b.len() == 0 {
        false
    } else if a[0] < b[0] {
        true
    } else if a[0] == b[0] {
        lex_lt(a.drop_first(), b.drop_first())
    } else {
        false
    }
}

proof fn lemma_lex_total(a: Seq<u8>, b: Seq<u8>)
    requires
        a != b,
    ensures
        lex_lt(a, b) || lex_lt(b, a),
    decreases a.len(),
{
    if a.len() > 0 && b.len() > 0 && a[0] == b[0] {
        assert(a.drop_first() != b.drop_first()) by {
            if a.drop_first() == b.drop_first() {
                assert(a =~= seq![a[0]] + a.drop_first());
                assert(b =~= seq![b[0]] + b.drop_first());
            }
        }
        lemma_lex_total(a.drop_first(), b.drop_first());
    } else if a.len() == 0 && b.len() == 0 {
        assert(a =~= b);
    }
}

proof fn lemma_lex_transitive(a: Seq<u8>, b: Seq<u8>, c: Seq<u8>)
    requires
        lex_lt(a, b),
        lex_lt(b, c),
    ensures
        lex_lt(a, c),
    decreases a.len(),
{
    if a.len() > 0 && b.len() > 0 && c.len() > 0 && a[0] == b[0] && b[0] == c[0] {
        lemma_lex_transitive(a.drop_first(), b.drop_first(), c.drop_first());
    }
}

/// The bytes of a vector of string slices.
pub open spec fn strs_bytes(v: Seq<&str>) -> Seq<Seq<u8>> {
    v.map_values(|s: &str| s.spec_bytes())
}

/// Strictly increasing in lexicographic order: sorted, without repeats.
pub open spec fn strictly_sorted(v: Seq<Seq<u8>>) -> bool {
    forall|i: int, j: int| 0 <= i < j < v.len() ==> lex_lt(#[trigger] v[i], #[trigger] v[j])
}

/// Whether `a` comes before `b` in lexicographic order.
fn lex_less(a: &[u8], b: &[u8]) -> (r: bool)
    ensures
        r == lex_lt(a@, b@),
{
    let mut i: usize = 0;
    assert(a@.subrange(0, a@.len() as int) =~= a@);
    assert(b@.subrange(0, b@.len() as int) =~= b@);
    while i < a.len() && i < b.len()
        invariant
            i <= a@.len(),
            i <= b@.len(),
            lex_lt(a@, b@) == lex_lt(a@.subrange(i as int, a@.len() as int), b@.subrange(i as int, b@.len() as int)),
        decreases a@.len() - i,
    {
        let (x, y) = (a[i], b[i]);
        if x < y {
            return true;
        }
        if x > y {
            return false;
        }
        assert(a@.subrange(i + 1, a@.len() as int) =~= a@.subrange(i as int, a@.len() as int).drop_first());
        assert(b@.subrange(i + 1, b@.len() as int) =~= b@.subrange(i as int, b@.len() as int).drop_first());
        i = i + 1;
    }
    i < b.len()
}

/// Inserts `x` into the strictly sorted `v` unless it is there already.
fn insert_sorted<'a>(v: &mut Vec<&'a str>, x: &'a str)
    requires
        strictly_sorted(strs_bytes(old(v)@)),
    ensures
        strictly_sorted(strs_bytes(final(v)@)),
        strs_bytes(final(v)@).to_set() == strs_bytes(old(v)@).to_set().insert(x.spec_bytes()),
{
    let ghost old_b = strs_bytes(v@);
    let xb = x.as_bytes();
    let mut pos: usize = 0;
    while pos < v.len()
        invariant
            old_b == strs_bytes(v@),
            strictly_sorted(old_b),
            xb@ == x.spec_bytes(),
            pos <= v@.len(),
            forall|j: int| 0 <= j < pos ==> lex_lt(#[trigger] old_b[j], xb@),
        ensures
            pos <= v@.len(),
            forall|j: int| 0 <= j < pos ==> lex_lt(#[trigger] old_b[j], xb@),
            pos < v@.len() ==> !lex_lt(old_b[pos as int], xb@),
        decreases v@.len() - pos,
    {
        let y = v[pos].as_bytes();
        assert(y@ == old_b[pos as int]);
        if !lex_less(y, xb) {
            break;
        }
        pos = pos + 1;
    }
    if pos < v.len() {
        let y = v[pos].as_bytes();
        assert(y@ == old_b[pos as int]);
        if !lex_less(xb, y) {
            proof {
                if old_b[pos as int] != xb@ {
                    lemma_lex_total(old_b[pos as int], xb@);
                }
                assert(old_b[pos as int] == x.spec_bytes());
                assert(old_b.to_set().insert(x.spec_bytes()) =~= old_b.to_set()) by {
                    assert(old_b.contains(x.spec_bytes()));
                }
            }
            return;
        }
    }
    v.insert(pos, x);
    proof {
        let nb = strs_bytes(v@);
        assert(nb =~= old_b.insert(pos as int, x.spec_bytes()));
        assert forall|i: int, j: int| 0 <= i < j < nb.len() implies lex_lt(#[trigger] nb[i], #[trigger] nb[j]) by {
            if j < pos {
            } else if j == pos {
            } else if i < pos {
                assert(lex_lt(old_b[i], x.spec_bytes()));
                if pos < old_b.len() {
                    assert(lex_lt(x.spec_bytes(), old_b[pos as int]));
                    if j - 1 > pos {
                        lemma_lex_transitive(x.spec_bytes(), old_b[pos as int], old_b[j - 1]);
                    }
                    lemma_lex_transitive(old_b[i], x.spec_bytes(), old_b[j - 1]);
                }
            } else if i == pos {
                assert(lex_lt(x.spec_bytes(), old_b[pos as int]));
                if j - 1 > pos {
                    lemma_lex_transitive(x.spec_bytes(), old_b[pos as int], old_b[j - 1]);
                }
            } else {
            }
        }
        assert forall|s: Seq<u8>| nb.to_set().contains(s) <==> old_b.to_set().insert(x.spec_bytes()).contains(s) by {
            if nb.contains(s) {
                let e = choose|e: int| 0 <= e < nb.len() && nb[e] == s;
                if e < pos {
                    assert(old_b[e] == s);
                } else if e > pos {
                    assert(old_b[e - 1] == s);
                }
            }
            if old_b.contains(s) {
                let e = choose|e: int| 0 <= e < old_b.len() && old_b[e] == s;
                if e < pos {
                    assert(nb[e] == s);
                } else {
                    assert(nb[e + 1] == s);
                }
            }
            if s == x.spec_bytes() {
                assert(nb[pos as int] == s);
            }
        }
        assert(nb.to_set() =~= old_b.to_set().insert(x.spec_bytes()));
    }
}

/// Number of the first `n` windows of `t` that equal `p`.
pub open spec fn occurrences_upto(t: Seq<u8>, p: Seq<u8>, n: int) -> nat
    decreases n,
{
    if n <= 0 {
        0
    } else {
        occurrences_upto(t, p, n - 1) + if window(t, n - 1, p.len() as int) == p {
            1nat
        } else {
            0nat
        }
    }
}

/// Number of occurrences of `p` in `t`, overlaps included.
pub open spec fn occurrences(t: Seq<u8>, p: Seq<u8>) -> nat {
    occurrences_upto(t, p, num_windows(t.len() as int, p.len() as int))
}

proof fn lemma_occurrences_bound(t: Seq<u8>, p: Seq<u8>, n: int)
    requires
        0 <= n,
    ensures
        occurrences_upto(t, p, n) <= n,
    decreases n,
{
    if n > 0 {
        lemma_occurrences_bound(t, p, n - 1);
    }
}

/// The window of length `k` of an ASCII text that starts at `i`.
fn ascii_window<'a>(text: &'a str, i: usize, k: usize) -> (r: &'a str)
    requires
        text.is_ascii(),
        i + k <= text.spec_bytes().len(),
    ensures
        r.spec_bytes() == window(text.spec_bytes(), i as int, k as int),
        r.is_ascii(),
{
    let tl = text.as_bytes().len();
    let r = text.substring_ascii(i, i + k);
    assert(r.spec_bytes() =~= window(text.spec_bytes(), i as int, k as int));
    r
}

/// Number of occurrences of `p` in `t`.
fn count_occurrences(t: &[u8], p: &[u8]) -> (r: usize)
    requires
        1 <= p@.len() <= t@.len(),
    ensures
        r == occurrences(t@, p@),
{
    let k = p.len();
    let tl = t.len();
    let n = tl - k + 1;
    let mut c: usize = 0;
    let mut i: usize = 0;
    while i < n
        invariant
            tl == t@.len(),
            k == p@.len(),
            1 <= k <= t@.len(),
            n == num_windows(t@.len() as int, k as int),
            i <= n,
            c == occurrences_upto(t@, p@, i as int),
        decreases n - i,
    {
        proof {
            lemma_occurrences_bound(t@, p@, i as int);
        }
        if slices_equal(&t[i..i + k], p) {
            c = c + 1;
        }
        i = i + 1;
    }
    c
}

/// Byte indices of every occurrence of `pat` in `text`, left to right, overlaps included.
pub fn indexes(text: &str, pat: &str) -> (r: Vec<usize>)
    requires
        1 <= pat.spec_bytes().len() <= text.spec_bytes().len(),
    ensures
        r@.len() == occurrences(text.spec_bytes(), pat.spec_bytes()),
        forall|j: int, l: int| 0 <= j < l < r@.len() ==> r@[j] < r@[l],
        forall|j: int|
            0 <= j < r@.len() ==> (r@[j] as int) < num_windows(
                text.spec_bytes().len() as int,
                pat.spec_bytes().len() as int,
            ),
        forall|i: int|
            0 <= i < num_windows(text.spec_bytes().len() as int, pat.spec_bytes().len() as int)
                ==> (#[trigger] r@.contains(i as usize) <==> window(
                text.spec_bytes(),
                i,
                pat.spec_bytes().len() as int,
            ) == pat.spec_bytes()),
{
    let t = text.as_bytes();
    let p = pat.as_bytes();
    let k = p.len();
    let tl = t.len();
    let n = tl - k + 1;
    let mut res: Vec<usize> = Vec::new();
    let mut i: usize = 0;
    while i < n
        invariant
            tl == t@.len(),
            t@ == text.spec_bytes(),
            p@ == pat.spec_bytes(),
            k == p@.len(),
            1 <= k <= t@.len(),
            n == num_windows(t@.len() as int, k as int),
            i <= n,
            res@.len() == occurrences_upto(t@, p@, i as int),
            forall|j: int, l: int| 0 <= j < l < res@.len() ==> res@[j] < res@[l],
            forall|j: int| 0 <= j < res@.len() ==> res@[j] < i,
            forall|l: int|
                0 <= l < i ==> (#[trigger] res@.contains(l as usize) <==> window(t@, l, k as int) == p@),
        decreases n - i,
    {
        let ghost before = res@;
        if slices_equal(&t[i..i + k], p) {
            res.push(i);
            proof {
                assert forall|l: int| 0 <= l < i + 1 implies (#[trigger] res@.contains(l as usize) <==> window(t@, l, k as int) == p@) by {
                    if l == i {
                        assert(res@[res@.len() - 1] == i);
                    } else if before.contains(l as usize) {
                        let e = choose|e: int| 0 <= e < before.len() && before[e] == l as usize;
                        assert(res@[e] == l as usize);
                    } else if res@.contains(l as usize) {
                        let e = choose|e: int| 0 <= e < res@.len() && res@[e] == l as usize;
                        assert(e < before.len());
                    }
                }
            }
        } else {
            proof {
                assert forall|l: int| 0 <= l < i + 1 implies (#[trigger] res@.contains(l as usize) <==> window(t@, l, k as int) == p@) by {
                    if l == i && res@.contains(l as usize) {
                        let e = choose|e: int| 0 <= e < res@.len() && res@[e] == l as usize;
                    }
                }
            }
        }
        i = i + 1;
    }
    res
}

/// Number of occurrences of `pat` in `text`, overlaps included.
pub fn pattern_count(text: &str, pat: &str) -> (r: usize)
    requires
        1 <= pat.spec_bytes().len() <= text.spec_bytes().len(),
    ensures
        r == occurrences(text.spec_bytes(), pat.spec_bytes()),
{
    indexes(text, pat).len()
}

/// For each window of length `k` of `t`, the number of its occurrences in `t`.
fn frequent_words_count(t: &[u8], k: usize) -> (r: Vec<usize>)
    requires
        1 <= k <= t@.len(),
    ensures
        r@.len() == num_windows(t@.len() as int, k as int),
        forall|i: int| 0 <= i < r@.len() ==> #[trigger] r@[i] == occurrences(t@, window(t@, i, k as int)),
{
    let tl = t.len();
    let n = tl - k + 1;
    let mut count: Vec<usize> = Vec::new();
    let mut i: usize = 0;
    while i < n
        invariant
            tl == t@.len(),
            1 <= k <= t@.len(),
            n == num_windows(t@.len() as int, k as int),
            i <= n,
            count@.len() == i,
            forall|j: int| 0 <= j < i ==> #[trigger] count@[j] == occurrences(t@, window(t@, j, k as int)),
        decreases n - i,
    {
        let c = count_occurrences(t, &t[i..i + k]);
        count.push(c);
        i = i + 1;
    }
    count
}

/// Greatest of the first `n` values of `v`.
pub open spec fn max_upto(v: Seq<usize>, n: int) -> usize
    decreases n,
{
    if n <= 1 {
        v[0]
    } else if v[n - 1] > max_upto(v, n - 1) {
        v[n - 1]
    } else {
        max_upto(v, n - 1)
    }
}

/// Greatest number of occurrences of a k-mer of `t`.
pub open spec fn max_occurrences(t: Seq<u8>, k: int) -> nat {
    max_upto(
        Seq::new(num_windows(t.len() as int, k) as nat, |i: int| occurrences(t, window(t, i, k)) as usize),
        num_windows(t.len() as int, k),
    ) as nat
}

/// The most frequent k-mers of `t`.
pub open spec fn most_frequent(t: Seq<u8>, k: int) -> Set<Seq<u8>> {
    Set::new(
        |p: Seq<u8>|
            exists|i: int|
                0 <= i < num_windows(t.len() as int, k) && p == #[trigger] window(t, i, k)
                    && occurrences(t, p) == max_occurrences(t, k),
    )
}

/// The most frequent k-mers of `text`, each once, in lexicographic order.
pub fn frequent_words(text: &str, k: usize) -> (r: Vec<&str>)
    requires
        text.is_ascii(),
        1 <= k <= text.spec_bytes().len(),
    ensures
        strictly_sorted(strs_bytes(r@)),
        strs_bytes(r@).to_set() == most_frequent(text.spec_bytes(), k as int),
{
    let t = text.as_bytes();
    let count = frequent_words_count(t, k);
    let ghost cs = Seq::new(
        num_windows(t@.len() as int, k as int) as nat,
        |i: int| occurrences(t@, window(t@, i, k as int)) as usize,
    );
    assert(count@ =~= cs);
    let mut max_count = count[0];
    let mut i: usize = 1;
    while i < count.len()
        invariant
            count@ == cs,
            count@.len() >= 1,
            1 <= i <= count@.len(),
            max_count == max_upto(cs, i as int),
        decreases count@.len() - i,
    {
        if count[i] > max_count {
            max_count = count[i];
        }
        i = i + 1;
    }
    let mut res: Vec<&str> = Vec::new();
    let mut i: usize = 0;
    while i < count.len()
        invariant
            text.is_ascii(),
            t@ == text.spec_bytes(),
            1 <= k <= t@.len(),
            count@ == cs,
            count@.len() == num_windows(t@.len() as int, k as int),
            forall|j: int| 0 <= j < count@.len() ==> #[trigger] count@[j] == occurrences(t@, window(t@, j, k as int)),
            max_count as nat == max_occurrences(t@, k as int),
            i <= count@.len(),
            strictly_sorted(strs_bytes(res@)),
            strs_bytes(res@).to_set() == Set::new(
                |p: Seq<u8>|
                    exists|j: int|
                        0 <= j < i && p == #[trigger] window(t@, j, k as int)
                            && occurrences(t@, p) == max_occurrences(t@, k as int),
            ),
        decreases count@.len() - i,
    {
        let ghost before = strs_bytes(res@).to_set();
        assert(count@[i as int] == occurrences(t@, window(t@, i as int, k as int)));
        if count[i] == max_count {
            let w = ascii_window(text, i, k);
            insert_sorted(&mut res, w);
        }
        proof {
            let target = Set::new(
                |p: Seq<u8>|
                    exists|j: int|
                        0 <= j < i + 1 && p == #[trigger] window(t@, j, k as int)
                            && occurrences(t@, p) == max_occurrences(t@, k as int),
            );
            assert forall|p: Seq<u8>| strs_bytes(res@).to_set().contains(p) <==> target.contains(p) by {
                if target.contains(p) {
                    let j = choose|j: int|
                        0 <= j < i + 1 && p == #[trigger] window(t@, j, k as int)
                            && occurrences(t@, p) == max_occurrences(t@, k as int);
                    if j < i {
                        assert(before.contains(p));
                    }
                }
                if before.contains(p) {
                    let j = choose|j: int|
                        0 <= j < i && p == #[trigger] window(t@, j, k as int)
                            && occurrences(t@, p) == max_occurrences(t@, k as int);
                    assert(target.contains(p));
                }
            }
            assert(strs_bytes(res@).to_set() =~= target);
        }
        i = i + 1;
    }
    res
}

/// The distinct k-mers of `text`, in lexicographic order.
pub fn kmers(text: &str, k: usize) -> (r: Vec<&str>)
    requires
        text.is_ascii(),
        1 <= k <= text.spec_bytes().len(),
    ensures
        strictly_sorted(strs_bytes(r@)),
        strs_bytes(r@).to_set() == Set::new(
            |p: Seq<u8>|
                exists|i: int|
                    0 <= i < num_windows(text.spec_bytes().len() as int, k as int) && p
                        == #[trigger] window(text.spec_bytes(), i, k as int),
        ),
{
    let n = text.as_bytes().len() - k + 1;
    let mut res: Vec<&str> = Vec::new();
    let mut i: usize = 0;
    while i < n
        invariant
            text.is_ascii(),
            1 <= k <= text.spec_bytes().len(),
            n == num_windows(text.spec_bytes().len() as int, k as int),
            i <= n,
            strictly_sorted(strs_bytes(res@)),
            strs_bytes(res@).to_set() == Set::new(
                |p: Seq<u8>| exists|j: int| 0 <= j < i && p == #[trigger] window(text.spec_bytes(), j, k as int),
            ),
        decreases n - i,
    {
        let ghost before = strs_bytes(res@).to_set();
        let w = ascii_window(text, i, k);
        insert_sorted(&mut res, w);
        proof {
            let target = Set::new(
                |p: Seq<u8>| exists|j: int| 0 <= j < i + 1 && p == #[trigger] window(text.spec_bytes(), j, k as int),
            );
            assert forall|p: Seq<u8>| strs_bytes(res@).to_set().contains(p) <==> target.contains(p) by {
                if target.contains(p) {
                    let j = choose|j: int| 0 <= j < i + 1 && p == #[trigger] window(text.spec_bytes(), j, k as int);
                    if j < i {
                        assert(before.contains(p));
                    }
                }
                if before.contains(p) {
                    let j = choose|j: int| 0 <= j < i && p == #[trigger] window(text.spec_bytes(), j, k as int);
                    assert(target.contains(p));
                }
            }
            assert(strs_bytes(res@).to_set() =~= target);
        }
        i = i + 1;
    }
    res
}

/// Number of a nucleotide letter: A, C, G, T are 0 to 3.
pub open spec fn symbol_value(b: u8) -> nat {
    if b == A {
        0
    } else if b == C {
        1
    } else if b == G {
        2
    } else {
        3
    }
}

/// Letter of a number below 4.
pub open spec fn value_symbol(n: nat) -> u8 {
    if n == 0 {
        A
    } else if n == 1 {
        C
    } else if n == 2 {
        G
    } else {
        T
    }
}

/// Number of a DNA string: its letters read as the digits of a base-4 number.
pub open spec fn pattern_value(p: Seq<u8>) -> nat
    decreases p.len(),
{
    if p.len() == 0 {
        0
    } else {
        4 * pattern_value(p.drop_last()) + symbol_value(p.last())
    }
}

/// The DNA string of length `k` whose number is `n`.
pub open spec fn value_pattern(n: nat, k: nat) -> Seq<u8>
    decreases k,
{
    if k <= 1 {
        seq![value_symbol(n)]
    } else {
        value_pattern(n / 4, (k - 1) as nat).push(value_symbol(n % 4))
    }
}

fn symbol_to_number(sym: u8) -> (r: usize)
    requires
        is_nuc(sym),
    ensures
        r == symbol_value(sym),
{
    if sym == A {
        0
    } else if sym == C {
        1
    } else if sym == G {
        2
    } else {
        3
    }
}

fn number_to_symbol(n: usize) -> (r: u8)
    requires
        n < 4,
    ensures
        r == value_symbol(n as nat),
        is_nuc(r),
{
    if n == 0 {
        A
    } else if n == 1 {
        C
    } else if n == 2 {
        G
    } else {
        T
    }
}

proof fn lemma_pattern_value_bound(p: Seq<u8>)
    ensures
        pattern_value(p) < pow(4, p.len()),
    decreases p.len(),
{
    reveal(pow);
    if p.len() > 0 {
        lemma_pattern_value_bound(p.drop_last());
        let v = pattern_value(p.drop_last());
        let q = pow(4, p.drop_last().len());
        assert(4 * v + symbol_value(p.last()) < 4 * q) by (nonlinear_arith)
            requires
                v < q,
                symbol_value(p.last()) < 4,
        ;
    }
}

/// The number of a DNA string: its letters read as base-4 digits, A, C, G, T being 0 to 3.
pub fn pattern_to_number(pat: &[u8]) -> (r: usize)
    requires
        is_dna(pat@),
        pow(4, pat@.len()) <= usize::MAX + 1,
    ensures
        r == pattern_value(pat@),
{
    let mut acc: usize = 0;
    let mut i: usize = 0;
    while i < pat.len()
        invariant
            is_dna(pat@),
            pow(4, pat@.len()) <= usize::MAX + 1,
            i <= pat@.len(),
            acc == pattern_value(pat@.subrange(0, i as int)),
        decreases pat@.len() - i,
    {
        proof {
            assert(pat@.subrange(0, i + 1).drop_last() =~= pat@.subrange(0, i as int));
            lemma_pattern_value_bound(pat@.subrange(0, i + 1));
            vstd::arithmetic::power::lemma_pow_increases(4, (i + 1) as nat, pat@.len());
        }
        acc = 4 * acc + symbol_to_number(pat[i]);
        i = i + 1;
    }
    assert(pat@.subrange(0, pat@.len() as int) =~= pat@);
    acc
}

proof fn lemma_value_pattern_dna(n: nat, k: nat)
    ensures
        is_dna(value_pattern(n, k)),
        value_pattern(n, k).len() == if k == 0 { 1 } else { k },
    decreases k,
{
    if k > 1 {
        lemma_value_pattern_dna(n / 4, (k - 1) as nat);
    }
}

/// Letters of the DNA string of length `k` whose number is `index`.
fn number_to_bytes(index: usize, k: usize) -> (r: Vec<u8>)
    requires
        k >= 1,
        index < pow(4, k as nat),
    ensures
        r@ == value_pattern(index as nat, k as nat),
    decreases k,
{
    if k == 1 {
        reveal_with_fuel(pow, 2);
        let mut v: Vec<u8> = Vec::new();
        v.push(number_to_symbol(index));
        assert(v@ =~= value_pattern(index as nat, k as nat));
        v
    } else {
        proof {
            reveal(pow);
            assert(index / 4 < pow(4, (k - 1) as nat)) by (nonlinear_arith)
                requires
                    index < 4 * pow(4, (k - 1) as nat),
            ;
        }
        let mut v = number_to_bytes(index / 4, k - 1);
        v.push(number_to_symbol(index % 4));
        v
    }
}

/// The DNA string of length `k` whose number is `index`.
pub fn number_to_pattern(index: usize, k: usize) -> (r: String)
    requires
        k >= 1,
        index < pow(4, k as nat),
    ensures
        r@ == decode_utf8(value_pattern(index as nat, k as nat)),
{
    let v = number_to_bytes(index, k);
    proof {
        lemma_value_pattern_dna(index as nat, k as nat);
        lemma_dna_is_utf8(v@);
    }
    utf8_to_string(v)
}

/// Number of windows of length `k` of `t` with index in `from..to` whose number is `x`.
pub open spec fn value_count(t: Seq<u8>, k: int, x: nat, from: int, to: int) -> nat
    decreases to - from,
{
    if to <= from {
        0
    } else {
        value_count(t, k, x, from, to - 1) + if pattern_value(window(t, to - 1, k)) == x {
            1nat
        } else {
            0nat
        }
    }
}

proof fn lemma_value_count_front(t: Seq<u8>, k: int, x: nat, from: int, to: int)
    requires
        from < to,
    ensures
        value_count(t, k, x, from, to) == value_count(t, k, x, from + 1, to) + if pattern_value(
            window(t, from, k),
        ) == x {
            1nat
        } else {
            0nat
        },
    decreases to - from,
{
    if to - 1 > from {
        lemma_value_count_front(t, k, x, from, to - 1);
        assert(value_count(t, k, x, from + 1, to) == value_count(t, k, x, from + 1, to - 1) + if pattern_value(window(t, to - 1, k)) == x {
            1nat
        } else {
            0nat
        });
    } else {
        assert(value_count(t, k, x, from, from) == 0);
        assert(value_count(t, k, x, from + 1, to) == 0);
    }
}

proof fn lemma_value_count_bound(t: Seq<u8>, k: int, x: nat, from: int, to: int)
    requires
        from <= to,
    ensures
        value_count(t, k, x, from, to) <= to - from,
    decreases to - from,
{
    if to > from {
        lemma_value_count_bound(t, k, x, from, to - 1);
    }
}

proof fn lemma_window_dna(t: Seq<u8>, i: int, k: int)
    requires
        is_dna(t),
        0 <= i,
        0 <= k,
        i + k <= t.len(),
    ensures
        is_dna(window(t, i, k)),
        window(t, i, k).len() == k,
{
    assert forall|j: int| 0 <= j < k implies is_nuc(#[trigger] window(t, i, k)[j]) by {
        assert(window(t, i, k)[j] == t[i + j]);
    }
}

/// Frequency array of the k-mers of a DNA text: entry `x` counts the k-mers whose number is `x`.
pub fn frequency_array(text: &str, k: usize) -> (r: Vec<usize>)
    requires
        is_dna(text.spec_bytes()),
        1 <= k <= text.spec_bytes().len(),
        pow(4, k as nat) <= usize::MAX,
    ensures
        r@.len() == pow(4, k as nat),
        forall|x: int|
            0 <= x < r@.len() ==> #[trigger] r@[x] == value_count(
                text.spec_bytes(),
                k as int,
                x as nat,
                0,
                num_windows(text.spec_bytes().len() as int, k as int),
            ),
{
    frequency_array_bytes(text.as_bytes(), k)
}

fn frequency_array_bytes(t: &[u8], k: usize) -> (r: Vec<usize>)
    requires
        is_dna(t@),
        1 <= k <= t@.len(),
        pow(4, k as nat) <= usize::MAX,
    ensures
        r@.len() == pow(4, k as nat),
        forall|x: int|
            0 <= x < r@.len() ==> #[trigger] r@[x] == value_count(
                t@,
                k as int,
                x as nat,
                0,
                num_windows(t@.len() as int, k as int),
            ),
{
    proof {
        vstd::arithmetic::power::lemma_pow_positive(4, k as nat);
    }
    let len = pow4(k);
    let mut freqs: Vec<usize> = vec![0; len];
    let tl = t.len();
    let n = tl - k + 1;
    let mut i: usize = 0;
    while i < n
        invariant
            tl == t@.len(),
            is_dna(t@),
            1 <= k <= t@.len(),
            pow(4, k as nat) <= usize::MAX,
            len == pow(4, k as nat),
            n == num_windows(t@.len() as int, k as int),
            i <= n,
            freqs@.len() == len,
            forall|x: int| 0 <= x < len ==> #[trigger] freqs@[x] == value_count(t@, k as int, x as nat, 0, i as int),
        decreases n - i,
    {
        let w = &t[i..i + k];
        proof {
            lemma_window_dna(t@, i as int, k as int);
            assert(w@ == window(t@, i as int, k as int));
            lemma_pattern_value_bound(w@);
        }
        let j = pattern_to_number(w);
        proof {
            lemma_value_count_bound(t@, k as int, j as nat, 0, i as int);
        }
        let v = freqs[j] + 1;
        freqs.set(j, v);
        i = i + 1;
    }
    freqs
}

/// Four to the power `k`.
fn pow4(k: usize) -> (r: usize)
    requires
        pow(4, k as nat) <= usize::MAX,
    ensures
        r == pow(4, k as nat),
{
    let mut r: usize = 1;
    let mut i: usize = 0;
    proof {
        reveal(pow);
    }
    while i < k
        invariant
            i <= k,
            pow(4, k as nat) <= usize::MAX,
            r == pow(4, i as nat),
        decreases k - i,
    {
        proof {
            reveal(pow);
            vstd::arithmetic::power::lemma_pow_increases(4, (i + 1) as nat, k as nat);
        }
        r = 4 * r;
        i = i + 1;
    }
    r
}

/// Some window of length `l` of `g` holds at least `t` k-mers whose number is `x`.
pub open spec fn forms_clump(g: Seq<u8>, k: int, l: int, t: nat, x: nat) -> bool {
    exists|s: int|
        0 <= s < num_windows(g.len() as int, l) && #[trigger] value_count(g, k, x, s, s + l - k + 1)
            >= t
}

proof fn lemma_value_count_prefix(g: Seq<u8>, h: Seq<u8>, k: int, x: nat, to: int)
    requires
        0 <= k,
        0 <= to,
        to + k - 1 <= h.len(),
        h.len() <= g.len(),
        h == g.subrange(0, h.len() as int),
    ensures
        value_count(h, k, x, 0, to) == value_count(g, k, x, 0, to),
    decreases to,
{
    if to > 0 {
        lemma_value_count_prefix(g, h, k, x, to - 1);
        assert(window(h, to - 1, k) =~= window(g, to - 1, k));
    }
}

/// `r` holds, in increasing order of their numbers `nums`, the patterns of
/// length `k` that form (l, t)-clumps in `g`.
pub open spec fn lists_clumps(r: Seq<String>, nums: Seq<nat>, g: Seq<u8>, k: nat, l: nat, t: nat) -> bool {
    &&& nums.len() == r.len()
    &&& forall|j: int| 0 <= j < r.len() ==> #[trigger] r[j]@ == decode_utf8(value_pattern(nums[j], k))
    &&& forall|a: int, b: int| 0 <= a < b < nums.len() ==> nums[a] < nums[b]
    &&& forall|x: nat| #[trigger] nums.contains(x) <==> (x < pow(4, k) && forms_clump(g, k as int, l as int, t, x))
}

/// Patterns of length `k` forming (l, t)-clumps in `genome`: those of which
/// some window of length `l` holds at least `t` occurrences, as their numbers
/// grow.
pub fn clump_finding(genome: &str, k: usize, l: usize, t: usize) -> (r: Vec<String>)
    requires
        is_dna(genome.spec_bytes()),
        1 <= k <= l <= genome.spec_bytes().len(),
        pow(4, k as nat) <= usize::MAX,
    ensures
        exists|nums: Seq<nat>| #[trigger] lists_clumps(r@, nums, genome.spec_bytes(), k as nat, l as nat, t as nat),
{
    let g = genome.as_bytes();
    let ghost gs = g@;
    let glen = g.len();
    let m = l - k + 1;
    proof {
        vstd::arithmetic::power::lemma_pow_positive(4, k as nat);
    }
    let len = pow4(k);
    let mut clump: Vec<bool> = vec![false; len];
    let head = &g[0..l];
    proof {
        assert(head@ == gs.subrange(0, l as int));
        assert forall|j: int| 0 <= j < head@.len() implies is_nuc(#[trigger] head@[j]) by {
            assert(head@[j] == gs[j]);
        }
    }
    let mut freqs = frequency_array_bytes(head, k);
    proof {
        assert forall|x: int| 0 <= x < len implies #[trigger] freqs@[x] == value_count(gs, k as int, x as nat, 0, m as int) by {
            lemma_value_count_prefix(gs, head@, k as int, x as nat, m as int);
        }
    }
    let mut x: usize = 0;
    while x < len
        invariant
            len == pow(4, k as nat),
            len >= 1,
            x <= len,
            clump@.len() == len,
            freqs@.len() == len,
            forall|y: int| 0 <= y < len ==> #[trigger] freqs@[y] == value_count(gs, k as int, y as nat, 0, m as int),
            forall|y: int| 0 <= y < len ==> (#[trigger] clump@[y] <==> (y < x && value_count(gs, k as int, y as nat, 0, m as int) >= t)),
        decreases len - x,
    {
        if freqs[x] >= t {
            clump.set(x, true);
        }
        x = x + 1;
    }
    proof {
        assert forall|y: int|
            0 <= y < len implies (#[trigger] clump@[y] <==> exists|s: int|
                0 <= s < 1 && #[trigger] value_count(gs, k as int, y as nat, s, s + m) >= t) by {
            if clump@[y] {
                assert(value_count(gs, k as int, y as nat, 0, 0 + m) >= t);
            }
        }
    }
    let mut i: usize = 1;
    while i < glen - l + 1
        invariant
            gs == g@,
            glen == gs.len(),
            is_dna(gs),
            1 <= k <= l <= glen,
            m == l - k + 1,
            pow(4, k as nat) <= usize::MAX,
            len == pow(4, k as nat),
            len >= 1,
            1 <= i <= glen - l + 1,
            clump@.len() == len,
            freqs@.len() == len,
            forall|y: int| 0 <= y < len ==> #[trigger] freqs@[y] == value_count(gs, k as int, y as nat, i - 1, i - 1 + m),
            forall|y: int|
                0 <= y < len ==> (#[trigger] clump@[y] <==> exists|s: int|
                    0 <= s < i && #[trigger] value_count(gs, k as int, y as nat, s, s + m) >= t),
        decreases glen - l + 1 - i,
    {
        let first = &g[i - 1..i - 1 + k];
        proof {
            lemma_window_dna(gs, i - 1, k as int);
            assert(first@ == window(gs, i - 1, k as int));
            lemma_pattern_value_bound(first@);
        }
        let fi = pattern_to_number(first);
        proof {
            lemma_value_count_front(gs, k as int, fi as nat, i - 1, i - 1 + m);
        }
        let v = freqs[fi] - 1;
        freqs.set(fi, v);
        let last = &g[i + l - k..i + l];
        proof {
            lemma_window_dna(gs, (i + l - k) as int, k as int);
            assert(last@ == window(gs, (i + l - k) as int, k as int));
            lemma_pattern_value_bound(last@);
        }
        let li = pattern_to_number(last);
        proof {
            lemma_value_count_bound(gs, k as int, li as nat, i as int, i - 1 + m);
            assert forall|y: int| 0 <= y < len implies #[trigger] value_count(gs, k as int, y as nat, i as int, i + m)
                == value_count(gs, k as int, y as nat, i - 1, i - 1 + m) - (if y == fi { 1int } else { 0int }) + (if y == li { 1int } else { 0int }) by {
                lemma_value_count_front(gs, k as int, y as nat, i - 1, i - 1 + m);
            }
        }
        proof {
            lemma_value_count_bound(gs, k as int, li as nat, i as int, i + m);
        }
        let w = freqs[li] + 1;
        freqs.set(li, w);
        let ghost old_clump = clump@;
        if freqs[li] >= t {
            clump.set(li, true);
        }
        proof {
            assert forall|y: int| 0 <= y < len implies #[trigger] freqs@[y] == value_count(gs, k as int, y as nat, i as int, i + m) by {
                lemma_value_count_front(gs, k as int, y as nat, i - 1, i - 1 + m);
            }
            assert forall|y: int|
                0 <= y < len implies (#[trigger] clump@[y] <==> exists|s: int|
                    0 <= s < i + 1 && #[trigger] value_count(gs, k as int, y as nat, s, s + m) >= t) by {
                lemma_value_count_front(gs, k as int, y as nat, i - 1, i - 1 + m);
                if exists|s: int| 0 <= s < i + 1 && #[trigger] value_count(gs, k as int, y as nat, s, s + m) >= t {
                    let s = choose|s: int| 0 <= s < i + 1 && #[trigger] value_count(gs, k as int, y as nat, s, s + m) >= t;
                    if s == i && y != li {
                        assert(value_count(gs, k as int, y as nat, i - 1, i - 1 + m) >= t);
                        assert(old_clump[y]);
                    }
                }
                if old_clump[y] {
                    let s = choose|s: int| 0 <= s < i && #[trigger] value_count(gs, k as int, y as nat, s, s + m) >= t;
                    assert(exists|s2: int| 0 <= s2 < i + 1 && #[trigger] value_count(gs, k as int, y as nat, s2, s2 + m) >= t);
                }
                if y == li && freqs@[y] >= t {
                    assert(value_count(gs, k as int, y as nat, i as int, i + m) >= t);
                }
            }
        }
        i = i + 1;
    }
    let mut res: Vec<String> = Vec::new();
    let ghost mut nums: Seq<nat> = Seq::empty();
    let mut x: usize = 0;
    while x < len
        invariant
            len == pow(4, k as nat),
            len >= 1,
            k >= 1,
            x <= len,
            clump@.len() == len,
            i == glen - l + 1,
            glen == gs.len(),
            gs == genome.spec_bytes(),
            m == l - k + 1,
            forall|y: int|
                0 <= y < len ==> (#[trigger] clump@[y] <==> exists|s: int|
                    0 <= s < i && #[trigger] value_count(gs, k as int, y as nat, s, s + m) >= t),
            nums.len() == res@.len(),
            forall|j: int| 0 <= j < res@.len() ==> #[trigger] res@[j]@ == decode_utf8(value_pattern(nums[j], k as nat)),
            forall|a: int, b: int| 0 <= a < b < nums.len() ==> nums[a] < nums[b],
            forall|j: int| 0 <= j < nums.len() ==> nums[j] < x,
            forall|y: nat| #[trigger] nums.contains(y) <==> (y < x && clump@[y as int]),
        decreases len - x,
    {
        if clump[x] {
            let p = number_to_pattern(x, k);
            res.push(p);
            proof {
                let before = nums;
                nums = nums.push(x as nat);
                assert forall|y: nat| #[trigger] nums.contains(y) <==> (y < x + 1 && clump@[y as int]) by {
                    if nums.contains(y) {
                        let e = choose|e: int| 0 <= e < nums.len() && nums[e] == y;
                        if e < before.len() {
                            assert(before.contains(y));
                        }
                    }
                    if y < x + 1 && clump@[y as int] {
                        if y < x {
                            assert(before.contains(y));
                            let e = choose|e: int| 0 <= e < before.len() && before[e] == y;
                            assert(nums[e] == y);
                        } else {
                            assert(nums[nums.len() - 1] == y);
                        }
                    }
                }
            }
        } else {
            proof {
                assert forall|y: nat| #[trigger] nums.contains(y) <==> (y < x + 1 && clump@[y as int]) by {
                    if nums.contains(y) {
                        let e = choose|e: int| 0 <= e < nums.len() && nums[e] == y;
                    }
                }
            }
        }
        x = x + 1;
    }
    proof {
        assert forall|y: nat| #[trigger] nums.contains(y) <==> (y < pow(4, k as nat) && forms_clump(
            gs,
            k as int,
            l as int,
            t as nat,
            y,
        )) by {
            if y < pow(4, k as nat) {
                let yi = y as int;
                assert(yi as nat == y);
                assert(clump@[yi] <==> exists|s: int|
                    0 <= s < i && #[trigger] value_count(gs, k as int, yi as nat, s, s + m) >= t);
                if clump@[yi] {
                    let s = choose|s: int| 0 <= s < i && #[trigger] value_count(gs, k as int, yi as nat, s, s + m) >= t;
                    assert(value_count(gs, k as int, y, s, s + l - k + 1) >= t);
                    assert(forms_clump(gs, k as int, l as int, t as nat, y));
                }
                if forms_clump(gs, k as int, l as int, t as nat, y) {
                    let s = choose|s: int|
                        0 <= s < num_windows(gs.len() as int, l as int) && #[trigger] value_count(gs, k as int, y, s, s + l - k + 1) >= t;
                    assert(value_count(gs, k as int, yi as nat, s, s + m) >= t);
                    assert(clump@[yi]);
                }
            } else if nums.contains(y) {
                let e = choose|e: int| 0 <= e < nums.len() && nums[e] == y;
            }
        }
        assert(lists_clumps(res@, nums, gs, k as nat, l as nat, t as nat));
    }
    res
}

/// The k-mers that occur exactly `t` times in some window of length `l` of
/// `text`, each once, in lexicographic order.
pub fn clump_finding_naive(text: &str, k: usize, l: usize, t: usize) -> (r: Vec<&str>)
    requires
        text.is_ascii(),
        1 <= k <= l <= text.spec_bytes().len(),
    ensures
        strictly_sorted(strs_bytes(r@)),
        strs_bytes(r@).to_set() == Set::new(
            |p: Seq<u8>|
                exists|i: int, j: int|
                    0 <= i < num_windows(text.spec_bytes().len() as int, l as int) && 0 <= j
                        < num_windows(l as int, k as int) && p == #[trigger] window(
                        #[trigger] window(text.spec_bytes(), i, l as int),
                        j,
                        k as int,
                    ) && occurrences(window(text.spec_bytes(), i, l as int), p) == t,
        ),
{
    let ghost tb = text.spec_bytes();
    let n = text.as_bytes().len() - l + 1;
    let mut res: Vec<&str> = Vec::new();
    let mut i: usize = 0;
    while i < n
        invariant
            text.is_ascii(),
            tb == text.spec_bytes(),
            1 <= k <= l <= tb.len(),
            n == num_windows(tb.len() as int, l as int),
            i <= n,
            strictly_sorted(strs_bytes(res@)),
            strs_bytes(res@).to_set() == Set::new(
                |p: Seq<u8>|
                    exists|i2: int, j: int|
                        0 <= i2 < i && 0 <= j < num_windows(l as int, k as int) && p == #[trigger] window(
                            #[trigger] window(tb, i2, l as int),
                            j,
                            k as int,
                        ) && occurrences(window(tb, i2, l as int), p) == t,
            ),
        decreases n - i,
    {
        let chunk = ascii_window(text, i, l);
        assert(chunk.is_ascii());
        let count = frequent_words_count(chunk.as_bytes(), k);
        let ghost cb = chunk.spec_bytes();
        let ghost before_i = strs_bytes(res@).to_set();
        let mut j: usize = 0;
        while j < count.len()
            invariant
                chunk.is_ascii(),
                cb == chunk.spec_bytes(),
                cb == window(tb, i as int, l as int),
                cb.len() == l,
                1 <= k <= l,
                count@.len() == num_windows(l as int, k as int),
                forall|j2: int| 0 <= j2 < count@.len() ==> #[trigger] count@[j2] == occurrences(cb, window(cb, j2, k as int)),
                j <= count@.len(),
                strictly_sorted(strs_bytes(res@)),
                strs_bytes(res@).to_set() == before_i.union(Set::new(
                    |p: Seq<u8>|
                        exists|j3: int|
                            0 <= j3 < j && p == #[trigger] window(cb, j3, k as int) && occurrences(cb, p) == t,
                )),
            decreases count@.len() - j,
        {
            let ghost before = strs_bytes(res@).to_set();
            if count[j] == t {
                let w = ascii_window(chunk, j, k);
                insert_sorted(&mut res, w);
            }
            proof {
                let target = before_i.union(Set::new(
                    |p: Seq<u8>|
                        exists|j3: int|
                            0 <= j3 < j + 1 && p == #[trigger] window(cb, j3, k as int) && occurrences(cb, p) == t,
                ));
                assert forall|p: Seq<u8>| strs_bytes(res@).to_set().contains(p) <==> target.contains(p) by {
                    if target.contains(p) && !before_i.contains(p) {
                        let j3 = choose|j3: int|
                            0 <= j3 < j + 1 && p == #[trigger] window(cb, j3, k as int) && occurrences(cb, p) == t;
                        if j3 < j {
                            assert(before.contains(p));
                        }
                    }
                    if before.contains(p) && !before_i.contains(p) {
                        let j3 = choose|j3: int|
                            0 <= j3 < j && p == #[trigger] window(cb, j3, k as int) && occurrences(cb, p) == t;
                        assert(target.contains(p));
                    }
                }
                assert(strs_bytes(res@).to_set() =~= target);
            }
            j = j + 1;
        }
        proof {
            let target = Set::new(
                |p: Seq<u8>|
                    exists|i2: int, j2: int|
                        0 <= i2 < i + 1 && 0 <= j2 < num_windows(l as int, k as int) && p == #[trigger] window(
                            #[trigger] window(tb, i2, l as int),
                            j2,
                            k as int,
                        ) && occurrences(window(tb, i2, l as int), p) == t,
            );
            assert forall|p: Seq<u8>| strs_bytes(res@).to_set().contains(p) <==> target.contains(p) by {
                if target.contains(p) {
                    let (i2, j2) = choose|i2: int, j2: int|
                        0 <= i2 < i + 1 && 0 <= j2 < num_windows(l as int, k as int) && p == #[trigger] window(
                            #[trigger] window(tb, i2, l as int),
                            j2,
                            k as int,
                        ) && occurrences(window(tb, i2, l as int), p) == t;
                    if i2 < i {
                        assert(before_i.contains(p));
                    } else {
                        assert(p == window(cb, j2, k as int));
                    }
                }
                if strs_bytes(res@).to_set().contains(p) {
                    if before_i.contains(p) {
                        let (i2, j2) = choose|i2: int, j2: int|
                            0 <= i2 < i && 0 <= j2 < num_windows(l as int, k as int) && p == #[trigger] window(
                                #[trigger] window(tb, i2, l as int),
                                j2,
                                k as int,
                            ) && occurrences(window(tb, i2, l as int), p) == t;
                        assert(target.contains(p));
                    } else {
                        let j3 = choose|j3: int|
                            0 <= j3 < count@.len() && p == #[trigger] window(cb, j3, k as int) && occurrences(cb, p) == t;
                        assert(p == window(window(tb, i as int, l as int), j3, k as int));
                        assert(target.contains(p));
                    }
                }
            }
            assert(strs_bytes(res@).to_set() =~= target);
        }
        i = i + 1;
    }
    res
}

proof fn lemma_value_pattern_round_trip(s: Seq<u8>)
    requires
        is_dna(s),
        s.len() >= 1,
    ensures
        value_pattern(pattern_value(s), s.len()) == s,
    decreases s.len(),
{
    let n = pattern_value(s);
    let init = s.drop_last();
    let b = s.last();
    assert(is_nuc(b)) by {
        assert(b == s[s.len() - 1]);
    }
    vstd::arithmetic::div_mod::lemma_fundamental_div_mod_converse(
        n as int,
        4,
        pattern_value(init) as int,
        symbol_value(b) as int,
    );
    if s.len() == 1 {
        assert(init.len() == 0);
        assert(value_pattern(n, 1) =~= s);
    } else {
        assert forall|i: int| 0 <= i < init.len() implies is_nuc(#[trigger] init[i]) by {
            assert(init[i] == s[i]);
        }
        lemma_value_pattern_round_trip(init);
        assert(value_pattern(n, s.len()) =~= init.push(b));
        assert(init.push(b) =~= s);
    }
}

proof fn lemma_pattern_value_round_trip(x: nat, k: nat)
    requires
        k >= 1,
        x < pow(4, k),
    ensures
        pattern_value(value_pattern(x, k)) == x,
    decreases k,
{
    reveal(pow);
    let p = value_pattern(x, k);
    if k == 1 {
        reveal_with_fuel(pow, 2);
        assert(p.drop_last() =~= Seq::<u8>::empty());
        assert(pattern_value(p.drop_last()) == 0);
        assert(p.last() == value_symbol(x));
    } else {
        assert(x / 4 < pow(4, (k - 1) as nat)) by (nonlinear_arith)
            requires
                x < 4 * pow(4, (k - 1) as nat),
        ;
        lemma_pattern_value_round_trip(x / 4, (k - 1) as nat);
        assert(p.drop_last() =~= value_pattern(x / 4, (k - 1) as nat));
        assert(p.last() == value_symbol(x % 4));
        assert(x == 4 * (x / 4) + x % 4) by (nonlinear_arith);
        assert(x % 4 < 4) by (nonlinear_arith);
    }
}

/// The d-neighbours of a DNA pattern are DNA strings of its length.
proof fn lemma_neighborhood_dna(p: Seq<u8>, d: nat, s: Seq<u8>)
    requires
        is_dna(p),
        p.len() >= 1,
        neighborhood(p, d).contains(s),
    ensures
        is_dna(s),
        s.len() == p.len(),
    decreases p.len(),
{
    if d == 0 {
    } else if p.len() <= 1 {
    } else {
        let tail = p.drop_first();
        assert forall|i: int| 0 <= i < tail.len() implies is_nuc(#[trigger] tail[i]) by {
            assert(tail[i] == p[i + 1]);
        }
        lemma_neighborhood_dna(tail, d, s.drop_first());
        assert(is_nuc(s[0])) by {
            assert(is_nuc(p[0]));
        }
        assert forall|i: int| 0 <= i < s.len() implies is_nuc(#[trigger] s[i]) by {
            if i > 0 {
                assert(s[i] == s.drop_first()[i - 1]);
            }
        }
    }
}

/// Number of the first `n` of `v` whose number is `x`.
pub open spec fn value_matches(v: Seq<Seq<u8>>, x: nat, n: int) -> nat
    decreases n,
{
    if n <= 0 {
        0
    } else {
        value_matches(v, x, n - 1) + if pattern_value(v[n - 1]) == x {
            1nat
        } else {
            0nat
        }
    }
}

proof fn lemma_value_matches_none(v: Seq<Seq<u8>>, x: nat, n: int)
    requires
        0 <= n <= v.len(),
        forall|e: int| 0 <= e < n ==> pattern_value(#[trigger] v[e]) != x,
    ensures
        value_matches(v, x, n) == 0,
    decreases n,
{
    if n > 0 {
        lemma_value_matches_none(v, x, n - 1);
    }
}

proof fn lemma_value_matches_one(v: Seq<Seq<u8>>, x: nat, n: int, e0: int)
    requires
        0 <= e0 < n <= v.len(),
        pattern_value(v[e0]) == x,
        forall|e: int| 0 <= e < n && e != e0 ==> pattern_value(#[trigger] v[e]) != x,
    ensures
        value_matches(v, x, n) == 1,
    decreases n,
{
    if n - 1 > e0 {
        lemma_value_matches_one(v, x, n - 1, e0);
    } else {
        lemma_value_matches_none(v, x, n - 1);
    }
}

/// Whether the DNA string of length `k` numbered `x` is a d-neighbour of `kmer`.
pub open spec fn near_count(kmer: Seq<u8>, k: nat, d: nat, x: nat) -> nat {
    if neighborhood(kmer, d).contains(value_pattern(x, k)) {
        1
    } else {
        0
    }
}

/// Adds one to the entry of each d-neighbour of `kmer`, indexed by its number.
fn add_neighbor_counts(close: &mut Vec<usize>, kmer: &[u8], d: usize)
    requires
        is_dna(kmer@),
        kmer@.len() >= 1,
        old(close)@.len() == pow(4, kmer@.len()),
        pow(4, kmer@.len()) <= usize::MAX,
        forall|x: int| 0 <= x < old(close)@.len() ==> #[trigger] old(close)@[x] < usize::MAX,
    ensures
        final(close)@.len() == old(close)@.len(),
        forall|x: int|
            0 <= x < final(close)@.len() ==> #[trigger] final(close)@[x] == old(close)@[x] + near_count(
                kmer@,
                kmer@.len(),
                d as nat,
                x as nat,
            ),
{
    let ghost k = kmer@.len();
    let ns = crate::dna::motif::neighbors(kmer, d);
    let ghost nv = vec_views(ns@);
    let mut c: usize = 0;
    while c < ns.len()
        invariant
            is_dna(kmer@),
            k == kmer@.len(),
            k >= 1,
            pow(4, k) <= usize::MAX,
            close@.len() == old(close)@.len(),
            close@.len() == pow(4, k),
            forall|x: int| 0 <= x < old(close)@.len() ==> #[trigger] old(close)@[x] < usize::MAX,
            nv == vec_views(ns@),
            nv.to_set() == neighborhood(kmer@, d as nat),
            nv.no_duplicates(),
            c <= ns@.len(),
            forall|x: int| 0 <= x < close@.len() ==> #[trigger] close@[x] == old(close)@[x] + value_matches(nv, x as nat, c as int),
            forall|x: int| 0 <= x < close@.len() ==> #[trigger] value_matches(nv, x as nat, c as int) <= 1,
        decreases ns@.len() - c,
    {
        let s = ns[c].as_slice();
        proof {
            assert(s@ == nv[c as int]);
            assert(nv.to_set().contains(nv[c as int]));
            lemma_neighborhood_dna(kmer@, d as nat, s@);
            lemma_pattern_value_bound(s@);
        }
        let x = pattern_to_number(s);
        proof {
            assert forall|e: int| 0 <= e < c implies pattern_value(#[trigger] nv[e]) != x as nat by {
                if pattern_value(nv[e]) == x {
                    assert(nv.to_set().contains(nv[e]));
                    lemma_neighborhood_dna(kmer@, d as nat, nv[e]);
                    lemma_value_pattern_round_trip(nv[e]);
                    lemma_value_pattern_round_trip(nv[c as int]);
                }
            }
            lemma_value_matches_none(nv, x as nat, c as int);
            assert forall|y: int| 0 <= y < close@.len() implies #[trigger] value_matches(nv, y as nat, c + 1) <= 1 by {
                assert(value_matches(nv, y as nat, c as int) <= 1);
                assert(value_matches(nv, y as nat, c + 1) == value_matches(nv, y as nat, c as int) + if pattern_value(nv[c as int]) == y as nat {
                    1nat
                } else {
                    0nat
                });
                if y != x {
                    assert(pattern_value(nv[c as int]) != y as nat);
                }
            }
        }
        let v = close[x] + 1;
        close.set(x, v);
        c = c + 1;
    }
    proof {
        assert forall|x: int| 0 <= x < close@.len() implies #[trigger] close@[x] == old(close)@[x] + near_count(
            kmer@,
            k,
            d as nat,
            x as nat,
        ) by {
            let target = value_pattern(x as nat, k);
            if neighborhood(kmer@, d as nat).contains(target) {
                assert(nv.to_set().contains(target));
                let e0 = choose|e: int| 0 <= e < nv.len() && nv[e] == target;
                lemma_pattern_value_round_trip(x as nat, k);
                assert forall|e: int| 0 <= e < nv.len() && e != e0 implies pattern_value(#[trigger] nv[e]) != x as nat by {
                    if pattern_value(nv[e]) == x as nat {
                        assert(nv.to_set().contains(nv[e]));
                        lemma_neighborhood_dna(kmer@, d as nat, nv[e]);
                        lemma_value_pattern_round_trip(nv[e]);
                    }
                }
                lemma_value_matches_one(nv, x as nat, nv.len() as int, e0);
            } else {
                assert forall|e: int| 0 <= e < nv.len() implies pattern_value(#[trigger] nv[e]) != x as nat by {
                    if pattern_value(nv[e]) == x as nat {
                        assert(nv.to_set().contains(nv[e]));
                        lemma_neighborhood_dna(kmer@, d as nat, nv[e]);
                        lemma_value_pattern_round_trip(nv[e]);
                    }
                }
                lemma_value_matches_none(nv, x as nat, nv.len() as int);
            }
        }
    }
}

/// Number of the first `n` windows of length `k` of `t` of which the DNA
/// string numbered `x` is a d-neighbour; with `both`, the reverse complements
/// of the windows count too.
pub open spec fn close_count(t: Seq<u8>, k: nat, d: nat, x: nat, both: bool, n: int) -> nat
    decreases n,
{
    if n <= 0 {
        0
    } else {
        let w = window(t, n - 1, k as int);
        close_count(t, k, d, x, both, n - 1) + near_count(w, k, d, x) + if both {
            near_count(reverse_complement_seq(w), k, d, x)
        } else {
            0
        }
    }
}

/// The entries `close_count` gives for all DNA strings of length `k`.
pub open spec fn close_counts(t: Seq<u8>, k: nat, d: nat, both: bool) -> Seq<usize> {
    Seq::new(
        pow(4, k) as nat,
        |x: int| close_count(t, k, d, x as nat, both, num_windows(t.len() as int, k as int)) as usize,
    )
}

/// `r` holds, in increasing order of their numbers `nums`, the DNA strings of
/// length `k` whose entry in `counts` is greatest.
pub open spec fn lists_most_frequent(r: Seq<String>, nums: Seq<nat>, k: nat, counts: Seq<usize>) -> bool {
    &&& nums.len() == r.len()
    &&& forall|j: int| 0 <= j < r.len() ==> #[trigger] r[j]@ == decode_utf8(value_pattern(nums[j], k))
    &&& forall|a: int, b: int| 0 <= a < b < nums.len() ==> nums[a] < nums[b]
    &&& forall|x: nat|
        #[trigger] nums.contains(x) <==> (x < counts.len() && counts[x as int] == max_upto(
            counts,
            counts.len() as int,
        ))
}

proof fn lemma_reverse_complement_dna(s: Seq<u8>)
    requires
        is_dna(s),
    ensures
        is_dna(reverse_complement_seq(s)),
        reverse_complement_seq(s).len() == s.len(),
{
    let r = reverse_complement_seq(s);
    assert forall|i: int| 0 <= i < r.len() implies is_nuc(#[trigger] r[i]) by {
        assert(r[i] == complement_of(s[s.len() - 1 - i]));
        assert(is_nuc(s[s.len() - 1 - i]));
    }
}

/// For every DNA string of length `k`, the number of windows of `t` of
/// which it is a d-neighbour, reverse complements included when `both`.
fn mismatch_counts(t: &[u8], k: usize, d: usize, both: bool) -> (r: Vec<usize>)
    requires
        is_dna(t@),
        1 <= k <= t@.len(),
        pow(4, k as nat) <= usize::MAX,
        2 * t@.len() < usize::MAX,
    ensures
        r@ == close_counts(t@, k as nat, d as nat, both),
        r@.len() == pow(4, k as nat),
{
    proof {
        vstd::arithmetic::power::lemma_pow_positive(4, k as nat);
    }
    let len = pow4(k);
    let mut close: Vec<usize> = vec![0; len];
    let tl = t.len();
    let n = tl - k + 1;
    let mut i: usize = 0;
    while i < n
        invariant
            tl == t@.len(),
            is_dna(t@),
            1 <= k <= t@.len(),
            2 * t@.len() < usize::MAX,
            pow(4, k as nat) <= usize::MAX,
            len == pow(4, k as nat),
            n == num_windows(t@.len() as int, k as int),
            i <= n,
            close@.len() == len,
            forall|x: int| 0 <= x < len ==> #[trigger] close@[x] == close_count(t@, k as nat, d as nat, x as nat, both, i as int),
            forall|x: int| 0 <= x < len ==> #[trigger] close_count(t@, k as nat, d as nat, x as nat, both, i as int) <= 2 * i,
        decreases n - i,
    {
        let kmer = &t[i..i + k];
        proof {
            lemma_window_dna(t@, i as int, k as int);
            assert(kmer@ == window(t@, i as int, k as int));
        }
        let ghost before = close@;
        add_neighbor_counts(&mut close, kmer, d);
        if both {
            let rc = Dna::from_slice(kmer).reverse_complement();
            proof {
                lemma_reverse_complement_dna(kmer@);
            }
            add_neighbor_counts(&mut close, rc.as_slice(), d);
        }
        proof {
            assert forall|x: int| 0 <= x < len implies #[trigger] close_count(t@, k as nat, d as nat, x as nat, both, i + 1) <= 2 * (i + 1) && close@[x] == close_count(t@, k as nat, d as nat, x as nat, both, i + 1) by {
                assert(close_count(t@, k as nat, d as nat, x as nat, both, i as int) == before[x]);
                let w = window(t@, i as int, k as int);
                assert(close_count(t@, k as nat, d as nat, x as nat, both, i + 1) == close_count(t@, k as nat, d as nat, x as nat, both, i as int)
                    + near_count(w, k as nat, d as nat, x as nat) + if both {
                        near_count(reverse_complement_seq(w), k as nat, d as nat, x as nat)
                    } else {
                        0
                    });
            }
        }
        i = i + 1;
    }
    assert(close@ =~= close_counts(t@, k as nat, d as nat, both));
    close
}

/// The DNA strings of length `k` whose entry in `counts` is greatest.
fn most_frequent_numbers(counts: &Vec<usize>, k: usize) -> (r: Vec<String>)
    requires
        k >= 1,
        counts@.len() == pow(4, k as nat),
    ensures
        exists|nums: Seq<nat>| #[trigger] lists_most_frequent(r@, nums, k as nat, counts@),
{
    proof {
        vstd::arithmetic::power::lemma_pow_positive(4, k as nat);
    }
    let len = counts.len();
    let mut max_count = counts[0];
    let mut i: usize = 1;
    while i < len
        invariant
            len == counts@.len(),
            len >= 1,
            1 <= i <= len,
            max_count == max_upto(counts@, i as int),
        decreases len - i,
    {
        if counts[i] > max_count {
            max_count = counts[i];
        }
        i = i + 1;
    }
    let mut res: Vec<String> = Vec::new();
    let ghost mut nums: Seq<nat> = Seq::empty();
    let mut x: usize = 0;
    while x < len
        invariant
            len == counts@.len(),
            len == pow(4, k as nat),
            len >= 1,
            k >= 1,
            x <= len,
            max_count == max_upto(counts@, len as int),
            nums.len() == res@.len(),
            forall|j: int| 0 <= j < res@.len() ==> #[trigger] res@[j]@ == decode_utf8(value_pattern(nums[j], k as nat)),
            forall|a: int, b: int| 0 <= a < b < nums.len() ==> nums[a] < nums[b],
            forall|j: int| 0 <= j < nums.len() ==> nums[j] < x,
            forall|y: nat| #[trigger] nums.contains(y) <==> (y < x && counts@[y as int] == max_count),
        decreases len - x,
    {
        if counts[x] == max_count {
            let p = number_to_pattern(x, k);
            res.push(p);
            proof {
                let before = nums;
                nums = nums.push(x as nat);
                assert forall|y: nat| #[trigger] nums.contains(y) <==> (y < x + 1 && counts@[y as int] == max_count) by {
                    if nums.contains(y) {
                        let e = choose|e: int| 0 <= e < nums.len() && nums[e] == y;
                        if e < before.len() {
                            assert(before.contains(y));
                        }
                    }
                    if y < x + 1 && counts@[y as int] == max_count {
                        if y < x {
                            assert(before.contains(y));
                            let e = choose|e: int| 0 <= e < before.len() && before[e] == y;
                            assert(nums[e] == y);
                        } else {
                            assert(nums[nums.len() - 1] == y);
                        }
                    }
                }
            }
        } else {
            proof {
                assert forall|y: nat| #[trigger] nums.contains(y) <==> (y < x + 1 && counts@[y as int] == max_count) by {
                    if nums.contains(y) {
                        let e = choose|e: int| 0 <= e < nums.len() && nums[e] == y;
                    }
                }
            }
        }
        x = x + 1;
    }
    proof {
        assert(lists_most_frequent(res@, nums, k as nat, counts@));
    }
    res
}

/// Most frequent k-mers with at most `d` mismatches in a DNA text: the DNA
/// strings of length `k` that are d-neighbours of the most windows, in
/// increasing order of their numbers.
pub fn frequent_words_with_mismatches(text: &str, k: usize, d: usize) -> (r: Vec<String>)
    requires
        is_dna(text.spec_bytes()),
        1 <= k <= text.spec_bytes().len(),
        pow(4, k as nat) <= usize::MAX,
        2 * text.spec_bytes().len() < usize::MAX,
    ensures
        exists|nums: Seq<nat>|
            #[trigger] lists_most_frequent(r@, nums, k as nat, close_counts(text.spec_bytes(), k as nat, d as nat, false)),
{
    let close = mismatch_counts(text.as_bytes(), k, d, false);
    most_frequent_numbers(&close, k)
}

/// As `frequent_words_with_mismatches`, where a window also counts for the
/// d-neighbours of its reverse complement.
pub fn frequent_words_with_mismatches_and_reverse_complements(text: &str, k: usize, d: usize) -> (r: Vec<String>)
    requires
        is_dna(text.spec_bytes()),
        1 <= k <= text.spec_bytes().len(),
        pow(4, k as nat) <= usize::MAX,
        2 * text.spec_bytes().len() < usize::MAX,
    ensures
        exists|nums: Seq<nat>|
            #[trigger] lists_most_frequent(r@, nums, k as nat, close_counts(text.spec_bytes(), k as nat, d as nat, true)),
{
    let close = mismatch_counts(text.as_bytes(), k, d, true);
    most_frequent_numbers(&close, k)
}

/// Skew of the first `n` characters of `t`: the number of G minus the number of C.
pub open spec fn skew(t: Seq<char>, n: int) -> int
    decreases n,
{
    if n <= 0 {
        0
    } else {
        skew(t, n - 1) + if t[n - 1] == 'G' {
            1int
        } else if t[n - 1] == 'C' {
            -1int
        } else {
            0int
        }
    }
}

proof fn lemma_skew_bound(t: Seq<char>, n: int)
    requires
        0 <= n,
    ensures
        -n <= skew(t, n) <= n,
    decreases n,
{
    if n > 0 {
        lemma_skew_bound(t, n - 1);
    }
}

fn skew_chars(genome: &str) -> (r: Vec<isize>)
    requires
        genome@.len() <= isize::MAX,
    ensures
        r@.len() == genome@.len(),
        forall|i: int| 0 <= i < r@.len() ==> #[trigger] r@[i] == skew(genome@, i + 1),
{
    broadcast use vstd::string::axiom_spec_iter, vstd::string::next_postcondition;

    let ghost g = genome@;
    let mut it = genome.chars();
    let mut acc: isize = 0;
    let mut r: Vec<isize> = Vec::new();
    let ghost mut i: int = 0;
    loop
        invariant
            g == genome@,
            g.len() <= isize::MAX,
            0 <= i <= g.len(),
            it.remaining() == g.subrange(i, g.len() as int),
            acc == skew(g, i),
            r@.len() == i,
            forall|j: int| 0 <= j < i ==> #[trigger] r@[j] == skew(g, j + 1),
        ensures
            r@.len() == g.len(),
            forall|j: int| 0 <= j < r@.len() ==> #[trigger] r@[j] == skew(g, j + 1),
        decreases g.len() - i,
    {
        let ghost before = it;
        match it.next() {
            Some(c) => {
                proof {
                    assert(before.remaining().len() > 0);
                    assert(c == g[i]);
                    lemma_skew_bound(g, i);
                }
                if c == 'G' {
                    acc = acc + 1;
                } else if c == 'C' {
                    acc = acc - 1;
                }
                r.push(acc);
                proof {
                    assert(it.remaining() =~= g.subrange(i + 1, g.len() as int));
                    i = i + 1;
                }
            },
            None => {
                proof {
                    assert(before.remaining().len() == 0);
                }
                break;
            },
        }
    }
    r
}

/// Skew of every prefix of `genome`, the first character's prefix first:
/// the number of G minus the number of C.
pub fn gc_skew(genome: &str) -> (r: Vec<isize>)
    requires
        genome@.len() <= isize::MAX,
    ensures
        r@.len() == genome@.len(),
        forall|i: int| 0 <= i < r@.len() ==> #[trigger] r@[i] == skew(genome@, i + 1),
{
    skew_chars(genome)
}

/// Same as `gc_skew`.
pub fn gc_skew_scan(genome: &str) -> (r: Vec<isize>)
    requires
        genome@.len() <= isize::MAX,
    ensures
        r@.len() == genome@.len(),
        forall|i: int| 0 <= i < r@.len() ==> #[trigger] r@[i] == skew(genome@, i + 1),
{
    skew_chars(genome)
}

/// Least of the first `n` values, or the greatest `isize` when there are none.
pub open spec fn min_upto(xs: Seq<isize>, n: int) -> isize
    decreases n,
{
    if n <= 0 {
        isize::MAX
    } else if xs[n - 1] < min_upto(xs, n - 1) {
        xs[n - 1]
    } else {
        min_upto(xs, n - 1)
    }
}

/// The least value of `xs` (the greatest `isize` when empty) and the indices
/// where it stands, in increasing order.
pub fn min_indices(xs: &[isize]) -> (r: (isize, Vec<usize>))
    ensures
        r.0 == min_upto(xs@, xs@.len() as int),
        forall|j: int, l: int| 0 <= j < l < r.1@.len() ==> r.1@[j] < r.1@[l],
        forall|j: int| 0 <= j < r.1@.len() ==> (r.1@[j] as int) < xs@.len(),
        forall|i: int| 0 <= i < xs@.len() ==> (#[trigger] r.1@.contains(i as usize) <==> xs@[i] == r.0),
{
    let mut inds: Vec<usize> = Vec::new();
    let mut min = isize::MAX;
    let mut i: usize = 0;
    while i < xs.len()
        invariant
            i <= xs@.len(),
            min == min_upto(xs@, i as int),
            forall|j: int, l: int| 0 <= j < l < inds@.len() ==> inds@[j] < inds@[l],
            forall|j: int| 0 <= j < inds@.len() ==> inds@[j] < i,
            forall|l: int| 0 <= l < i ==> (#[trigger] inds@.contains(l as usize) <==> xs@[l] == min),
            forall|l: int| 0 <= l < i ==> min <= xs@[l],
        decreases xs@.len() - i,
    {
        let x = xs[i];
        let ghost before = inds@;
        if x < min {
            inds = Vec::new();
            inds.push(i);
            min = x;
            proof {
                assert forall|l: int| 0 <= l < i + 1 implies (#[trigger] inds@.contains(l as usize) <==> xs@[l] == min) by {
                    if l == i {
                        assert(inds@[0] == i);
                    }
                }
            }
        } else if x == min {
            inds.push(i);
            proof {
                assert forall|l: int| 0 <= l < i + 1 implies (#[trigger] inds@.contains(l as usize) <==> xs@[l] == min) by {
                    if l == i {
                        assert(inds@[inds@.len() - 1] == i);
                    } else if before.contains(l as usize) {
                        let e = choose|e: int| 0 <= e < before.len() && before[e] == l as usize;
                        assert(inds@[e] == l as usize);
                    } else if inds@.contains(l as usize) {
                        let e = choose|e: int| 0 <= e < inds@.len() && inds@[e] == l as usize;
                        assert(e < before.len());
                    }
                }
            }
        }
        i = i + 1;
    }
    (min, inds)
}

/// Hamming distance of two ASCII strings of one length, letter by letter.
pub fn hamming_distance(xs: &str, ys: &str) -> (r: usize)
    requires
        xs.is_ascii(),
        ys.is_ascii(),
        xs.spec_bytes().len() == ys.spec_bytes().len(),
    ensures
        r == hamming(xs.spec_bytes(), ys.spec_bytes()),
{
    crate::seq::hamming_distance(xs.as_bytes(), ys.as_bytes())
}

/// Each letter of a d-neighbour of `p` is a nucleotide letter or the letter of `p` at its place.
proof fn lemma_neighborhood_letters(p: Seq<u8>, d: nat, s: Seq<u8>)
    requires
        p.len() >= 1,
        neighborhood(p, d).contains(s),
    ensures
        s.len() == p.len(),
        forall|i: int| 0 <= i < s.len() ==> is_nuc(#[trigger] s[i]) || s[i] == p[i],
    decreases p.len(),
{
    if d == 0 {
    } else if p.len() <= 1 {
    } else {
        let tail = p.drop_first();
        lemma_neighborhood_letters(tail, d, s.drop_first());
        assert forall|i: int| 0 <= i < s.len() implies is_nuc(#[trigger] s[i]) || s[i] == p[i] by {
            if i > 0 {
                assert(s[i] == s.drop_first()[i - 1]);
                assert(p[i] == tail[i - 1]);
            }
        }
    }
}

/// `s` is the text of a d-neighbour of the bytes `p`.
pub open spec fn is_neighbor_text(p: Seq<u8>, d: nat, s: Seq<char>) -> bool {
    exists|b: Seq<u8>| #[trigger] neighborhood(p, d).contains(b) && s == decode_utf8(b)
}

/// All strings within Hamming distance `d` of the ASCII string `pattern`, each once.
pub fn neighbors(pattern: &str, d: usize) -> (r: Vec<String>)
    requires
        pattern.is_ascii(),
        d == 0 || pattern.spec_bytes().len() >= 1,
    ensures
        forall|j: int| 0 <= j < r@.len() ==> is_neighbor_text(pattern.spec_bytes(), d as nat, #[trigger] r@[j]@),
        forall|b: Seq<u8>|
            #[trigger] neighborhood(pattern.spec_bytes(), d as nat).contains(b) ==> exists|j: int|
                0 <= j < r@.len() && r@[j]@ == decode_utf8(b),
        r@.map_values(|x: String| x@).no_duplicates(),
{
    let pb = pattern.as_bytes();
    let ns = crate::dna::motif::neighbors(pb, d);
    let ghost nv = vec_views(ns@);
    let mut res: Vec<String> = Vec::new();
    let mut c: usize = 0;
    while c < ns.len()
        invariant
            pattern.is_ascii(),
            pb@ == pattern.spec_bytes(),
            d == 0 || pb@.len() >= 1,
            nv == vec_views(ns@),
            nv.to_set() == neighborhood(pb@, d as nat),
            c <= ns@.len(),
            res@.len() == c,
            forall|j: int| 0 <= j < c ==> #[trigger] res@[j]@ == decode_utf8(nv[j]),
            nv.no_duplicates(),
            forall|j: int| 0 <= j < c ==> vstd::utf8::valid_utf8(#[trigger] nv[j]),
        decreases ns@.len() - c,
    {
        let v = vstd::slice::slice_to_vec(ns[c].as_slice());
        proof {
            assert(v@ == nv[c as int]);
            assert(nv.to_set().contains(nv[c as int]));
            if d == 0 {
                assert(v@ == pb@);
            } else {
                lemma_neighborhood_letters(pb@, d as nat, v@);
            }
            assert forall|i: int| 0 <= i < v@.len() implies #[trigger] v@[i] < 128 by {
                if !is_nuc(v@[i]) {
                    assert(v@[i] == pb@[i]);
                }
            }
            lemma_ascii_is_utf8(v@);
        }
        res.push(utf8_to_string(v));
        c = c + 1;
    }
    proof {
        let rv = res@.map_values(|x: String| x@);
        assert forall|a: int, b2: int| 0 <= a < rv.len() && 0 <= b2 < rv.len() && a != b2 implies rv[a] != rv[b2] by {
            assert(rv[a] == decode_utf8(nv[a]));
            assert(rv[b2] == decode_utf8(nv[b2]));
            vstd::utf8::decode_utf8_encode_utf8(nv[a]);
            vstd::utf8::decode_utf8_encode_utf8(nv[b2]);
            assert(nv[a] != nv[b2]);
        }
    }
    proof {
        assert forall|j: int| 0 <= j < res@.len() implies is_neighbor_text(pattern.spec_bytes(), d as nat, #[trigger] res@[j]@) by {
            assert(nv.to_set().contains(nv[j]));
            assert(neighborhood(pattern.spec_bytes(), d as nat).contains(nv[j]));
            assert(res@[j]@ == decode_utf8(nv[j]));
        }
        assert forall|b: Seq<u8>| #[trigger] neighborhood(pattern.spec_bytes(), d as nat).contains(b) implies exists|j: int|
            0 <= j < res@.len() && res@[j]@ == decode_utf8(b) by {
            assert(nv.to_set().contains(b));
            let j = choose|j: int| 0 <= j < nv.len() && nv[j] == b;
            assert(res@[j]@ == decode_utf8(b));
        }
    }
    res
}

/// Reverse complement of an ASCII text: its letters complemented, read backwards.
pub fn reverse_complement(text: &str) -> (r: String)
    requires
        text.is_ascii(),
    ensures
        r@ == decode_utf8(reverse_complement_seq(text.spec_bytes())),
{
    let rc = Dna::from_str_unchecked(text).reverse_complement();
    proof {
        let tb = text.spec_bytes();
        let rb = reverse_complement_seq(tb);
        assert forall|i: int| 0 <= i < rb.len() implies #[trigger] rb[i] < 128 by {
            assert(rb[i] == complement_of(tb[tb.len() - 1 - i]));
        }
        lemma_ascii_is_utf8(rb);
    }
    rc.to_string()
}

} // verus!
