//! Motif finding: exhaustive, greedy and randomized searches.
use vstd::arithmetic::power::pow;
use vstd::prelude::*;

use super::dna_impl::Dna;
use super::profile::{views, MotifError};
use super::{alphabet, alphabet_seq, is_dna, is_nuc, A, C, G, T};
use crate::seq::{concat, hamming, hamming_distance, mismatches, lemma_mismatches_bound, num_windows, permutations_with_repetitions, power_tuples, slices_equal, tuple_at, window, lemma_tuple_len};

verus! {

/// Least Hamming distance of `pattern` to a window of `s` among the first `n` windows.
pub open spec fn min_distance_upto(pattern: Seq<u8>, s: Seq<u8>, n: int) -> nat
    decreases n,
{
    let k = pattern.len() as int;
    if n <= 1 {
        hamming(pattern, window(s, 0, k))
    } else {
        let prev = min_distance_upto(pattern, s, n - 1);
        let h = hamming(pattern, window(s, n - 1, k));
        if h < prev {
            h
        } else {
            prev
        }
    }
}

/// Least Hamming distance of `pattern` to a window of `s` of the same length.
pub open spec fn min_distance(pattern: Seq<u8>, s: Seq<u8>) -> nat {
    min_distance_upto(pattern, s, num_windows(s.len() as int, pattern.len() as int))
}

/// Sum of the least distances of `pattern` to the first `n` strings of `seqs`.
pub open spec fn total_distance_upto(seqs: Seq<Seq<u8>>, pattern: Seq<u8>, n: int) -> nat
    decreases n,
{
    if n <= 0 {
        0
    } else {
        total_distance_upto(seqs, pattern, n - 1) + min_distance(pattern, seqs[n - 1])
    }
}

/// Distance between `pattern` and the strings `seqs`: the sum over the strings
/// of the least Hamming distance of `pattern` to one of their windows.
pub open spec fn total_distance(seqs: Seq<Seq<u8>>, pattern: Seq<u8>) -> nat {
    total_distance_upto(seqs, pattern, seqs.len() as int)
}

/// Every string of `seqs` is at least `k` long.
pub open spec fn all_at_least(seqs: Seq<Seq<u8>>, k: nat) -> bool {
    forall|i: int| 0 <= i < seqs.len() ==> (#[trigger] seqs[i]).len() >= k
}

proof fn lemma_min_distance_bound(pattern: Seq<u8>, s: Seq<u8>, n: int)
    ensures
        min_distance_upto(pattern, s, n) <= pattern.len(),
    decreases n,
{
    lemma_mismatches_bound(pattern, window(s, 0, pattern.len() as int), pattern.len() as int);
    if n > 1 {
        lemma_min_distance_bound(pattern, s, n - 1);
    }
}

/// Least Hamming distance of `pattern` to a window of `text`.
fn min_window_distance(text: &[u8], pattern: &[u8]) -> (r: usize)
    requires
        1 <= pattern@.len() <= text@.len(),
    ensures
        r == min_distance(pattern@, text@),
{
    let k = pattern.len();
    let tl = text.len();
    let n = tl - k + 1;
    let mut h = hamming_distance(pattern, &text[0..k]);
    let mut i: usize = 1;
    while i < n
        invariant
            tl == text@.len(),
            k == pattern@.len(),
            1 <= k <= text@.len(),
            n == num_windows(text@.len() as int, k as int),
            1 <= i <= n,
            h == min_distance_upto(pattern@, text@, i as int),
        decreases n - i,
    {
        let d = hamming_distance(pattern, &text[i..i + k]);
        if d < h {
            h = d;
        }
        i = i + 1;
    }
    h
}

/// Distance between `pattern` and the DNA strings `dnas`: the sum over the
/// strings of the least Hamming distance of `pattern` to one of their k-mers.
pub fn distance(dnas: &[Dna], pattern: &Dna) -> (r: usize)
    requires
        pattern@.len() >= 1,
        all_at_least(views(dnas@), pattern@.len()),
        dnas@.len() * pattern@.len() <= usize::MAX,
    ensures
        r == total_distance(views(dnas@), pattern@),
{
    let ghost seqs = views(dnas@);
    let k = pattern.len();
    let mut acc: usize = 0;
    let mut i: usize = 0;
    while i < dnas.len()
        invariant
            seqs == views(dnas@),
            k == pattern@.len(),
            k >= 1,
            all_at_least(seqs, k as nat),
            dnas@.len() * k <= usize::MAX,
            i <= dnas@.len(),
            acc == total_distance_upto(seqs, pattern@, i as int),
            acc <= i * k,
        decreases dnas@.len() - i,
    {
        assert(seqs[i as int] == dnas@[i as int]@);
        let h = min_window_distance(dnas[i].as_slice(), pattern.as_slice());
        proof {
            lemma_min_distance_bound(pattern@, seqs[i as int], num_windows(seqs[i as int].len() as int, k as int));
            assert((i + 1) * k <= dnas@.len() * k) by (nonlinear_arith)
                requires
                    i + 1 <= dnas@.len(),
            ;
            assert((i + 1) * k == i * k + k) by (nonlinear_arith);
        }
        acc = acc + h;
        i = i + 1;
    }
    acc
}

/// Number, in enumeration order, of the first candidate of least distance among the first `n`.
pub open spec fn median_index_upto(seqs: Seq<Seq<u8>>, k: nat, n: int) -> int
    decreases n,
{
    if n <= 1 {
        0
    } else {
        let b = median_index_upto(seqs, k, n - 1);
        if total_distance(seqs, tuple_at(alphabet_seq(), k, n - 1)) < total_distance(
            seqs,
            tuple_at(alphabet_seq(), k, b),
        ) {
            n - 1
        } else {
            b
        }
    }
}

/// Median string: among all k-mers, in the order of enumeration over the
/// alphabet, the first of least distance to `seqs`.
pub open spec fn median_spec(seqs: Seq<Seq<u8>>, k: nat) -> Seq<u8> {
    tuple_at(alphabet_seq(), k, median_index_upto(seqs, k, pow(4, k)))
}

/// The error that the exhaustive searches report on `seqs` and `k`, if any.
pub open spec fn exhaustive_input_error(seqs: Seq<Seq<u8>>, k: nat) -> Option<MotifError> {
    if seqs.len() == 0 {
        Some(MotifError::EmptyInput)
    } else if k == 0 || !all_at_least(seqs, k) {
        Some(MotifError::InvalidLength)
    } else {
        None
    }
}

/// Checks the input of a search: a non-empty collection of strings, each at least `k` long.
fn check_lengths(dnas: &[Dna], k: usize) -> (r: Result<(), MotifError>)
    ensures
        r is Ok <==> exhaustive_input_error(views(dnas@), k as nat) is None,
        r matches Err(e) ==> exhaustive_input_error(views(dnas@), k as nat) == Some(e),
{
    if dnas.len() == 0 {
        return Err(MotifError::EmptyInput);
    }
    if k == 0 {
        return Err(MotifError::InvalidLength);
    }
    let mut i: usize = 0;
    while i < dnas.len()
        invariant
            i <= dnas@.len(),
            forall|j: int| 0 <= j < i ==> (#[trigger] views(dnas@)[j]).len() >= k,
        decreases dnas@.len() - i,
    {
        if dnas[i].len() < k {
            assert(views(dnas@)[i as int].len() < k);
            return Err(MotifError::InvalidLength);
        }
        i = i + 1;
    }
    Ok(())
}

/// Median string of length `k` of `dnas`: of all k-mers, the first, in
/// enumeration order, whose distance to `dnas` is least.
pub fn median_string(dnas: &[Dna], k: usize) -> (r: Result<Dna, MotifError>)
    requires
        dnas@.len() * k <= usize::MAX,
    ensures
        r is Ok <==> exhaustive_input_error(views(dnas@), k as nat) is None,
        r matches Err(e) ==> exhaustive_input_error(views(dnas@), k as nat) == Some(e),
        r matches Ok(m) ==> m@ == median_spec(views(dnas@), k as nat),
{
    match check_lengths(dnas, k) {
        Err(e) => {
            return Err(e);
        },
        Ok(()) => {},
    }
    let ghost seqs = views(dnas@);
    let alpha = alphabet();
    let cands = permutations_with_repetitions(&alpha, k);
    assert(alpha@.len() == 4);
    proof {
        vstd::arithmetic::power::lemma_pow_positive(4, k as nat);
    }
    assert(cands@.len() == pow(4, k as nat));
    let first = Dna::from_slice(cands[0].as_slice());
    assert(cands@[0]@ == tuple_at(alphabet_seq(), k as nat, 0));
    proof {
        lemma_tuple_len(alphabet_seq(), k as nat, 0);
    }
    let mut d = distance(dnas, &first);
    let mut median = first;
    let ghost mut mi: int = 0;
    let mut i: usize = 1;
    while i < cands.len()
        invariant
            seqs == views(dnas@),
            alpha@ == alphabet_seq(),
            k >= 1,
            all_at_least(seqs, k as nat),
            dnas@.len() * k <= usize::MAX,
            cands@.len() == power_tuples(alpha@, k as nat).len(),
            forall|j: int| 0 <= j < cands@.len() ==> #[trigger] cands@[j]@ == power_tuples(alpha@, k as nat)[j],
            1 <= i <= cands@.len(),
            cands@.len() == pow(4, k as nat),
            mi == median_index_upto(seqs, k as nat, i as int),
            median@ == tuple_at(alphabet_seq(), k as nat, mi),
            d == total_distance(seqs, median@),
        decreases cands@.len() - i,
    {
        let pattern = Dna::from_slice(cands[i].as_slice());
        assert(pattern@ == tuple_at(alphabet_seq(), k as nat, i as int));
        proof {
            lemma_tuple_len(alphabet_seq(), k as nat, i as int);
        }
        let dk = distance(dnas, &pattern);
        if dk < d {
            d = dk;
            median = pattern;
            proof {
                mi = i as int;
            }
        }
        i = i + 1;
    }
    Ok(median)
}

/// The byte sequences of a vector of byte vectors.
pub open spec fn vec_views(v: Seq<Vec<u8>>) -> Seq<Seq<u8>> {
    v.map_values(|x: Vec<u8>| x@)
}

/// Which first symbols a neighbour of `pattern` may have, given its tail `rest`.
pub open spec fn head_allowed(pattern: Seq<u8>, d: nat, s: Seq<u8>) -> bool {
    if hamming(pattern.drop_first(), s.drop_first()) < d {
        is_nuc(s[0])
    } else {
        s[0] == pattern[0]
    }
}

/// The d-neighbourhood of `pattern`, by its recursive definition: for `d == 0`
/// the pattern alone; for a pattern of length one every nucleotide; otherwise
/// each neighbour of the tail, preceded by any nucleotide when it is closer
/// than `d` to the tail, else by the pattern's own first symbol.
pub open spec fn neighborhood(pattern: Seq<u8>, d: nat) -> Set<Seq<u8>>
    decreases pattern.len(),
{
    if d == 0 {
        set![pattern]
    } else if pattern.len() <= 1 {
        set![seq![A], seq![T], seq![G], seq![C]]
    } else {
        let sub = neighborhood(pattern.drop_first(), d);
        Set::new(
            |s: Seq<u8>|
                s.len() >= 1 && sub.contains(s.drop_first()) && head_allowed(pattern, d, s),
        )
    }
}

/// `a` followed by `s`.
fn prepend(a: u8, s: &[u8]) -> (r: Vec<u8>)
    ensures
        r@ == seq![a] + s@,
{
    let mut v: Vec<u8> = Vec::new();
    v.push(a);
    let r = concat(v.as_slice(), s);
    assert(v@ =~= seq![a]);
    r
}

/// All symbol strings within Hamming distance `d` of `text`, each once.
pub fn neighbors(text: &[u8], d: usize) -> (r: Vec<Vec<u8>>)
    requires
        d == 0 || text@.len() >= 1,
    ensures
        vec_views(r@).to_set() == neighborhood(text@, d as nat),
        vec_views(r@).no_duplicates(),
        forall|j: int| 0 <= j < r@.len() ==> (#[trigger] r@[j])@.len() == text@.len(),
    decreases text@.len(),
{
    let mut res: Vec<Vec<u8>> = Vec::new();
    if d == 0 {
        res.push(vstd::slice::slice_to_vec(text));
        assert(vec_views(res@) =~= seq![text@]);
        assert(vec_views(res@).to_set() =~= neighborhood(text@, d as nat)) by {
            assert(vec_views(res@)[0] == text@);
        }
        return res;
    }
    if text.len() == 1 {
        let alpha = alphabet();
        let mut i: usize = 0;
        while i < 4
            invariant
                alpha@ == alphabet_seq(),
                i <= 4,
                vec_views(res@) =~= Seq::new(i as nat, |j: int| seq![alphabet_seq()[j]]),
            decreases 4 - i,
        {
            let mut v: Vec<u8> = Vec::new();
            v.push(alpha[i]);
            let ghost before = vec_views(res@);
            res.push(v);
            assert(vec_views(res@) =~= before.push(seq![alpha@[i as int]]));
            i = i + 1;
        }
        proof {
            let vs = vec_views(res@);
            assert(vs[0] == seq![A] && vs[1] == seq![T] && vs[2] == seq![G] && vs[3] == seq![C]);
            assert(vs.to_set() =~= neighborhood(text@, d as nat)) by {
                assert forall|s: Seq<u8>| vs.to_set().contains(s) implies neighborhood(text@, d as nat).contains(s) by {
                    let j = choose|j: int| 0 <= j < vs.len() && vs[j] == s;
                }
                assert forall|s: Seq<u8>| neighborhood(text@, d as nat).contains(s) implies vs.to_set().contains(s) by {
                    if s == seq![A] { assert(vs[0] == s); }
                    else if s == seq![T] { assert(vs[1] == s); }
                    else if s == seq![G] { assert(vs[2] == s); }
                    else { assert(vs[3] == s); }
                }
            }
            assert(vs.no_duplicates()) by {
                assert forall|a: int, b: int| 0 <= a < vs.len() && 0 <= b < vs.len() && a != b implies vs[a] != vs[b] by {
                    assert(vs[a][0] != vs[b][0]);
                }
            }
        }
        return res;
    }
    let n = text.len();
    let tail = &text[1..n];
    let head = text[0];
    let suffixes = neighbors(tail, d);
    let ghost sub = vec_views(suffixes@);
    let ghost target = neighborhood(text@, d as nat);
    assert(tail@ =~= text@.drop_first());
    let alpha = alphabet();
    let mut si: usize = 0;
    while si < suffixes.len()
        invariant
            n == text@.len(),
            n >= 2,
            d >= 1,
            tail@ == text@.drop_first(),
            head == text@[0],
            alpha@ == alphabet_seq(),
            sub == vec_views(suffixes@),
            sub.to_set() == neighborhood(tail@, d as nat),
            sub.no_duplicates(),
            forall|j: int| 0 <= j < suffixes@.len() ==> (#[trigger] suffixes@[j])@.len() == tail@.len(),
            target == neighborhood(text@, d as nat),
            si <= suffixes@.len(),
            vec_views(res@).no_duplicates(),
            forall|e: int|
                0 <= e < res@.len() ==> (#[trigger] res@[e])@.len() == n && exists|j: int|
                    0 <= j < si && sub[j] == res@[e]@.drop_first(),
            forall|s: Seq<u8>|
                vec_views(res@).contains(s) <==> (s.len() >= 1 && head_allowed(text@, d as nat, s)
                    && exists|j: int| 0 <= j < si && #[trigger] sub[j] == s.drop_first()),
        decreases suffixes@.len() - si,
    {
        let suffix = suffixes[si].as_slice();
        assert(suffix@ == sub[si as int]);
        let ghost old_res = vec_views(res@);
        let ghost old_vecs = res@;
        let ghost old_len: int = res@.len() as int;
        let close = hamming_distance(tail, suffix) < d;
        if close {
            let mut x: usize = 0;
            while x < 4
                invariant
                    n == text@.len(),
                    n >= 2,
                    alpha@ == alphabet_seq(),
                    si < suffixes@.len(),
                    sub.len() == suffixes@.len(),
                    suffix@ == sub[si as int],
                    suffix@.len() == n - 1,
                    old_len <= res@.len(),
                    res@.len() == old_len + x,
                    x <= 4,
                    forall|e: int| 0 <= e < old_len ==> vec_views(res@)[e] == old_res[e],
                    old_vecs.len() == old_len,
                    forall|e: int| 0 <= e < old_len ==> res@[e] == old_vecs[e],
                    forall|e: int| 0 <= e < x ==> vec_views(res@)[old_len + e] == seq![alphabet_seq()[e]] + suffix@,
                decreases 4 - x,
            {
                let v = prepend(alpha[x], suffix);
                let ghost before = vec_views(res@);
                res.push(v);
                assert(vec_views(res@) =~= before.push(v@));
                assert forall|e: int| 0 <= e < x + 1 implies vec_views(res@)[old_len + e] == seq![alphabet_seq()[e]] + suffix@ by {
                    if e < x {
                        assert(vec_views(res@)[old_len + e] == before[old_len + e]);
                    } else {
                        assert(vec_views(res@)[old_len + x] == v@);
                    }
                }
                x = x + 1;
            }
        } else {
            let v = prepend(head, suffix);
            res.push(v);
        }
        proof {
            let vs = vec_views(res@);
            assert(vs.subrange(0, old_len) =~= old_res);
            assert forall|e: int|
                0 <= e < res@.len() implies (#[trigger] res@[e])@.len() == n && exists|j: int|
                    0 <= j < si + 1 && sub[j] == res@[e]@.drop_first() by {
                if e >= old_len {
                    assert(vs[e] == res@[e]@);
                    assert(res@[e]@.drop_first() =~= sub[si as int]);
                } else {
                    assert(vs[e] == old_res[e]);
                }
            }
            assert forall|s: Seq<u8>|
                vs.contains(s) <==> (s.len() >= 1 && head_allowed(text@, d as nat, s)
                    && exists|j: int| 0 <= j < si + 1 && #[trigger] sub[j] == s.drop_first()) by {
                if vs.contains(s) {
                    let e = choose|e: int| 0 <= e < vs.len() && vs[e] == s;
                    if e < old_len {
                        assert(old_res[e] == s);
                        assert(old_res.contains(s));
                        let j = choose|j: int| 0 <= j < si && #[trigger] sub[j] == s.drop_first();
                        assert(sub[j] == s.drop_first());
                    } else {
                        assert(s.drop_first() =~= sub[si as int]);
                        assert(sub[si as int] == s.drop_first());
                        assert(hamming(text@.drop_first(), s.drop_first()) == hamming(tail@, suffix@));
                    }
                }
                if s.len() >= 1 && head_allowed(text@, d as nat, s) && exists|j: int|
                    0 <= j < si + 1 && #[trigger] sub[j] == s.drop_first() {
                    let j = choose|j: int| 0 <= j < si + 1 && #[trigger] sub[j] == s.drop_first();
                    if j < si {
                        assert(old_res.contains(s));
                        let e = choose|e: int| 0 <= e < old_res.len() && old_res[e] == s;
                        assert(vs[e] == s);
                    } else {
                        assert(s =~= seq![s[0]] + suffix@);
                        assert(hamming(text@.drop_first(), s.drop_first()) == hamming(tail@, suffix@));
                        if close {
                            if s[0] == A {
                                assert(vs[old_len] == s);
                            } else if s[0] == T {
                                assert(vs[old_len + 1] == s);
                            } else if s[0] == G {
                                assert(vs[old_len + 2] == s);
                            } else {
                                assert(vs[old_len + 3] == s);
                            }
                        } else {
                            assert(vs[old_len] == s);
                        }
                    }
                }
            }
            assert forall|a: int, b: int| 0 <= a < vs.len() && 0 <= b < vs.len() && a != b implies vs[a] != vs[b] by {
                if a >= old_len && b >= old_len {
                    assert(vs[a][0] != vs[b][0]);
                } else if a < old_len && b < old_len {
                    assert(old_res[a] != old_res[b]);
                } else {
                    let (o, w) = if a < old_len { (a, b) } else { (b, a) };
                    assert(res@[o] == old_vecs[o]);
                    assert(old_vecs[o]@.len() == n && exists|j: int|
                        0 <= j < si && sub[j] == old_vecs[o]@.drop_first());
                    let j = choose|j: int| 0 <= j < si && sub[j] == old_vecs[o]@.drop_first();
                    assert(res@[w]@.drop_first() =~= sub[si as int]);
                    assert(sub[j] != sub[si as int]);
                    assert(vs[o] == res@[o]@);
                    assert(vs[w] == res@[w]@);
                }
            }
        }
        si = si + 1;
    }
    proof {
        let vs = vec_views(res@);
        assert(vs.to_set() =~= target) by {
            assert forall|s: Seq<u8>| vs.to_set().contains(s) <==> target.contains(s) by {
                if target.contains(s) {
                    assert(sub.to_set().contains(s.drop_first()));
                    let j = choose|j: int| 0 <= j < sub.len() && sub[j] == s.drop_first();
                    assert(sub[j] == s.drop_first());
                }
                if vs.contains(s) {
                    let j = choose|j: int| 0 <= j < si && #[trigger] sub[j] == s.drop_first();
                    assert(sub.contains(sub[j]));
                }
            }
        }
    }
    res
}

/// `p` lies within Hamming distance `d` of some window of `s`.
pub open spec fn approx_occurs(s: Seq<u8>, p: Seq<u8>, d: nat) -> bool {
    exists|i: int|
        0 <= i < num_windows(s.len() as int, p.len() as int) && #[trigger] hamming(
            window(s, i, p.len() as int),
            p,
        ) <= d
}

/// `p` occurs in every string of `seqs` with at most `d` mismatches.
pub open spec fn is_kd_motif(seqs: Seq<Seq<u8>>, p: Seq<u8>, d: nat) -> bool {
    forall|j: int| 0 <= j < seqs.len() ==> approx_occurs(#[trigger] seqs[j], p, d)
}

/// `p` is in the d-neighbourhood of one of the first `n` k-mers of `s`.
pub open spec fn near_kmer_upto(s: Seq<u8>, k: int, d: nat, p: Seq<u8>, n: int) -> bool {
    exists|i: int| 0 <= i < n && #[trigger] neighborhood(window(s, i, k), d).contains(p)
}

/// The (k, d)-motifs of `seqs`: the strings in the d-neighbourhood of a k-mer of
/// the first string that occur in every string with at most `d` mismatches.
pub open spec fn motif_set(seqs: Seq<Seq<u8>>, k: nat, d: nat) -> Set<Seq<u8>> {
    Set::new(
        |p: Seq<u8>|
            near_kmer_upto(seqs[0], k as int, d, p, num_windows(seqs[0].len() as int, k as int))
                && is_kd_motif(seqs, p, d),
    )
}

/// Whether `pattern` lies within distance `d` of a window of `text`.
fn occurs_within(text: &[u8], pattern: &[u8], d: usize) -> (r: bool)
    requires
        1 <= pattern@.len(),
    ensures
        r == approx_occurs(text@, pattern@, d as nat),
{
    let k = pattern.len();
    let tl = text.len();
    if tl < k {
        return false;
    }
    let n = tl - k + 1;
    let mut i: usize = 0;
    while i < n
        invariant
            tl == text@.len(),
            k == pattern@.len(),
            1 <= k <= tl,
            n == num_windows(tl as int, k as int),
            i <= n,
            forall|l: int| 0 <= l < i ==> #[trigger] hamming(window(text@, l, k as int), pattern@) > d,
        decreases n - i,
    {
        let w = &text[i..i + k];
        assert(w@ == window(text@, i as int, k as int));
        if hamming_distance(w, pattern) <= d {
            return true;
        }
        i = i + 1;
    }
    false
}

/// Whether `pattern` lies within distance `d` of a window of every string of `dnas`.
fn occurs_in_all(dnas: &[Dna], pattern: &[u8], d: usize) -> (r: bool)
    requires
        1 <= pattern@.len(),
    ensures
        r == is_kd_motif(views(dnas@), pattern@, d as nat),
{
    let mut j: usize = 0;
    while j < dnas.len()
        invariant
            1 <= pattern@.len(),
            j <= dnas@.len(),
            forall|l: int| 0 <= l < j ==> approx_occurs(#[trigger] views(dnas@)[l], pattern@, d as nat),
        decreases dnas@.len() - j,
    {
        assert(views(dnas@)[j as int] == dnas@[j as int]@);
        if !occurs_within(dnas[j].as_slice(), pattern, d) {
            return false;
        }
        j = j + 1;
    }
    true
}

/// Whether one of `v` holds the symbols `x`.
fn contains_dna(v: &Vec<Dna>, x: &[u8]) -> (r: bool)
    ensures
        r == views(v@).contains(x@),
{
    let mut i: usize = 0;
    while i < v.len()
        invariant
            i <= v@.len(),
            forall|l: int| 0 <= l < i ==> (#[trigger] views(v@)[l]) != x@,
        decreases v@.len() - i,
    {
        assert(views(v@)[i as int] == v@[i as int]@);
        if slices_equal(v[i].as_slice(), x) {
            assert(views(v@)[i as int] == x@);
            return true;
        }
        i = i + 1;
    }
    false
}

proof fn lemma_push_contains(v: Seq<Seq<u8>>, x: Seq<u8>, p: Seq<u8>)
    ensures
        v.push(x).contains(p) <==> (v.contains(p) || x == p),
{
    if v.push(x).contains(p) {
        let e = choose|e: int| 0 <= e < v.push(x).len() && v.push(x)[e] == p;
        if e < v.len() {
            assert(v[e] == p);
        }
    }
    if v.contains(p) {
        let e = choose|e: int| 0 <= e < v.len() && v[e] == p;
        assert(v.push(x)[e] == p);
    }
    if x == p {
        assert(v.push(x)[v.len() as int] == p);
    }
}

proof fn lemma_prefix_contains_step(v: Seq<Seq<u8>>, c: int, p: Seq<u8>)
    requires
        0 <= c < v.len(),
    ensures
        v.subrange(0, c + 1).contains(p) <==> (v.subrange(0, c).contains(p) || v[c] == p),
{
    assert(v.subrange(0, c + 1) =~= v.subrange(0, c).push(v[c]));
    lemma_push_contains(v.subrange(0, c), v[c], p);
}

proof fn lemma_near_step(s: Seq<u8>, k: int, d: nat, p: Seq<u8>, i: int)
    requires
        0 <= i,
    ensures
        near_kmer_upto(s, k, d, p, i + 1) <==> (near_kmer_upto(s, k, d, p, i) || neighborhood(
            window(s, i, k),
            d,
        ).contains(p)),
{
    if near_kmer_upto(s, k, d, p, i + 1) {
        let j = choose|j: int| 0 <= j < i + 1 && #[trigger] neighborhood(window(s, j, k), d).contains(p);
        if j < i {
            assert(near_kmer_upto(s, k, d, p, i));
        }
    }
    if near_kmer_upto(s, k, d, p, i) {
        let j = choose|j: int| 0 <= j < i && #[trigger] neighborhood(window(s, j, k), d).contains(p);
        assert(near_kmer_upto(s, k, d, p, i + 1));
    }
    if neighborhood(window(s, i, k), d).contains(p) {
        assert(near_kmer_upto(s, k, d, p, i + 1));
    }
}

/// All (k, d)-motifs of `dnas`, each once: the k-mers that occur in every
/// string of `dnas` with at most `d` mismatches, among the d-neighbours of the
/// k-mers of the first string.
pub fn motif_enumeration(dnas: &[Dna], k: usize, d: usize) -> (r: Result<Vec<Dna>, MotifError>)
    ensures
        r is Ok <==> exhaustive_input_error(views(dnas@), k as nat) is None,
        r matches Err(e) ==> exhaustive_input_error(views(dnas@), k as nat) == Some(e),
        r matches Ok(ms) ==> views(ms@).to_set() == motif_set(views(dnas@), k as nat, d as nat)
            && views(ms@).no_duplicates(),
{
    match check_lengths(dnas, k) {
        Err(e) => {
            return Err(e);
        },
        Ok(()) => {},
    }
    let ghost seqs = views(dnas@);
    let dna0 = dnas[0].as_slice();
    assert(dna0@ == seqs[0]);
    let tl = dna0.len();
    let n = tl - k + 1;
    let mut motifs: Vec<Dna> = Vec::new();
    let mut i: usize = 0;
    while i < n
        invariant
            seqs == views(dnas@),
            dnas@.len() > 0,
            dna0@ == seqs[0],
            tl == dna0@.len(),
            1 <= k <= dna0@.len(),
            n == num_windows(dna0@.len() as int, k as int),
            i <= n,
            views(motifs@).no_duplicates(),
            forall|p: Seq<u8>|
                #[trigger] views(motifs@).contains(p) <==> (near_kmer_upto(seqs[0], k as int, d as nat, p, i as int)
                    && is_kd_motif(seqs, p, d as nat)),
        decreases n - i,
    {
        let kmer = &dna0[i..i + k];
        assert(kmer@ == window(seqs[0], i as int, k as int));
        let cands = neighbors(kmer, d);
        let ghost cv = vec_views(cands@);
        let mut c: usize = 0;
        while c < cands.len()
            invariant
                seqs == views(dnas@),
                dnas@.len() > 0,
                1 <= k,
                i < n,
                kmer@ == window(seqs[0], i as int, k as int),
                kmer@.len() == k,
                cv == vec_views(cands@),
                cv.to_set() == neighborhood(kmer@, d as nat),
                forall|j: int| 0 <= j < cands@.len() ==> (#[trigger] cands@[j])@.len() == k,
                c <= cands@.len(),
                views(motifs@).no_duplicates(),
                forall|p: Seq<u8>|
                    #[trigger] views(motifs@).contains(p) <==> ((near_kmer_upto(seqs[0], k as int, d as nat, p, i as int)
                        || cv.subrange(0, c as int).contains(p)) && is_kd_motif(seqs, p, d as nat)),
            decreases cands@.len() - c,
        {
            let cand = cands[c].as_slice();
            assert(cand@ == cv[c as int]);
            let ghost before = views(motifs@);
            let add = occurs_in_all(dnas, cand, d) && !contains_dna(&motifs, cand);
            if add {
                motifs.push(Dna::from_slice(cand));
                proof {
                    assert(views(motifs@) =~= before.push(cand@));
                    assert forall|a: int, b: int|
                        0 <= a < views(motifs@).len() && 0 <= b < views(motifs@).len() && a != b
                        implies views(motifs@)[a] != views(motifs@)[b] by {
                        if a < before.len() && b < before.len() {
                        } else if a < before.len() {
                            assert(before.contains(views(motifs@)[a]));
                        } else {
                            assert(before.contains(views(motifs@)[b]));
                        }
                    }
                }
            }
            proof {
                assert forall|p: Seq<u8>|
                    #[trigger] views(motifs@).contains(p) <==> ((near_kmer_upto(seqs[0], k as int, d as nat, p, i as int)
                        || cv.subrange(0, c + 1).contains(p)) && is_kd_motif(seqs, p, d as nat)) by {
                    lemma_prefix_contains_step(cv, c as int, p);
                    lemma_push_contains(before, cand@, p);
                    assert(before.contains(p) <==> ((near_kmer_upto(seqs[0], k as int, d as nat, p, i as int)
                        || cv.subrange(0, c as int).contains(p)) && is_kd_motif(seqs, p, d as nat)));
                }
            }
            c = c + 1;
        }
        proof {
            assert(cv.subrange(0, cands@.len() as int) =~= cv);
            assert forall|p: Seq<u8>|
                #[trigger] views(motifs@).contains(p) <==> (near_kmer_upto(seqs[0], k as int, d as nat, p, i + 1)
                    && is_kd_motif(seqs, p, d as nat)) by {
                lemma_near_step(seqs[0], k as int, d as nat, p, i as int);
                assert(cv.contains(p) <==> cv.to_set().contains(p));
            }
        }
        i = i + 1;
    }
    proof {
        assert forall|p: Seq<u8>| #[trigger] views(motifs@).to_set().contains(p) <==> motif_set(seqs, k as nat, d as nat).contains(p) by {
            assert(views(motifs@).contains(p) == views(motifs@).to_set().contains(p));
        }
        assert(views(motifs@).to_set() =~= motif_set(seqs, k as nat, d as nat));
    }
    Ok(motifs)
}

proof fn lemma_total_distance_prefix(s: Seq<Seq<u8>>, t: Seq<Seq<u8>>, p: Seq<u8>, n: int)
    requires
        0 <= n <= s.len(),
        n <= t.len(),
        forall|i: int| 0 <= i < n ==> s[i] == t[i],
    ensures
        total_distance_upto(s, p, n) == total_distance_upto(t, p, n),
    decreases n,
{
    if n > 0 {
        lemma_total_distance_prefix(s, t, p, n - 1);
    }
}

proof fn lemma_total_distance_remove(s: Seq<Seq<u8>>, p: Seq<u8>, i: int)
    requires
        0 <= i < s.len(),
    ensures
        total_distance(s, p) == total_distance(s.remove(i), p) + min_distance(p, s[i]),
    decreases s.len(),
{
    let n = s.len() as int;
    lemma_total_distance_prefix(s, s.drop_last(), p, n - 1);
    if i == n - 1 {
        assert(s.remove(i) =~= s.drop_last());
    } else {
        lemma_total_distance_remove(s.drop_last(), p, i);
        assert(s.remove(i).drop_last() =~= s.drop_last().remove(i));
        lemma_total_distance_prefix(s.remove(i), s.remove(i).drop_last(), p, n - 2);
        assert(s.remove(i)[n - 2] == s[n - 1]);
    }
}

/// The distance of a pattern to a collection of strings does not depend on
/// the order of the strings.
pub proof fn lemma_total_distance_order(a: Seq<Seq<u8>>, b: Seq<Seq<u8>>, p: Seq<u8>)
    requires
        a.to_multiset() == b.to_multiset(),
    ensures
        total_distance(a, p) == total_distance(b, p),
    decreases a.len(),
{
    broadcast use vstd::seq_lib::group_to_multiset_ensures;

    if a.len() == 0 {
        assert(b.to_multiset().len() == 0);
    } else {
        let x = a.last();
        assert(a.drop_last().push(x) =~= a);
        assert(a.to_multiset().count(x) > 0) by {
            assert(a.contains(x)) by {
                assert(a[a.len() - 1] == x);
            }
        }
        assert(b.contains(x));
        let j = choose|j: int| 0 <= j < b.len() && b[j] == x;
        assert(b.remove(j).to_multiset() =~= a.drop_last().to_multiset()) by {
            assert(a.drop_last().push(x).to_multiset() =~= a.drop_last().to_multiset().insert(x));
        }
        lemma_total_distance_order(a.drop_last(), b.remove(j), p);
        lemma_total_distance_remove(a, p, a.len() - 1);
        assert(a.remove(a.len() - 1) =~= a.drop_last());
        lemma_total_distance_remove(b, p, j);
    }
}

proof fn lemma_median_index_same(a: Seq<Seq<u8>>, b: Seq<Seq<u8>>, k: nat, n: int)
    requires
        forall|p: Seq<u8>| total_distance(a, p) == #[trigger] total_distance(b, p),
    ensures
        median_index_upto(a, k, n) == median_index_upto(b, k, n),
    decreases n,
{
    if n > 1 {
        lemma_median_index_same(a, b, k, n - 1);
    }
}

/// The median string of a collection of strings does not depend on the order
/// of the strings.
pub proof fn lemma_median_order_invariant(a: Seq<Seq<u8>>, b: Seq<Seq<u8>>, k: nat)
    requires
        a.to_multiset() == b.to_multiset(),
    ensures
        median_spec(a, k) == median_spec(b, k),
{
    assert forall|p: Seq<u8>| total_distance(a, p) == #[trigger] total_distance(b, p) by {
        lemma_total_distance_order(a, b, p);
    }
    lemma_median_index_same(a, b, k, pow(4, k));
}

proof fn lemma_mismatches_front(xs: Seq<u8>, ys: Seq<u8>, n: int)
    requires
        1 <= n <= xs.len(),
        n <= ys.len(),
    ensures
        mismatches(xs, ys, n) == mismatches(xs.drop_first(), ys.drop_first(), n - 1) + if xs[0] == ys[0] {
            0nat
        } else {
            1nat
        },
    decreases n,
{
    let (a, b) = (xs.drop_first(), ys.drop_first());
    if n > 1 {
        lemma_mismatches_front(xs, ys, n - 1);
        assert(a[n - 2] == xs[n - 1] && b[n - 2] == ys[n - 1]);
        assert(mismatches(a, b, n - 1) == mismatches(a, b, n - 2) + if a[n - 2] == b[n - 2] {
            0nat
        } else {
            1nat
        });
    } else {
        assert(mismatches(a, b, 0) == 0);
        assert(mismatches(xs, ys, 0) == 0);
    }
}

/// Hamming distance splits into the first position and the rest.
proof fn lemma_hamming_front(xs: Seq<u8>, ys: Seq<u8>)
    requires
        xs.len() == ys.len(),
        xs.len() >= 1,
    ensures
        hamming(xs, ys) == hamming(xs.drop_first(), ys.drop_first()) + if xs[0] == ys[0] {
            0nat
        } else {
            1nat
        },
{
    lemma_mismatches_front(xs, ys, xs.len() as int);
}

/// The d-neighbourhood of a DNA pattern is the set of DNA strings of its
/// length within Hamming distance `d` of it.
pub proof fn lemma_neighborhood_is_ball(p: Seq<u8>, d: nat, s: Seq<u8>)
    requires
        is_dna(p),
        p.len() >= 1,
    ensures
        neighborhood(p, d).contains(s) <==> (s.len() == p.len() && is_dna(s) && hamming(p, s) <= d),
    decreases p.len(),
{
    if d == 0 {
        if s.len() == p.len() && hamming(p, s) == 0 {
            crate::seq::lemma_hamming_zero_iff_equal(p, s);
        }
        if s == p {
            crate::seq::lemma_hamming_self(p);
        }
    } else if p.len() == 1 {
        if s.len() == 1 && is_dna(s) {
            assert(is_nuc(s[0]));
            if s[0] == A {
                assert(s =~= seq![A]);
            } else if s[0] == T {
                assert(s =~= seq![T]);
            } else if s[0] == G {
                assert(s =~= seq![G]);
            } else {
                assert(s =~= seq![C]);
            }
        }
        if neighborhood(p, d).contains(s) {
            assert(s.len() == 1 && is_nuc(s[0]));
            crate::seq::lemma_mismatches_bound(p, s, 1);
        }
    } else {
        let tail = p.drop_first();
        assert forall|i: int| 0 <= i < tail.len() implies is_nuc(#[trigger] tail[i]) by {
            assert(tail[i] == p[i + 1]);
        }
        assert(is_nuc(p[0]));
        if s.len() >= 1 {
            lemma_neighborhood_is_ball(tail, d, s.drop_first());
            if s.len() == p.len() {
                lemma_hamming_front(p, s);
            }
            if is_dna(s) {
                assert(is_nuc(s[0]));
                assert forall|i: int| 0 <= i < s.drop_first().len() implies is_nuc(#[trigger] s.drop_first()[i]) by {
                    assert(s.drop_first()[i] == s[i + 1]);
                }
            }
            if is_dna(s.drop_first()) && (is_nuc(s[0])) {
                assert forall|i: int| 0 <= i < s.len() implies is_nuc(#[trigger] s[i]) by {
                    if i > 0 {
                        assert(s[i] == s.drop_first()[i - 1]);
                    }
                }
            }
        }
    }
}

/// The k-mers of DNA strings are DNA strings.
proof fn lemma_window_is_dna(s: Seq<u8>, i: int, k: int)
    requires
        is_dna(s),
        0 <= i,
        0 <= k,
        i + k <= s.len(),
    ensures
        is_dna(window(s, i, k)),
{
    assert forall|j: int| 0 <= j < k implies is_nuc(#[trigger] window(s, i, k)[j]) by {
        assert(window(s, i, k)[j] == s[i + j]);
    }
}

/// For DNA strings, the (k, d)-motifs are exactly the DNA strings of length
/// `k` that occur in every string with at most `d` mismatches.
pub proof fn lemma_motif_set_is_kd_motifs(seqs: Seq<Seq<u8>>, k: nat, d: nat)
    requires
        seqs.len() >= 1,
        k >= 1,
        all_at_least(seqs, k),
        forall|m: int| 0 <= m < seqs.len() ==> is_dna(#[trigger] seqs[m]),
    ensures
        motif_set(seqs, k, d) == Set::new(
            |p: Seq<u8>| p.len() == k && is_dna(p) && is_kd_motif(seqs, p, d),
        ),
{
    let s0 = seqs[0];
    assert(is_dna(s0));
    assert(s0.len() >= k);
    let target = Set::new(|p: Seq<u8>| p.len() == k && is_dna(p) && is_kd_motif(seqs, p, d));
    assert forall|p: Seq<u8>| motif_set(seqs, k, d).contains(p) <==> target.contains(p) by {
        if motif_set(seqs, k, d).contains(p) {
            let i = choose|i: int|
                0 <= i < num_windows(s0.len() as int, k as int) && #[trigger] neighborhood(window(s0, i, k as int), d).contains(p);
            lemma_window_is_dna(s0, i, k as int);
            lemma_neighborhood_is_ball(window(s0, i, k as int), d, p);
        }
        if target.contains(p) {
            assert(approx_occurs(seqs[0], p, d));
            let i = choose|i: int|
                0 <= i < num_windows(s0.len() as int, p.len() as int) && #[trigger] hamming(window(s0, i, p.len() as int), p) <= d;
            lemma_window_is_dna(s0, i, k as int);
            lemma_neighborhood_is_ball(window(s0, i, k as int), d, p);
            assert(neighborhood(window(s0, i, k as int), d).contains(p));
            assert(near_kmer_upto(s0, k as int, d, p, num_windows(s0.len() as int, k as int)));
        }
    }
    assert(motif_set(seqs, k, d) =~= target);
}

} // verus!
