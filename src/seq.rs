//! Algorithms on sequences of symbols.
use vstd::arithmetic::div_mod::lemma_fundamental_div_mod_converse;
use vstd::arithmetic::power::pow;
use vstd::prelude::*;
use vstd::slice::slice_to_vec;

verus! {

/// Number of positions below `n` at which `xs` and `ys` differ.
pub open spec fn mismatches<T>(xs: Seq<T>, ys: Seq<T>, n: int) -> nat
    decreases n,
{
    if n <= 0 {
        0
    } else {
        mismatches(xs, ys, n - 1) + if xs[n - 1] == ys[n - 1] {
            0nat
        } else {
            1nat
        }
    }
}

/// Hamming distance of two sequences of equal length.
pub open spec fn hamming<T>(xs: Seq<T>, ys: Seq<T>) -> nat {
    mismatches(xs, ys, xs.len() as int)
}

/// The window of length `k` that starts at `i`.
pub open spec fn window<T>(s: Seq<T>, i: int, k: int) -> Seq<T> {
    s.subrange(i, i + k)
}

/// Number of windows of length `k` in a sequence of length `len`.
pub open spec fn num_windows(len: int, k: int) -> int {
    if len < k {
        0
    } else {
        len - k + 1
    }
}

pub proof fn lemma_mismatches_bound<T>(xs: Seq<T>, ys: Seq<T>, n: int)
    requires
        0 <= n,
    ensures
        mismatches(xs, ys, n) <= n,
    decreases n,
{
    if n > 0 {
        lemma_mismatches_bound(xs, ys, n - 1);
    }
}

/// Sequences that agree on their first `n` positions have no mismatch there.
pub proof fn lemma_mismatches_zero<T>(xs: Seq<T>, ys: Seq<T>, n: int)
    requires
        0 <= n <= xs.len(),
        n <= ys.len(),
    ensures
        mismatches(xs, ys, n) == 0 <==> (forall|i: int| 0 <= i < n ==> xs[i] == ys[i]),
    decreases n,
{
    if n > 0 {
        lemma_mismatches_zero(xs, ys, n - 1);
        if mismatches(xs, ys, n) == 0 {
            assert forall|i: int| 0 <= i < n implies xs[i] == ys[i] by {
                if i < n - 1 {
                } else {
                }
            }
        }
    }
}

/// Two sequences of one length are at distance zero exactly when they are equal.
pub proof fn lemma_hamming_zero_iff_equal<T>(xs: Seq<T>, ys: Seq<T>)
    requires
        xs.len() == ys.len(),
    ensures
        hamming(xs, ys) == 0 <==> xs == ys,
{
    lemma_mismatches_zero(xs, ys, xs.len() as int);
    if hamming(xs, ys) == 0 {
        assert(xs =~= ys);
    }
}

/// Every sequence is at distance zero from itself.
pub proof fn lemma_hamming_self<T>(x: Seq<T>)
    ensures
        hamming(x, x) == 0,
{
    lemma_hamming_zero_iff_equal(x, x);
}

/// Compute the Hamming distance between two slices of equal length.
pub fn hamming_distance(xs: &[u8], ys: &[u8]) -> (r: usize)
    requires
        xs@.len() == ys@.len(),
    ensures
        r == hamming(xs@, ys@),
{
    let mut acc: usize = 0;
    let mut i: usize = 0;
    while i < xs.len()
        invariant
            i <= xs@.len(),
            xs@.len() == ys@.len(),
            acc == mismatches(xs@, ys@, i as int),
        decreases xs@.len() - i,
    {
        proof {
            lemma_mismatches_bound(xs@, ys@, i as int);
        }
        if xs[i] != ys[i] {
            acc = acc + 1;
        }
        i = i + 1;
    }
    acc
}

/// Whether two slices hold the same symbols.
pub fn slices_equal(a: &[u8], b: &[u8]) -> (r: bool)
    ensures
        r == (a@ == b@),
{
    if a.len() != b.len() {
        return false;
    }
    let mut i: usize = 0;
    while i < a.len()
        invariant
            i <= a@.len(),
            a@.len() == b@.len(),
            forall|j: int| 0 <= j < i ==> a@[j] == b@[j],
        decreases a@.len() - i,
    {
        if a[i] != b[i] {
            return false;
        }
        i = i + 1;
    }
    assert(a@ =~= b@);
    true
}

/// Fuzzy search of `pattern` in `text` by the predicate `compare`, called on
/// each window of `text` of the pattern's length, left to right.
/// Returns the start indices of the accepted windows and the windows themselves.
pub fn find_by<'a, 'b, T, F>(text: &'a [T], pattern: &'b [T], compare: F) -> (r: (
    Vec<usize>,
    Vec<&'a [T]>,
)) where F: Fn(&[T], &[T]) -> bool
    requires
        pattern@.len() > 0,
        forall|x: &[T], y: &[T]| #[trigger] compare.requires((x, y)),
    ensures
        r.0@.len() == r.1@.len(),
        forall|j: int|
            0 <= j < r.0@.len() ==> (r.0@[j] as int) < num_windows(
                text@.len() as int,
                pattern@.len() as int,
            ),
        forall|j: int, l: int| 0 <= j < l < r.0@.len() ==> r.0@[j] < r.0@[l],
        forall|j: int|
            #![trigger r.1@[j]]
            0 <= j < r.0@.len() ==> r.1@[j]@ == window(
                text@,
                r.0@[j] as int,
                pattern@.len() as int,
            ) && compare.ensures((r.1@[j], pattern), true),
        forall|i: int|
            0 <= i < num_windows(text@.len() as int, pattern@.len() as int) && !#[trigger] r.0@.contains(
                i as usize,
            ) ==> exists|s: &[T]|
                s@ == window(text@, i, pattern@.len() as int) && #[trigger] compare.ensures(
                    (s, pattern),
                    false,
                ),
{
    let k = pattern.len();
    let mut inds: Vec<usize> = Vec::new();
    let mut chunks: Vec<&'a [T]> = Vec::new();
    if text.len() < k {
        return (inds, chunks);
    }
    let tl = text.len();
    let n = tl - k + 1;
    let mut i: usize = 0;
    while i < n
        invariant
            tl == text@.len(),
            n == num_windows(text@.len() as int, k as int),
            text@.len() >= k,
            k == pattern@.len(),
            k > 0,
            i <= n,
            forall|x: &[T], y: &[T]| #[trigger] compare.requires((x, y)),
            inds@.len() == chunks@.len(),
            forall|j: int| 0 <= j < inds@.len() ==> inds@[j] < i,
            forall|j: int, l: int| 0 <= j < l < inds@.len() ==> inds@[j] < inds@[l],
            forall|j: int|
                #![trigger chunks@[j]]
                0 <= j < inds@.len() ==> chunks@[j]@ == window(
                    text@,
                    inds@[j] as int,
                    k as int,
                ) && compare.ensures((chunks@[j], pattern), true),
            forall|l: int|
                0 <= l < i && !#[trigger] inds@.contains(l as usize) ==> exists|s: &[T]|
                    s@ == window(text@, l, k as int) && #[trigger] compare.ensures(
                        (s, pattern),
                        false,
                    ),
        decreases n - i,
    {
        let chunk = &text[i..i + k];
        assert(chunk@ == window(text@, i as int, k as int));
        let ok = compare(chunk, pattern);
        let ghost old_inds = inds@;
        if ok {
            inds.push(i);
            chunks.push(chunk);
            assert forall|l: int|
                0 <= l < i + 1 && !#[trigger] inds@.contains(l as usize) implies exists|s: &[T]|
                s@ == window(text@, l, k as int) && #[trigger] compare.ensures(
                    (s, pattern),
                    false,
                ) by {
                assert(inds@[inds@.len() - 1] == i);
                if l < i {
                    assert(!old_inds.contains(l as usize)) by {
                        if old_inds.contains(l as usize) {
                            let w = choose|w: int| 0 <= w < old_inds.len() && old_inds[w] == l;
                            assert(inds@[w] == l);
                        }
                    }
                }
            }
        } else {
            assert forall|l: int|
                0 <= l < i + 1 && !#[trigger] inds@.contains(l as usize) implies exists|s: &[T]|
                s@ == window(text@, l, k as int) && #[trigger] compare.ensures(
                    (s, pattern),
                    false,
                ) by {
                if l == i {
                    assert(chunk@ == window(text@, l, k as int));
                    assert(compare.ensures((chunk, pattern), false));
                }
            }
        }
        i = i + 1;
    }
    (inds, chunks)
}

/// Search for exact occurrences of `pattern` in `text`: the start index of
/// every window that equals the pattern, left to right, overlaps included.
pub fn find(text: &[u8], pattern: &[u8]) -> (r: Vec<usize>)
    requires
        pattern@.len() > 0,
    ensures
        forall|j: int, l: int| 0 <= j < l < r@.len() ==> r@[j] < r@[l],
        forall|i: int|
            0 <= i < num_windows(text@.len() as int, pattern@.len() as int) ==> (r@.contains(
                i as usize,
            ) <==> window(text@, i, pattern@.len() as int) == pattern@),
        forall|j: int|
            0 <= j < r@.len() ==> (r@[j] as int) < num_windows(
                text@.len() as int,
                pattern@.len() as int,
            ),
{
    let text_len = text.len();
    let (inds, chunks) = find_by(text, pattern, slices_equal);
    proof {
        assert forall|i: int|
            0 <= i < num_windows(text@.len() as int, pattern@.len() as int) implies (inds@.contains(
                i as usize,
            ) <==> window(text@, i, pattern@.len() as int) == pattern@) by {
            if inds@.contains(i as usize) {
                let w = choose|w: int| 0 <= w < inds@.len() && inds@[w] == i as usize;
                assert(inds@[w] as int == i);
                assert(chunks@[w]@ == window(text@, i, pattern@.len() as int));
            }
        }
    }
    inds
}

/// Index sets of the minimum elements of `xs`, in increasing order.
pub fn min_indices(xs: &[i64]) -> (r: Vec<usize>)
    ensures
        forall|j: int, l: int| 0 <= j < l < r@.len() ==> r@[j] < r@[l],
        forall|j: int| 0 <= j < r@.len() ==> (r@[j] as int) < xs@.len(),
        forall|i: int|
            0 <= i < xs@.len() ==> (#[trigger] r@.contains(i as usize) <==> forall|l: int|
                0 <= l < xs@.len() ==> xs@[i] <= xs@[l]),
{
    let mut inds: Vec<usize> = Vec::new();
    if xs.len() == 0 {
        return inds;
    }
    let mut min = xs[0];
    inds.push(0);
    assert(inds@[0] == 0);
    let mut i: usize = 1;
    while i < xs.len()
        invariant
            1 <= i <= xs@.len(),
            exists|l: int| 0 <= l < i && xs@[l] == min,
            forall|l: int| 0 <= l < i ==> min <= xs@[l],
            forall|j: int, l: int| 0 <= j < l < inds@.len() ==> inds@[j] < inds@[l],
            forall|j: int| 0 <= j < inds@.len() ==> inds@[j] < i,
            forall|l: int| 0 <= l < i ==> (inds@.contains(l as usize) <==> xs@[l] == min),
        decreases xs@.len() - i,
    {
        let x = xs[i];
        if x < min {
            inds.clear();
            inds.push(i);
            min = x;
            assert forall|l: int| 0 <= l < i + 1 implies (inds@.contains(l as usize) <==> xs@[l]
                == min) by {
                if l == i {
                    assert(inds@[0] == i);
                }
            }
        } else if x == min {
            let ghost old_inds = inds@;
            inds.push(i);
            assert forall|l: int| 0 <= l < i + 1 implies (inds@.contains(l as usize) <==> xs@[l]
                == min) by {
                if l == i {
                    assert(inds@[inds@.len() - 1] == i);
                } else if old_inds.contains(l as usize) {
                    let w = choose|w: int| 0 <= w < old_inds.len() && old_inds[w] == l;
                    assert(inds@[w] == l);
                } else if inds@.contains(l as usize) {
                    let w = choose|w: int| 0 <= w < inds@.len() && inds@[w] == l;
                    assert(w < old_inds.len());
                    assert(old_inds[w] == l);
                }
            }
        }
        i = i + 1;
    }
    inds
}

/// Concatenation of two slices.
pub fn concat(xs: &[u8], ys: &[u8]) -> (r: Vec<u8>)
    ensures
        r@ == xs@ + ys@,
{
    let mut v = slice_to_vec(xs);
    let mut i: usize = 0;
    while i < ys.len()
        invariant
            i <= ys@.len(),
            v@ == xs@ + ys@.subrange(0, i as int),
        decreases ys@.len() - i,
    {
        v.push(ys[i]);
        i = i + 1;
        assert(v@ =~= xs@ + ys@.subrange(0, i as int));
    }
    assert(ys@.subrange(0, ys@.len() as int) =~= ys@);
    v
}

/// The tuple of length `n` with number `j` among all tuples over `xs`: the
/// digits of `j` in base `xs.len()`, most significant first, read as symbols.
pub open spec fn tuple_at(xs: Seq<u8>, n: nat, j: int) -> Seq<u8>
    decreases n,
{
    if n == 0 {
        seq![]
    } else {
        tuple_at(xs, (n - 1) as nat, j / xs.len() as int).push(xs[j % xs.len() as int])
    }
}

pub proof fn lemma_tuple_len(xs: Seq<u8>, n: nat, j: int)
    ensures
        tuple_at(xs, n, j).len() == n,
    decreases n,
{
    if n > 0 {
        lemma_tuple_len(xs, (n - 1) as nat, j / xs.len() as int);
    }
}

/// All tuples of length `n` over `xs`, in the order of their numbers; none for `n == 0`.
pub open spec fn power_tuples(xs: Seq<u8>, n: nat) -> Seq<Seq<u8>> {
    if n == 0 {
        Seq::empty()
    } else {
        Seq::new(pow(xs.len() as int, n) as nat, |j: int| tuple_at(xs, n, j))
    }
}

proof fn lemma_pow_nonneg(b: nat, e: nat)
    ensures
        pow(b as int, e) >= 0,
    decreases e,
{
    reveal(pow);
    if e > 0 {
        lemma_pow_nonneg(b, (e - 1) as nat);
        assert(b * pow(b as int, (e - 1) as nat) >= 0) by (nonlinear_arith)
            requires
                pow(b as int, (e - 1) as nat) >= 0,
        ;
    }
}

/// Returns all tuples of length `n` (Cartesian power) over the elements of `xs`.
pub fn permutations_with_repetitions(xs: &[u8], n: usize) -> (r: Vec<Vec<u8>>)
    ensures
        r@.len() == power_tuples(xs@, n as nat).len(),
        forall|j: int| 0 <= j < r@.len() ==> #[trigger] r@[j]@ == power_tuples(xs@, n as nat)[j],
{
    let mut cur: Vec<Vec<u8>> = Vec::new();
    if n == 0 {
        return cur;
    }
    let b = xs.len();
    let mut i: usize = 0;
    while i < b
        invariant
            b == xs@.len(),
            i <= b,
            cur@.len() == i,
            forall|j: int| 0 <= j < i ==> #[trigger] cur@[j]@ == tuple_at(xs@, 1, j),
        decreases b - i,
    {
        let mut v: Vec<u8> = Vec::new();
        v.push(xs[i]);
        proof {
            lemma_fundamental_div_mod_converse(i as int, b as int, 0, i as int);
            assert(tuple_at(xs@, 0, i as int / b as int) =~= Seq::<u8>::empty());
            assert(v@ =~= tuple_at(xs@, 1, i as int));
        }
        cur.push(v);
        i = i + 1;
    }
    assert(pow(b as int, 1) == b) by {
        reveal_with_fuel(pow, 2);
    }
    let mut m: usize = 1;
    while m < n
        invariant
            b == xs@.len(),
            1 <= m <= n,
            cur@.len() == pow(b as int, m as nat),
            forall|j: int| 0 <= j < cur@.len() ==> #[trigger] cur@[j]@ == tuple_at(xs@, m as nat, j),
        decreases n - m,
    {
        let mut next: Vec<Vec<u8>> = Vec::new();
        let mut i: usize = 0;
        while i < cur.len()
            invariant
                b == xs@.len(),
                1 <= m < n,
                i <= cur@.len(),
                forall|j: int|
                    0 <= j < cur@.len() ==> #[trigger] cur@[j]@ == tuple_at(xs@, m as nat, j),
                next@.len() == i * b,
                forall|j: int|
                    0 <= j < next@.len() ==> #[trigger] next@[j]@ == tuple_at(
                        xs@,
                        (m + 1) as nat,
                        j,
                    ),
            decreases cur@.len() - i,
        {
            let mut x: usize = 0;
            while x < b
                invariant
                    b == xs@.len(),
                    1 <= m < n,
                    i < cur@.len(),
                    x <= b,
                    forall|j: int|
                        0 <= j < cur@.len() ==> #[trigger] cur@[j]@ == tuple_at(
                            xs@,
                            m as nat,
                            j,
                        ),
                    next@.len() == i * b + x,
                    forall|j: int|
                        0 <= j < next@.len() ==> #[trigger] next@[j]@ == tuple_at(
                            xs@,
                            (m + 1) as nat,
                            j,
                        ),
                decreases b - x,
            {
                let mut v = slice_to_vec(cur[i].as_slice());
                v.push(xs[x]);
                proof {
                    let j = i * b + x;
                    lemma_fundamental_div_mod_converse(j as int, b as int, i as int, x as int);
                    assert(v@ =~= tuple_at(xs@, (m + 1) as nat, j as int));
                }
                next.push(v);
                x = x + 1;
            }
            assert((i + 1) * b == i * b + b) by (nonlinear_arith);
            i = i + 1;
        }
        proof {
            lemma_pow_nonneg(b as nat, m as nat);
            reveal(pow);
            assert(next@.len() == cur@.len() * b);
            assert(pow(b as int, (m + 1) as nat) == b * pow(b as int, m as nat));
            assert(next@.len() == pow(b as int, (m + 1) as nat));
        }
        cur = next;
        m = m + 1;
    }
    cur
}

} // verus!
