//! Profile-driven motif searches: greedy, randomized and Gibbs sampling.
use vstd::arithmetic::power::pow;
use vstd::prelude::*;

use super::dna_impl::Dna;
use super::motif::all_at_least;
use super::profile::{
    best_window_upto, is_motif_matrix, kmer_weight, lemma_numerator_bound, most_probable,
    most_probable_kmer, numerator, probability, score, score_spec, views, weight_upto, MotifError,
    Profile, Smoothing,
};
use super::is_dna;
use crate::seq::{num_windows, window};
use rand::Rng;

verus! {

/// The error that the profile-driven searches report on `seqs` and `k`, if any.
pub open spec fn search_input_error(seqs: Seq<Seq<u8>>, k: nat) -> Option<MotifError> {
    if seqs.len() == 0 {
        Some(MotifError::EmptyInput)
    } else if k == 0 || !all_at_least(seqs, k) {
        Some(MotifError::InvalidLength)
    } else if exists|i: int| 0 <= i < seqs.len() && !is_dna(#[trigger] seqs[i]) {
        Some(MotifError::InvalidSymbol)
    } else {
        None
    }
}

/// Sizes for which the exact weights of k-mers, their sums over a string and
/// the scores of motif matrices fit the machine integers.
pub open spec fn weight_limits(seqs: Seq<Seq<u8>>, k: nat) -> bool {
    &&& seqs.len() * k <= usize::MAX
    &&& forall|i: int|
        0 <= i < seqs.len() ==> (#[trigger] seqs[i].len() + 1) * pow(seqs.len() + 1 as int, k)
            <= u128::MAX
}

/// The first k-mer of every string.
pub open spec fn first_kmers(seqs: Seq<Seq<u8>>, k: nat) -> Seq<Seq<u8>> {
    seqs.map_values(|s: Seq<u8>| s.subrange(0, k as int))
}

/// `x` is one of the k-mers of `s`.
pub open spec fn is_kmer_of(s: Seq<u8>, k: nat, x: Seq<u8>) -> bool {
    exists|i: int| 0 <= i < num_windows(s.len() as int, k as int) && x == #[trigger] window(s, i, k as int)
}

/// Every motif is a k-mer of the string of the same index.
pub open spec fn is_window_matrix(seqs: Seq<Seq<u8>>, k: nat, m: Seq<Seq<u8>>) -> bool {
    &&& m.len() == seqs.len()
    &&& forall|j: int| 0 <= j < m.len() ==> is_kmer_of(seqs[j], k, #[trigger] m[j])
}

/// Motif matrix of the first `j` strings that the greedy search grows from the
/// seed k-mer number `i` of the first string: each next motif is the most
/// probable k-mer of its string under the profile of the motifs before it.
pub open spec fn greedy_grow(seqs: Seq<Seq<u8>>, k: nat, mode: Smoothing, i: int, j: nat) -> Seq<
    Seq<u8>,
>
    decreases j,
{
    if j <= 1 {
        seq![window(seqs[0], i, k as int)]
    } else {
        let m = greedy_grow(seqs, k, mode, i, (j - 1) as nat);
        m.push(most_probable(m, mode, seqs[j - 1], k as int))
    }
}

/// Best motif matrix of the greedy search after trying the first `n` seeds;
/// a candidate replaces the best only when its score is strictly lower.
pub open spec fn greedy_best(seqs: Seq<Seq<u8>>, k: nat, mode: Smoothing, n: int) -> Seq<Seq<u8>>
    decreases n,
{
    if n <= 0 {
        first_kmers(seqs, k)
    } else {
        let b = greedy_best(seqs, k, mode, n - 1);
        let c = greedy_grow(seqs, k, mode, n - 1, seqs.len());
        if score_spec(c) < score_spec(b) {
            c
        } else {
            b
        }
    }
}

/// Result of the greedy motif search.
pub open spec fn greedy_spec(seqs: Seq<Seq<u8>>, k: nat, mode: Smoothing) -> Seq<Seq<u8>> {
    greedy_best(seqs, k, mode, num_windows(seqs[0].len() as int, k as int))
}

proof fn lemma_best_window_range(
    motifs: Seq<Seq<u8>>,
    mode: Smoothing,
    s: Seq<u8>,
    k: int,
    n: int,
)
    requires
        n >= 1,
    ensures
        0 <= best_window_upto(motifs, mode, s, k, n) < n,
    decreases n,
{
    if n > 1 {
        lemma_best_window_range(motifs, mode, s, k, n - 1);
    }
}

/// The most probable k-mer of a string at least `k` long is one of its k-mers.
pub proof fn lemma_most_probable_is_window(motifs: Seq<Seq<u8>>, mode: Smoothing, s: Seq<u8>, k: int)
    requires
        1 <= k <= s.len(),
    ensures
        exists|i: int|
            0 <= i < num_windows(s.len() as int, k) && #[trigger] most_probable(motifs, mode, s, k)
                == window(s, i, k),
        most_probable(motifs, mode, s, k).len() == k,
        is_dna(s) ==> is_dna(most_probable(motifs, mode, s, k)),
{
    let n = num_windows(s.len() as int, k);
    lemma_best_window_range(motifs, mode, s, k, n);
    let b = best_window_upto(motifs, mode, s, k, n);
    assert(most_probable(motifs, mode, s, k) == window(s, b, k));
    if is_dna(s) {
        assert forall|x: int| 0 <= x < k implies super::is_nuc(#[trigger] window(s, b, k)[x]) by {
            assert(window(s, b, k)[x] == s[b + x]);
        }
    }
}

proof fn lemma_pow_base_mono(a: nat, b: nat, e: nat)
    requires
        a <= b,
    ensures
        pow(a as int, e) <= pow(b as int, e),
        0 <= pow(a as int, e),
    decreases e,
{
    reveal(pow);
    if e > 0 {
        lemma_pow_base_mono(a, b, (e - 1) as nat);
        let pa = pow(a as int, (e - 1) as nat);
        let pb = pow(b as int, (e - 1) as nat);
        assert(a * pa <= b * pb) by (nonlinear_arith)
            requires
                a <= b,
                0 <= pa <= pb,
        ;
    }
}

/// Checks the input of a profile-driven search.
fn check_search_input(dnas: &[Dna], k: usize) -> (r: Result<(), MotifError>)
    ensures
        r is Ok <==> search_input_error(views(dnas@), k as nat) is None,
        r matches Err(e) ==> search_input_error(views(dnas@), k as nat) == Some(e),
{
    let ghost seqs = views(dnas@);
    if dnas.len() == 0 {
        return Err(MotifError::EmptyInput);
    }
    if k == 0 {
        return Err(MotifError::InvalidLength);
    }
    let mut i: usize = 0;
    while i < dnas.len()
        invariant
            seqs == views(dnas@),
            i <= dnas@.len(),
            forall|j: int| 0 <= j < i ==> (#[trigger] seqs[j]).len() >= k,
        decreases dnas@.len() - i,
    {
        if dnas[i].len() < k {
            assert(seqs[i as int].len() < k);
            return Err(MotifError::InvalidLength);
        }
        i = i + 1;
    }
    let mut i: usize = 0;
    while i < dnas.len()
        invariant
            seqs == views(dnas@),
            dnas@.len() > 0,
            k > 0,
            all_at_least(seqs, k as nat),
            i <= dnas@.len(),
            forall|j: int| 0 <= j < i ==> is_dna(#[trigger] seqs[j]),
        decreases dnas@.len() - i,
    {
        let s = dnas[i].as_slice();
        assert(s@ == seqs[i as int]);
        let mut x: usize = 0;
        while x < s.len()
            invariant
                seqs == views(dnas@),
                dnas@.len() > 0,
                k > 0,
                all_at_least(seqs, k as nat),
                i < dnas@.len(),
                s@ == seqs[i as int],
                x <= s@.len(),
                forall|y: int| 0 <= y < x ==> super::is_nuc(#[trigger] s@[y]),
            decreases s@.len() - x,
        {
            let b = s[x];
            if !(b == super::A || b == super::C || b == super::G || b == super::T) {
                assert(!super::is_nuc(seqs[i as int][x as int]));
                assert(!is_dna(seqs[i as int]));
                return Err(MotifError::InvalidSymbol);
            }
            x = x + 1;
        }
        i = i + 1;
    }
    Ok(())
}

/// The first k-mer of every string, as a motif matrix.
fn first_kmer_matrix(dnas: &[Dna], k: usize) -> (r: Vec<Dna>)
    requires
        all_at_least(views(dnas@), k as nat),
    ensures
        views(r@) == first_kmers(views(dnas@), k as nat),
{
    let mut best: Vec<Dna> = Vec::new();
    let mut j: usize = 0;
    while j < dnas.len()
        invariant
            all_at_least(views(dnas@), k as nat),
            j <= dnas@.len(),
            views(best@) =~= first_kmers(views(dnas@), k as nat).subrange(0, j as int),
        decreases dnas@.len() - j,
    {
        assert(views(dnas@)[j as int] == dnas@[j as int]@);
        let m = Dna::from_slice(dnas[j].kmer(k, 0));
        let ghost before = views(best@);
        best.push(m);
        assert(views(best@) =~= before.push(m@));
        assert(m@ == first_kmers(views(dnas@), k as nat)[j as int]);
        j = j + 1;
    }
    assert(first_kmers(views(dnas@), k as nat).subrange(0, dnas@.len() as int) =~= first_kmers(views(dnas@), k as nat));
    best
}

/// Greedy motif search: for every k-mer of the first string as a seed, grows
/// a motif matrix by taking from each next string its most probable k-mer
/// under the profile of the motifs so far (with pseudocounts when asked), and
/// keeps the matrix of lowest score; the first k-mers of the strings are the
/// starting best, and ties keep the earlier matrix.
pub fn greedy_motif_search(dnas: &[Dna], k: usize, with_pseudocounts: bool) -> (r: Result<
    Vec<Dna>,
    MotifError,
>)
    requires
        weight_limits(views(dnas@), k as nat),
    ensures
        r is Ok <==> search_input_error(views(dnas@), k as nat) is None,
        r matches Err(e) ==> search_input_error(views(dnas@), k as nat) == Some(e),
        r matches Ok(ms) ==> views(ms@) == greedy_spec(
            views(dnas@),
            k as nat,
            if with_pseudocounts {
                Smoothing::Laplace
            } else {
                Smoothing::Plain
            },
        ),
{
    match check_search_input(dnas, k) {
        Err(e) => {
            return Err(e);
        },
        Ok(()) => {},
    }
    let ghost seqs = views(dnas@);
    let mode = if with_pseudocounts {
        Smoothing::Laplace
    } else {
        Smoothing::Plain
    };
    let t = dnas.len();
    proof {
        assert(seqs[0].len() >= k);
        assert((seqs[0].len() + 1) * pow(t + 1 as int, k as nat) <= u128::MAX);
        lemma_pow_base_mono(1, (t + 1) as nat, k as nat);
        assert(pow(t + 1 as int, k as nat) <= u128::MAX) by (nonlinear_arith)
            requires
                (seqs[0].len() + 1) * pow(t + 1 as int, k as nat) <= u128::MAX,
                pow(t + 1 as int, k as nat) >= 0,
        ;
    }
    let mut best = first_kmer_matrix(dnas, k);
    assert(is_motif_matrix(views(best@), k as nat)) by {
        assert forall|j: int| 0 <= j < views(best@).len() implies (#[trigger] views(best@)[j]).len() == k by {
            assert(views(best@)[j] == seqs[j].subrange(0, k as int));
        }
    }
    assert(views(best@)[0] == best@[0]@);
    let mut best_score = score(&best);
    let dna0 = &dnas[0];
    assert(dna0@ == seqs[0]);
    let n = dna0.len() - k + 1;
    let mut i: usize = 0;
    while i < n
        invariant
            seqs == views(dnas@),
            search_input_error(seqs, k as nat) is None,
            weight_limits(seqs, k as nat),
            pow(t + 1 as int, k as nat) <= u128::MAX,
            t == dnas@.len(),
            t > 0,
            k >= 1,
            dna0@ == seqs[0],
            n == num_windows(seqs[0].len() as int, k as int),
            i <= n,
            best@.len() == t,
            is_motif_matrix(views(best@), k as nat),
            views(best@) == greedy_best(seqs, k as nat, mode, i as int),
            best_score == score_spec(views(best@)),
        decreases n - i,
    {
        let mut motifs: Vec<Dna> = Vec::new();
        motifs.push(Dna::from_slice(dna0.kmer(k, i)));
        assert(views(motifs@) =~= greedy_grow(seqs, k as nat, mode, i as int, 1));
        let mut j: usize = 1;
        while j < t
            invariant
                seqs == views(dnas@),
                search_input_error(seqs, k as nat) is None,
                pow(t + 1 as int, k as nat) <= u128::MAX,
                t == dnas@.len(),
                k >= 1,
                1 <= j <= t,
                motifs@.len() == j,
                is_motif_matrix(views(motifs@), k as nat),
                views(motifs@) == greedy_grow(seqs, k as nat, mode, i as int, j as nat),
            decreases t - j,
        {
            assert(views(motifs@)[0] == motifs@[0]@);
            match Profile::build(motifs.as_slice(), mode) {
                Ok(p) => {
                    assert(seqs[j as int] == dnas@[j as int]@);
                    assert(all_at_least(seqs, k as nat));
                    assert(seqs[j as int].len() >= k);
                    assert(is_dna(seqs[j as int]));
                    proof {
                        lemma_pow_base_mono((j + 1) as nat, (t + 1) as nat, k as nat);
                    }
                    let (_, mp) = most_probable_kmer(&dnas[j], k, &p);
                    proof {
                        lemma_most_probable_is_window(views(motifs@), mode, seqs[j as int], k as int);
                    }
                    let ghost before = views(motifs@);
                    motifs.push(mp);
                    assert(views(motifs@) =~= before.push(mp@));
                },
                Err(_) => {
                    assert(false);
                },
            }
            j = j + 1;
        }
        proof {
            assert(t * k <= usize::MAX);
        }
        assert(views(motifs@)[0] == motifs@[0]@);
        let s = score(motifs.as_slice());
        if s < best_score {
            best = motifs;
            best_score = s;
        }
        i = i + 1;
    }
    Ok(best)
}

/// Relies on `rand::Rng::gen_range` with `rand::thread_rng()`: a value drawn
/// from the range `0..n`, which panics only when the range is empty.
#[verifier::external_body]
fn random_below(n: u128) -> (r: u128)
    requires
        n > 0,
    ensures
        r < n,
{
    rand::thread_rng().gen_range(0..n)
}

/// The motifs that the iterative improvement takes next: the most probable
/// k-mer of each string under the profile, with pseudocounts, of `motifs`.
pub open spec fn next_motifs(seqs: Seq<Seq<u8>>, k: nat, motifs: Seq<Seq<u8>>) -> Seq<Seq<u8>> {
    Seq::new(seqs.len(), |j: int| most_probable(motifs, Smoothing::Laplace, seqs[j], k as int))
}

/// Iterative improvement from `motifs`: move to the next motifs as long as
/// that lowers the score.
pub open spec fn refine(seqs: Seq<Seq<u8>>, k: nat, motifs: Seq<Seq<u8>>) -> Seq<Seq<u8>>
    decreases score_spec(motifs),
{
    let next = next_motifs(seqs, k, motifs);
    if score_spec(next) < score_spec(motifs) {
        refine(seqs, k, next)
    } else {
        motifs
    }
}

proof fn lemma_window_matrix_is_motif_matrix(seqs: Seq<Seq<u8>>, k: nat, m: Seq<Seq<u8>>)
    requires
        is_window_matrix(seqs, k, m),
        all_at_least(seqs, k),
    ensures
        is_motif_matrix(m, k),
{
    assert forall|j: int| 0 <= j < m.len() implies (#[trigger] m[j]).len() == k by {
        assert(is_kmer_of(seqs[j], k, m[j]));
        let i = choose|i: int|
            0 <= i < num_windows(seqs[j].len() as int, k as int) && m[j] == #[trigger] window(
                seqs[j],
                i,
                k as int,
            );
    }
}

proof fn lemma_next_is_window_matrix(seqs: Seq<Seq<u8>>, k: nat, m: Seq<Seq<u8>>)
    requires
        k >= 1,
        all_at_least(seqs, k),
    ensures
        is_window_matrix(seqs, k, next_motifs(seqs, k, m)),
{
    let nm = next_motifs(seqs, k, m);
    assert forall|j: int| 0 <= j < nm.len() implies is_kmer_of(seqs[j], k, #[trigger] nm[j]) by {
        lemma_most_probable_is_window(m, Smoothing::Laplace, seqs[j], k as int);
        let i = choose|i: int|
            0 <= i < num_windows(seqs[j].len() as int, k as int) && #[trigger] most_probable(
                m,
                Smoothing::Laplace,
                seqs[j],
                k as int,
            ) == window(seqs[j], i, k as int);
        assert(nm[j] == window(seqs[j], i, k as int));
    }
}

/// Iterative improvement ends in a matrix of k-mers of the strings, scoring no
/// worse than where it started.
pub proof fn lemma_refine(seqs: Seq<Seq<u8>>, k: nat, m: Seq<Seq<u8>>)
    requires
        k >= 1,
        all_at_least(seqs, k),
        is_window_matrix(seqs, k, m),
    ensures
        is_window_matrix(seqs, k, refine(seqs, k, m)),
        score_spec(refine(seqs, k, m)) <= score_spec(m),
    decreases score_spec(m),
{
    let next = next_motifs(seqs, k, m);
    if score_spec(next) < score_spec(m) {
        lemma_next_is_window_matrix(seqs, k, m);
        lemma_refine(seqs, k, next);
    }
}

/// Bound on the product of numerators.
pub proof fn lemma_weight_bound(motifs: Seq<Seq<u8>>, mode: Smoothing, kmer: Seq<u8>, n: int)
    requires
        0 <= n,
    ensures
        weight_upto(motifs, mode, kmer, n) <= pow(motifs.len() + 1 as int, n as nat),
        mode == Smoothing::Laplace ==> weight_upto(motifs, mode, kmer, n) >= 1,
    decreases n,
{
    reveal(pow);
    if n > 0 {
        lemma_weight_bound(motifs, mode, kmer, n - 1);
        lemma_numerator_bound(motifs, mode, kmer[n - 1], n - 1);
        let w = weight_upto(motifs, mode, kmer, n - 1);
        let v = numerator(motifs, mode, kmer[n - 1], n - 1);
        let b = motifs.len() + 1;
        let pb = pow(b as int, (n - 1) as nat);
        assert(w * v <= pb * b) by (nonlinear_arith)
            requires
                w <= pb,
                v <= b,
        ;
        assert(pb * b == b * pb) by (nonlinear_arith);
        if mode == Smoothing::Laplace {
            assert(w * v >= 1) by (nonlinear_arith)
                requires
                    w >= 1,
                    v >= 1,
            ;
        }
    }
}

/// A copy of a motif matrix.
fn copy_matrix(m: &Vec<Dna>) -> (r: Vec<Dna>)
    ensures
        views(r@) == views(m@),
        r@.len() == m@.len(),
{
    let mut r: Vec<Dna> = Vec::new();
    let mut j: usize = 0;
    while j < m.len()
        invariant
            j <= m@.len(),
            views(r@) =~= views(m@).subrange(0, j as int),
        decreases m@.len() - j,
    {
        let ghost before = views(r@);
        r.push(m[j].copy());
        assert(views(r@) =~= before.push(m@[j as int]@));
        j = j + 1;
    }
    assert(views(m@).subrange(0, m@.len() as int) =~= views(m@));
    r
}

/// A motif matrix of uniformly drawn k-mers, one of each string.
fn random_motifs(dnas: &[Dna], k: usize) -> (r: Vec<Dna>)
    requires
        k >= 1,
        all_at_least(views(dnas@), k as nat),
    ensures
        is_window_matrix(views(dnas@), k as nat, views(r@)),
        r@.len() == dnas@.len(),
{
    let ghost seqs = views(dnas@);
    let mut r: Vec<Dna> = Vec::new();
    let mut j: usize = 0;
    while j < dnas.len()
        invariant
            seqs == views(dnas@),
            k >= 1,
            all_at_least(seqs, k as nat),
            j <= dnas@.len(),
            r@.len() == j,
            forall|l: int| 0 <= l < j ==> is_kmer_of(seqs[l], k as nat, #[trigger] views(r@)[l]),
        decreases dnas@.len() - j,
    {
        assert(seqs[j as int] == dnas@[j as int]@);
        let len = dnas[j].len();
        let n = len - k + 1;
        let off = random_below(n as u128) as usize;
        let m = Dna::from_slice(dnas[j].kmer(k, off));
        let ghost before = views(r@);
        r.push(m);
        proof {
            assert(views(r@) =~= before.push(m@));
            assert forall|l: int| 0 <= l < j + 1 implies is_kmer_of(seqs[l], k as nat, #[trigger] views(r@)[l]) by {
                if l < j {
                    assert(views(r@)[l] == before[l]);
                } else {
                    assert(views(r@)[l] == window(seqs[l], off as int, k as int));
                }
            }
        }
        j = j + 1;
    }
    r
}

/// Iterative improvement from the motif matrix `motifs`: repeatedly replaces
/// every motif by the most probable k-mer of its string under the profile,
/// with pseudocounts, of the current motifs, as long as the score drops.
pub fn improve_motifs(dnas: &[Dna], k: usize, motifs: Vec<Dna>) -> (r: Vec<Dna>)
    requires
        search_input_error(views(dnas@), k as nat) is None,
        weight_limits(views(dnas@), k as nat),
        is_window_matrix(views(dnas@), k as nat, views(motifs@)),
    ensures
        views(r@) == refine(views(dnas@), k as nat, views(motifs@)),
{
    let ghost seqs = views(dnas@);
    let ghost target = refine(seqs, k as nat, views(motifs@));
    let t = dnas.len();
    proof {
        assert(seqs[0].len() >= k);
        lemma_pow_base_mono(1, (t + 1) as nat, k as nat);
        assert(pow(t + 1 as int, k as nat) <= u128::MAX) by (nonlinear_arith)
            requires
                (seqs[0].len() + 1) * pow(t + 1 as int, k as nat) <= u128::MAX,
                pow(t + 1 as int, k as nat) >= 0,
        ;
        lemma_window_matrix_is_motif_matrix(seqs, k as nat, views(motifs@));
    }
    let mut best = motifs;
    assert(views(best@)[0] == best@[0]@);
    let mut best_score = score(&best);
    loop
        invariant
            seqs == views(dnas@),
            search_input_error(seqs, k as nat) is None,
            pow(t + 1 as int, k as nat) <= u128::MAX,
            t == dnas@.len(),
            t * k <= usize::MAX,
            k >= 1,
            is_window_matrix(seqs, k as nat, views(best@)),
            is_motif_matrix(views(best@), k as nat),
            best@.len() == t,
            refine(seqs, k as nat, views(best@)) == target,
            best_score == score_spec(views(best@)),
        ensures
            views(best@) == target,
        decreases best_score,
    {
        assert(views(best@)[0] == best@[0]@);
        let p = match Profile::build(best.as_slice(), Smoothing::Laplace) {
            Ok(p) => p,
            Err(_) => {
                proof {
                    assert(false);
                }
                return best;
            },
        };
        let mut next: Vec<Dna> = Vec::new();
        let mut j: usize = 0;
        while j < t
            invariant
                seqs == views(dnas@),
                search_input_error(seqs, k as nat) is None,
                pow(t + 1 as int, k as nat) <= u128::MAX,
                t == dnas@.len(),
                k >= 1,
                p.wf(),
                p.motifs() == views(best@),
                p.smoothing() == Smoothing::Laplace,
                p.width() == k,
                best@.len() == t,
                j <= t,
                views(next@) =~= next_motifs(seqs, k as nat, views(best@)).subrange(0, j as int),
            decreases t - j,
        {
            assert(seqs[j as int] == dnas@[j as int]@);
            assert(all_at_least(seqs, k as nat));
            assert(seqs[j as int].len() >= k);
            assert(is_dna(seqs[j as int]));
            let (_, mp) = most_probable_kmer(&dnas[j], k, &p);
            let ghost before = views(next@);
            next.push(mp);
            assert(views(next@) =~= before.push(mp@));
            j = j + 1;
        }
        proof {
            assert(views(next@) =~= next_motifs(seqs, k as nat, views(best@)));
            lemma_next_is_window_matrix(seqs, k as nat, views(best@));
            lemma_window_matrix_is_motif_matrix(seqs, k as nat, views(next@));
            assert(views(next@)[0] == next@[0]@);
        }
        let s = score(&next);
        if s < best_score {
            best = next;
            best_score = s;
        } else {
            break;
        }
    }
    best
}

/// One run of the randomized motif search: iterative improvement from a
/// motif matrix of uniformly drawn k-mers.
fn randomized_motif_search_iteration(dnas: &[Dna], k: usize) -> (r: Vec<Dna>)
    requires
        search_input_error(views(dnas@), k as nat) is None,
        weight_limits(views(dnas@), k as nat),
    ensures
        is_refined_run(views(dnas@), k as nat, views(r@)),
{
    let start = random_motifs(dnas, k);
    let ghost m = views(start@);
    let r = improve_motifs(dnas, k, start);
    assert(is_window_matrix(views(dnas@), k as nat, m) && views(r@) == refine(views(dnas@), k as nat, m));
    r
}

/// `r` is the iterative improvement of some matrix of k-mers of the strings.
pub open spec fn is_refined_run(seqs: Seq<Seq<u8>>, k: nat, r: Seq<Seq<u8>>) -> bool {
    exists|m: Seq<Seq<u8>>| is_window_matrix(seqs, k, m) && r == #[trigger] refine(seqs, k, m)
}

/// The motif matrices of a vector of runs.
pub open spec fn runs_views(runs: Seq<Vec<Dna>>) -> Seq<Seq<Seq<u8>>> {
    runs.map_values(|m: Vec<Dna>| views(m@))
}

/// The best of `base` and the first `n` runs: a run replaces the best so far
/// only when it scores strictly lower.
pub open spec fn best_matrix(base: Seq<Seq<u8>>, runs: Seq<Seq<Seq<u8>>>, n: int) -> Seq<Seq<u8>>
    decreases n,
{
    if n <= 0 {
        base
    } else {
        let b = best_matrix(base, runs, n - 1);
        if score_spec(runs[n - 1]) < score_spec(b) {
            runs[n - 1]
        } else {
            b
        }
    }
}

/// The best matrix is one of the candidates, so a matrix of k-mers, and it
/// scores no worse than the base.
pub proof fn lemma_best_matrix(seqs: Seq<Seq<u8>>, k: nat, base: Seq<Seq<u8>>, runs: Seq<Seq<Seq<u8>>>, n: int)
    requires
        0 <= n <= runs.len(),
        is_window_matrix(seqs, k, base),
        forall|j: int| 0 <= j < n ==> is_window_matrix(seqs, k, #[trigger] runs[j]),
    ensures
        is_window_matrix(seqs, k, best_matrix(base, runs, n)),
        score_spec(best_matrix(base, runs, n)) <= score_spec(base),
    decreases n,
{
    if n > 0 {
        lemma_best_matrix(seqs, k, base, runs, n - 1);
    }
}

/// The best scoring of the first k-mers of the strings and the matrices of
/// `runs`, in order: a run replaces the best so far only when it scores
/// strictly lower.
pub fn best_scoring(dnas: &[Dna], k: usize, runs: &Vec<Vec<Dna>>) -> (r: Vec<Dna>)
    requires
        search_input_error(views(dnas@), k as nat) is None,
        weight_limits(views(dnas@), k as nat),
        forall|j: int| 0 <= j < runs@.len() ==> is_window_matrix(views(dnas@), k as nat, #[trigger] runs_views(runs@)[j]),
    ensures
        views(r@) == best_matrix(first_kmers(views(dnas@), k as nat), runs_views(runs@), runs@.len() as int),
{
    let ghost seqs = views(dnas@);
    let ghost rv = runs_views(runs@);
    let mut best = first_kmer_matrix(dnas, k);
    proof {
        lemma_first_kmers_window_matrix(seqs, k as nat);
        lemma_window_matrix_is_motif_matrix(seqs, k as nat, views(best@));
    }
    assert(views(best@)[0] == best@[0]@);
    let mut best_score = score(&best);
    let mut j: usize = 0;
    while j < runs.len()
        invariant
            seqs == views(dnas@),
            rv == runs_views(runs@),
            search_input_error(seqs, k as nat) is None,
            weight_limits(seqs, k as nat),
            k >= 1,
            forall|l: int| 0 <= l < runs@.len() ==> is_window_matrix(seqs, k as nat, #[trigger] rv[l]),
            j <= runs@.len(),
            views(best@) == best_matrix(first_kmers(seqs, k as nat), rv, j as int),
            best_score == score_spec(views(best@)),
        decreases runs@.len() - j,
    {
        let m = &runs[j];
        assert(views(m@) == rv[j as int]);
        proof {
            lemma_window_matrix_is_motif_matrix(seqs, k as nat, views(m@));
            assert(views(m@)[0] == m@[0]@);
        }
        let s = score(m.as_slice());
        if s < best_score {
            best = copy_matrix(m);
            best_score = s;
        }
        j = j + 1;
    }
    best
}

/// The error that a search with restarts reports, if any.
pub open spec fn restart_input_error(seqs: Seq<Seq<u8>>, k: nat, iters: nat) -> Option<MotifError> {
    if search_input_error(seqs, k) is Some {
        search_input_error(seqs, k)
    } else if iters == 0 {
        Some(MotifError::NoRestarts)
    } else {
        None
    }
}

proof fn lemma_first_kmers_window_matrix(seqs: Seq<Seq<u8>>, k: nat)
    requires
        k >= 1,
        all_at_least(seqs, k),
    ensures
        is_window_matrix(seqs, k, first_kmers(seqs, k)),
{
    let m = first_kmers(seqs, k);
    assert forall|j: int| 0 <= j < m.len() implies is_kmer_of(seqs[j], k, #[trigger] m[j]) by {
        assert(m[j] == window(seqs[j], 0, k as int));
    }
}

/// Randomized motif search: `iters` runs of iterative improvement from
/// random k-mers; the result is the best scoring of the first k-mers of the
/// strings and the runs' results, in order, ties keeping the earlier.
pub fn randomized_motif_search(dnas: &[Dna], k: usize, iters: usize) -> (r: Result<Vec<Dna>, MotifError>)
    requires
        weight_limits(views(dnas@), k as nat),
    ensures
        r is Ok <==> restart_input_error(views(dnas@), k as nat, iters as nat) is None,
        r matches Err(e) ==> restart_input_error(views(dnas@), k as nat, iters as nat) == Some(e),
        r matches Ok(ms) ==> exists|runs: Seq<Seq<Seq<u8>>>|
            {
                &&& runs.len() == iters
                &&& forall|j: int| 0 <= j < runs.len() ==> is_refined_run(views(dnas@), k as nat, #[trigger] runs[j])
                &&& views(ms@) == #[trigger] best_matrix(first_kmers(views(dnas@), k as nat), runs, iters as int)
            },
        r matches Ok(ms) ==> is_window_matrix(views(dnas@), k as nat, views(ms@)) && score_spec(
            views(ms@),
        ) <= score_spec(first_kmers(views(dnas@), k as nat)),
{
    match check_search_input(dnas, k) {
        Err(e) => {
            return Err(e);
        },
        Ok(()) => {},
    }
    if iters == 0 {
        return Err(MotifError::NoRestarts);
    }
    let ghost seqs = views(dnas@);
    let mut runs: Vec<Vec<Dna>> = Vec::new();
    let mut it: usize = 0;
    while it < iters
        invariant
            seqs == views(dnas@),
            search_input_error(seqs, k as nat) is None,
            weight_limits(seqs, k as nat),
            k >= 1,
            it <= iters,
            runs@.len() == it,
            forall|j: int| 0 <= j < runs@.len() ==> is_refined_run(seqs, k as nat, #[trigger] runs_views(runs@)[j]),
        decreases iters - it,
    {
        let m = randomized_motif_search_iteration(dnas, k);
        let ghost before = runs_views(runs@);
        runs.push(m);
        assert(runs_views(runs@) =~= before.push(views(m@)));
        it = it + 1;
    }
    proof {
        assert forall|j: int| 0 <= j < runs@.len() implies is_window_matrix(seqs, k as nat, #[trigger] runs_views(runs@)[j]) by {
            assert(is_refined_run(seqs, k as nat, runs_views(runs@)[j]));
            let m0 = choose|m0: Seq<Seq<u8>>| is_window_matrix(seqs, k as nat, m0) && runs_views(runs@)[j] == #[trigger] refine(seqs, k as nat, m0);
            lemma_refine(seqs, k as nat, m0);
        }
        lemma_first_kmers_window_matrix(seqs, k as nat);
    }
    let best = best_scoring(dnas, k, &runs);
    proof {
        lemma_best_matrix(seqs, k as nat, first_kmers(seqs, k as nat), runs_views(runs@), iters as int);
    }
    Ok(best)
}

/// Sum of the first `n` weights.
pub open spec fn prefix_sum(w: Seq<u128>, n: int) -> nat
    decreases n,
{
    if n <= 0 {
        0
    } else {
        prefix_sum(w, n - 1) + w[n - 1] as nat
    }
}

proof fn lemma_prefix_mono(w: Seq<u128>, a: int, b: int)
    requires
        0 <= a <= b,
    ensures
        prefix_sum(w, a) <= prefix_sum(w, b),
    decreases b - a,
{
    if a < b {
        lemma_prefix_mono(w, a, b - 1);
    }
}

proof fn lemma_prefix_bound(w: Seq<u128>, n: int, bound: nat)
    requires
        0 <= n <= w.len(),
        forall|j: int| 0 <= j < n ==> w[j] <= bound,
    ensures
        prefix_sum(w, n) <= n * bound,
    decreases n,
{
    if n > 0 {
        lemma_prefix_bound(w, n - 1, bound);
        assert((n - 1) * bound + bound == n * bound) by (nonlinear_arith);
    }
}

/// Probabilities of all k-mers of `dna` under `p`, in order, as weights:
/// each is the k-mer's probability times the profile's denominator to the power `k`.
pub fn kmer_probabilities(dna: &Dna, k: usize, p: &Profile) -> (r: Vec<u128>)
    requires
        p.wf(),
        k == p.width(),
        1 <= k <= dna@.len(),
        is_dna(dna@),
        pow(p.motifs().len() + 1 as int, k as nat) <= u128::MAX,
    ensures
        r@.len() == num_windows(dna@.len() as int, k as int),
        forall|j: int|
            0 <= j < r@.len() ==> #[trigger] r@[j] as nat == kmer_weight(
                p.motifs(),
                p.smoothing(),
                window(dna@, j, k as int),
            ),
{
    let n = dna.len() - k + 1;
    let mut r: Vec<u128> = Vec::new();
    let mut i: usize = 0;
    while i < n
        invariant
            p.wf(),
            k == p.width(),
            1 <= k <= dna@.len(),
            is_dna(dna@),
            pow(p.motifs().len() + 1 as int, k as nat) <= u128::MAX,
            n == num_windows(dna@.len() as int, k as int),
            i <= n,
            r@.len() == i,
            forall|j: int|
                0 <= j < i ==> #[trigger] r@[j] as nat == kmer_weight(
                    p.motifs(),
                    p.smoothing(),
                    window(dna@, j, k as int),
                ),
        decreases n - i,
    {
        let kmer = dna.kmer(k, i);
        proof {
            assert forall|x: int| 0 <= x < kmer@.len() implies super::is_nuc(#[trigger] kmer@[x]) by {
                assert(kmer@[x] == dna@[i + x]);
            }
        }
        let w = probability(kmer, p);
        r.push(w);
        i = i + 1;
    }
    r
}

/// Sum of `w`.
fn total_weight(w: &Vec<u128>) -> (r: u128)
    requires
        prefix_sum(w@, w@.len() as int) <= u128::MAX,
    ensures
        r as nat == prefix_sum(w@, w@.len() as int),
{
    let mut acc: u128 = 0;
    let mut j: usize = 0;
    while j < w.len()
        invariant
            j <= w@.len(),
            prefix_sum(w@, w@.len() as int) <= u128::MAX,
            acc as nat == prefix_sum(w@, j as int),
        decreases w@.len() - j,
    {
        proof {
            lemma_prefix_mono(w@, j + 1, w@.len() as int);
        }
        acc = acc + w[j];
        j = j + 1;
    }
    acc
}

/// Index picked by the draw `draw` from weights `w`: the first index whose
/// running total of weights exceeds the draw. A draw uniform below the total
/// picks each index with probability proportional to its weight.
pub fn pick_weighted(w: &Vec<u128>, draw: u128) -> (r: usize)
    requires
        draw < prefix_sum(w@, w@.len() as int),
        prefix_sum(w@, w@.len() as int) <= u128::MAX,
    ensures
        r < w@.len(),
        prefix_sum(w@, r as int) <= draw < prefix_sum(w@, r + 1),
        r == pick_from(w@, draw as nat, 0),
{
    let mut acc: u128 = 0;
    let mut j: usize = 0;
    while j < w.len()
        invariant
            j <= w@.len(),
            draw < prefix_sum(w@, w@.len() as int),
            prefix_sum(w@, w@.len() as int) <= u128::MAX,
            acc as nat == prefix_sum(w@, j as int),
            acc <= draw,
            pick_from(w@, draw as nat, 0) == pick_from(w@, draw as nat, j as int),
        decreases w@.len() - j,
    {
        proof {
            lemma_prefix_mono(w@, j + 1, w@.len() as int);
        }
        let next = acc + w[j];
        if draw < next {
            return j;
        }
        acc = next;
        j = j + 1;
    }
    proof {
        assert(false);
    }
    0
}

/// The index that the draw `draw` picks among the weights `w` from index `j`
/// on: the first whose running total of weights exceeds the draw.
pub open spec fn pick_from(w: Seq<u128>, draw: nat, j: int) -> int
    decreases w.len() - j,
{
    if j >= w.len() || j < 0 {
        j
    } else if draw < prefix_sum(w, j + 1) {
        j
    } else {
        pick_from(w, draw, j + 1)
    }
}

/// Weights of the k-mers of `s`, in order, under the profile with
/// pseudocounts of `motifs`.
pub open spec fn laplace_weights(motifs: Seq<Seq<u8>>, s: Seq<u8>, k: nat) -> Seq<u128> {
    Seq::new(
        num_windows(s.len() as int, k as int) as nat,
        |j: int| kmer_weight(motifs, Smoothing::Laplace, window(s, j, k as int)) as u128,
    )
}

/// The k-mer of `s` that the draw `draw` picks under the profile with
/// pseudocounts of `motifs`.
pub open spec fn picked_kmer(motifs: Seq<Seq<u8>>, s: Seq<u8>, k: nat, draw: nat) -> Seq<u8> {
    window(s, pick_from(laplace_weights(motifs, s, k), draw, 0), k as int)
}

/// Sum of the weights of the k-mers of `s` under the profile with pseudocounts of `motifs`.
pub open spec fn total_laplace_weight(motifs: Seq<Seq<u8>>, s: Seq<u8>, k: nat) -> nat {
    prefix_sum(laplace_weights(motifs, s, k), num_windows(s.len() as int, k as int))
}

/// Weights of the k-mers of `dna` under `p`, with their sum fitting and positive.
fn laplace_kmer_weights(dna: &Dna, k: usize, p: &Profile) -> (w: Vec<u128>)
    requires
        p.wf(),
        p.smoothing() == Smoothing::Laplace,
        k == p.width(),
        1 <= k <= dna@.len(),
        is_dna(dna@),
        (dna@.len() + 1) * pow(p.motifs().len() + 1 as int, k as nat) <= u128::MAX,
    ensures
        w@ == laplace_weights(p.motifs(), dna@, k as nat),
        w@.len() == num_windows(dna@.len() as int, k as int),
        0 < prefix_sum(w@, w@.len() as int) <= u128::MAX,
{
    let ghost len = dna@.len();
    let ghost bound = pow(p.motifs().len() + 1 as int, k as nat);
    proof {
        lemma_pow_base_mono(1, (p.motifs().len() + 1) as nat, k as nat);
        assert(bound <= u128::MAX) by (nonlinear_arith)
            requires
                (len + 1) * bound <= u128::MAX,
                0 <= bound,
        ;
    }
    let weights = kmer_probabilities(dna, k, p);
    proof {
        let nw = weights@.len() as int;
        assert forall|j: int| 0 <= j < nw implies weights@[j] <= bound && weights@[j] >= 1 by {
            lemma_weight_bound(p.motifs(), Smoothing::Laplace, window(dna@, j, k as int), k as int);
        }
        lemma_prefix_bound(weights@, nw, bound as nat);
        assert(nw * bound <= (len + 1) * bound) by (nonlinear_arith)
            requires
                0 <= nw <= len + 1,
                0 <= bound,
        ;
        lemma_prefix_mono(weights@, 1, nw);
        assert(weights@ =~= laplace_weights(p.motifs(), dna@, k as nat));
    }
    weights
}

/// A k-mer of `dna` drawn at random, each with probability proportional to
/// its weight under the profile `p`: the k-mer that a draw uniform below the
/// total weight picks.
fn randomly_generated(dna: &Dna, k: usize, p: &Profile) -> (r: Dna)
    requires
        p.wf(),
        p.smoothing() == Smoothing::Laplace,
        k == p.width(),
        1 <= k <= dna@.len(),
        is_dna(dna@),
        (dna@.len() + 1) * pow(p.motifs().len() + 1 as int, k as nat) <= u128::MAX,
    ensures
        exists|draw: nat|
            draw < total_laplace_weight(p.motifs(), dna@, k as nat) && r@ == #[trigger] picked_kmer(
                p.motifs(),
                dna@,
                k as nat,
                draw,
            ),
{
    let weights = laplace_kmer_weights(dna, k, p);
    let total = total_weight(&weights);
    let draw = random_below(total);
    let j = pick_weighted(&weights, draw);
    let r = Dna::from_slice(dna.kmer(k, j));
    assert(r@ == picked_kmer(p.motifs(), dna@, k as nat, draw as nat));
    r
}

/// The error that the Gibbs sampler reports, if any.
pub open spec fn gibbs_input_error(seqs: Seq<Seq<u8>>, k: nat, t: nat, n: nat, iters: nat) -> Option<MotifError> {
    if restart_input_error(seqs, k, iters) is Some {
        restart_input_error(seqs, k, iters)
    } else if t != seqs.len() || (t < 2 && n > 0) {
        Some(MotifError::CountMismatch)
    } else {
        None
    }
}

/// The motif matrix without its motif number `i`.
fn without(m: &Vec<Dna>, i: usize) -> (r: Vec<Dna>)
    requires
        i < m@.len(),
    ensures
        views(r@) == views(m@).remove(i as int),
{
    let mut r: Vec<Dna> = Vec::new();
    let mut j: usize = 0;
    while j < m.len()
        invariant
            i < m@.len(),
            j <= m@.len(),
            views(r@) =~= if j <= i {
                views(m@).subrange(0, j as int)
            } else {
                views(m@).remove(i as int).subrange(0, j - 1)
            },
        decreases m@.len() - j,
    {
        if j != i {
            let ghost before = views(r@);
            r.push(m[j].copy());
            assert(views(r@) =~= before.push(m@[j as int]@));
        }
        j = j + 1;
    }
    assert(views(m@).remove(i as int).subrange(0, m@.len() - 1) =~= views(m@).remove(i as int));
    r
}

/// What a run of the Gibbs sampler from the start matrix `start` with `n`
/// steps promises of its result `r` whatever was drawn: a matrix of k-mers
/// of the strings scoring no worse than the start, the start itself when no
/// step is taken.
pub open spec fn gibbs_outcome(seqs: Seq<Seq<u8>>, k: nat, n: nat, start: Seq<Seq<u8>>, r: Seq<Seq<u8>>) -> bool {
    &&& is_window_matrix(seqs, k, r)
    &&& score_spec(r) <= score_spec(start)
    &&& n == 0 ==> r == start
}

/// One Gibbs step: motif `i` of `m` is replaced by the k-mer of string `i`
/// that the draw `draw` picks under the profile, with pseudocounts, of the
/// other motifs.
pub open spec fn gibbs_next(seqs: Seq<Seq<u8>>, k: nat, m: Seq<Seq<u8>>, i: int, draw: nat) -> Seq<Seq<u8>> {
    m.update(i, picked_kmer(m.remove(i), seqs[i], k, draw))
}

/// The motif matrix after the first `n` of `steps` (string index, draw) from `start`.
pub open spec fn gibbs_state(seqs: Seq<Seq<u8>>, k: nat, start: Seq<Seq<u8>>, steps: Seq<(int, nat)>, n: int) -> Seq<Seq<u8>>
    decreases n,
{
    if n <= 0 {
        start
    } else {
        gibbs_next(seqs, k, gibbs_state(seqs, k, start, steps, n - 1), steps[n - 1].0, steps[n - 1].1)
    }
}

/// The best motif matrix seen in the first `n` steps, the start included: a
/// matrix replaces the best so far only when it scores strictly lower.
pub open spec fn gibbs_best(seqs: Seq<Seq<u8>>, k: nat, start: Seq<Seq<u8>>, steps: Seq<(int, nat)>, n: int) -> Seq<Seq<u8>>
    decreases n,
{
    if n <= 0 {
        start
    } else {
        let b = gibbs_best(seqs, k, start, steps, n - 1);
        let s = gibbs_state(seqs, k, start, steps, n);
        if score_spec(s) < score_spec(b) {
            s
        } else {
            b
        }
    }
}

/// Every step draws a string index below the number of strings, and a draw
/// below the total weight of that string's k-mers at that step.
pub open spec fn gibbs_valid(seqs: Seq<Seq<u8>>, k: nat, start: Seq<Seq<u8>>, steps: Seq<(int, nat)>) -> bool {
    forall|m: int|
        0 <= m < steps.len() ==> 0 <= (#[trigger] steps[m]).0 < seqs.len() && steps[m].1 < total_laplace_weight(
            gibbs_state(seqs, k, start, steps, m).remove(steps[m].0),
            seqs[steps[m].0],
            k,
        )
}

proof fn lemma_gibbs_prefix(
    seqs: Seq<Seq<u8>>,
    k: nat,
    start: Seq<Seq<u8>>,
    s1: Seq<(int, nat)>,
    s2: Seq<(int, nat)>,
    n: int,
)
    requires
        0 <= n <= s1.len(),
        n <= s2.len(),
        forall|j: int| 0 <= j < n ==> s1[j] == s2[j],
    ensures
        gibbs_state(seqs, k, start, s1, n) == gibbs_state(seqs, k, start, s2, n),
        gibbs_best(seqs, k, start, s1, n) == gibbs_best(seqs, k, start, s2, n),
    decreases n,
{
    if n > 0 {
        lemma_gibbs_prefix(seqs, k, start, s1, s2, n - 1);
    }
}

/// The profile, with pseudocounts, of the motifs of `motifs` other than
/// motif `i`, with the facts a weighted draw from string `i` needs.
fn gibbs_profile(dnas: &[Dna], k: usize, t: usize, motifs: &Vec<Dna>, i: usize) -> (p: Profile)
    requires
        search_input_error(views(dnas@), k as nat) is None,
        weight_limits(views(dnas@), k as nat),
        t == dnas@.len(),
        t >= 2,
        is_window_matrix(views(dnas@), k as nat, views(motifs@)),
        i < t,
    ensures
        p.wf(),
        p.smoothing() == Smoothing::Laplace,
        p.width() == k,
        p.motifs() == views(motifs@).remove(i as int),
        1 <= k <= dnas@[i as int]@.len(),
        is_dna(dnas@[i as int]@),
        (dnas@[i as int]@.len() + 1) * pow(p.motifs().len() + 1 as int, k as nat) <= u128::MAX,
{
    let ghost seqs = views(dnas@);
    let rest = without(motifs, i);
    proof {
        lemma_window_matrix_is_motif_matrix(seqs, k as nat, views(motifs@));
        assert(views(motifs@).len() == t);
        assert(views(rest@).len() == t - 1);
        assert(rest@.len() == views(rest@).len());
        assert(views(rest@)[0] == rest@[0]@);
        assert(is_motif_matrix(views(rest@), k as nat));
    }
    let p = match Profile::build(rest.as_slice(), Smoothing::Laplace) {
        Ok(p) => p,
        Err(_) => {
            proof {
                assert(false);
            }
            return Profile::build(rest.as_slice(), Smoothing::Laplace).unwrap();
        },
    };
    proof {
        assert(seqs[i as int] == dnas@[i as int]@);
        assert(all_at_least(seqs, k as nat));
        assert(seqs[i as int].len() >= k);
        assert(is_dna(seqs[i as int]));
        let li = seqs[i as int].len();
        assert((li + 1) * pow(t + 1 as int, k as nat) <= u128::MAX);
        assert(p.motifs().len() + 1 == t);
        lemma_pow_base_mono(t as nat, (t + 1) as nat, k as nat);
        assert((li + 1) * pow(t as int, k as nat) <= (li + 1) * pow(t + 1 as int, k as nat)) by (nonlinear_arith)
            requires
                0 <= pow(t as int, k as nat) <= pow(t + 1 as int, k as nat),
        ;
    }
    p
}

/// One Gibbs step with given draws: replaces motif `i` by the k-mer of string
/// `i` that `draw`, below the total weight, picks under the profile, with
/// pseudocounts, of the other motifs.
pub fn gibbs_step(dnas: &[Dna], k: usize, t: usize, motifs: Vec<Dna>, i: usize, draw: u128) -> (r: Vec<Dna>)
    requires
        search_input_error(views(dnas@), k as nat) is None,
        weight_limits(views(dnas@), k as nat),
        t == dnas@.len(),
        t >= 2,
        is_window_matrix(views(dnas@), k as nat, views(motifs@)),
        i < t,
        draw < total_laplace_weight(views(motifs@).remove(i as int), views(dnas@)[i as int], k as nat),
    ensures
        views(r@) == gibbs_next(views(dnas@), k as nat, views(motifs@), i as int, draw as nat),
        is_window_matrix(views(dnas@), k as nat, views(r@)),
{
    let ghost seqs = views(dnas@);
    let mut motifs = motifs;
    let p = gibbs_profile(dnas, k, t, &motifs, i);
    assert(seqs[i as int] == dnas@[i as int]@);
    let weights = laplace_kmer_weights(&dnas[i], k, &p);
    let j = pick_weighted(&weights, draw);
    let m = Dna::from_slice(dnas[i].kmer(k, j));
    let ghost before = views(motifs@);
    motifs.set(i, m);
    proof {
        assert(m@ == picked_kmer(before.remove(i as int), seqs[i as int], k as nat, draw as nat));
        assert(views(motifs@) =~= before.update(i as int, m@));
        assert forall|l: int| 0 <= l < views(motifs@).len() implies is_kmer_of(seqs[l], k as nat, #[trigger] views(motifs@)[l]) by {
            if l == i {
                assert(views(motifs@)[l] == window(seqs[l], j as int, k as int));
            } else {
                assert(views(motifs@)[l] == before[l]);
            }
        }
    }
    motifs
}

/// Gibbs sampling from the motif matrix `start`: `n` times draws a string,
/// removes its motif, and draws a new motif for it with probability
/// proportional to its weight under the profile, with pseudocounts, of the
/// other motifs; returns the best matrix seen, the start included.
pub fn gibbs_sample_from(dnas: &[Dna], k: usize, t: usize, start: Vec<Dna>, n: usize) -> (r: Vec<Dna>)
    requires
        search_input_error(views(dnas@), k as nat) is None,
        weight_limits(views(dnas@), k as nat),
        t == dnas@.len(),
        t >= 2 || n == 0,
        is_window_matrix(views(dnas@), k as nat, views(start@)),
    ensures
        exists|steps: Seq<(int, nat)>|
            steps.len() == n && gibbs_valid(views(dnas@), k as nat, views(start@), steps) && views(r@)
                == #[trigger] gibbs_best(views(dnas@), k as nat, views(start@), steps, n as int),
        gibbs_outcome(views(dnas@), k as nat, n as nat, views(start@), views(r@)),
{
    let ghost seqs = views(dnas@);
    let ghost s0 = views(start@);
    let ghost mut steps: Seq<(int, nat)> = Seq::empty();
    let mut motifs = start;
    let mut best = copy_matrix(&motifs);
    proof {
        lemma_window_matrix_is_motif_matrix(seqs, k as nat, views(best@));
        assert(views(best@)[0] == best@[0]@);
    }
    let mut best_score = score(&best);
    let mut step: usize = 0;
    while step < n
        invariant
            seqs == views(dnas@),
            search_input_error(seqs, k as nat) is None,
            weight_limits(seqs, k as nat),
            t == dnas@.len(),
            t >= 2 || n == 0,
            k >= 1,
            step <= n,
            is_window_matrix(seqs, k as nat, views(motifs@)),
            motifs@.len() == t,
            is_window_matrix(seqs, k as nat, views(best@)),
            best_score == score_spec(views(best@)),
            s0 == views(start@),
            score_spec(views(best@)) <= score_spec(s0),
            step == 0 ==> views(best@) == s0,
            steps.len() == step,
            gibbs_valid(seqs, k as nat, s0, steps),
            views(motifs@) == gibbs_state(seqs, k as nat, s0, steps, step as int),
            views(best@) == gibbs_best(seqs, k as nat, s0, steps, step as int),
        decreases n - step,
    {
        let i = random_below(t as u128) as usize;
        let p = gibbs_profile(dnas, k, t, &motifs, i);
        let m = randomly_generated(&dnas[i], k, &p);
        let ghost before = views(motifs@);
        let ghost old_steps = steps;
        motifs.set(i, m);
        proof {
            assert(seqs[i as int] == dnas@[i as int]@);
            let d = choose|d: nat|
                d < total_laplace_weight(p.motifs(), dnas@[i as int]@, k as nat) && m@ == #[trigger] picked_kmer(
                    p.motifs(),
                    dnas@[i as int]@,
                    k as nat,
                    d,
                );
            steps = old_steps.push((i as int, d));
            lemma_gibbs_prefix(seqs, k as nat, s0, old_steps, steps, step as int);
            assert(views(motifs@) =~= before.update(i as int, m@));
            assert(views(motifs@) == gibbs_state(seqs, k as nat, s0, steps, step + 1));
            assert forall|q: int| 0 <= q < steps.len() implies 0 <= (#[trigger] steps[q]).0 < seqs.len() && steps[q].1 < total_laplace_weight(
                gibbs_state(seqs, k as nat, s0, steps, q).remove(steps[q].0),
                seqs[steps[q].0],
                k as nat,
            ) by {
                if q < step {
                    assert(steps[q] == old_steps[q]);
                    lemma_gibbs_prefix(seqs, k as nat, s0, old_steps, steps, q);
                }
            }
            assert forall|l: int| 0 <= l < views(motifs@).len() implies is_kmer_of(seqs[l], k as nat, #[trigger] views(motifs@)[l]) by {
                if l == i {
                    let w = laplace_weights(p.motifs(), seqs[i as int], k as nat);
                    let j = pick_from(w, d, 0);
                    lemma_pick_range(w, d, 0);
                    assert(views(motifs@)[l] == window(seqs[l], j, k as int));
                } else {
                    assert(views(motifs@)[l] == before[l]);
                }
            }
            lemma_window_matrix_is_motif_matrix(seqs, k as nat, views(motifs@));
            assert(views(motifs@)[0] == motifs@[0]@);
        }
        let s = score(&motifs);
        if s < best_score {
            best = copy_matrix(&motifs);
            best_score = s;
        }
        step = step + 1;
    }
    best
}

/// A draw below the total weight picks an index of the weights.
proof fn lemma_pick_range(w: Seq<u128>, draw: nat, j: int)
    requires
        0 <= j <= w.len(),
        prefix_sum(w, j) <= draw < prefix_sum(w, w.len() as int),
    ensures
        j <= pick_from(w, draw, j) < w.len(),
    decreases w.len() - j,
{
    if j == w.len() {
    } else if draw < prefix_sum(w, j + 1) {
    } else {
        lemma_pick_range(w, draw, j + 1);
    }
}

/// What a Gibbs run of `n` steps from a matrix of k-mers of the strings can
/// give: a matrix of k-mers that is the best seen along the steps that some
/// draws make.
pub open spec fn is_gibbs_run(seqs: Seq<Seq<u8>>, k: nat, n: nat, r: Seq<Seq<u8>>) -> bool {
    &&& is_window_matrix(seqs, k, r)
    &&& exists|start: Seq<Seq<u8>>, steps: Seq<(int, nat)>|
        is_window_matrix(seqs, k, start) && steps.len() == n && gibbs_valid(seqs, k, start, steps) && r
            == #[trigger] gibbs_best(seqs, k, start, steps, n as int)
}

/// One run of the Gibbs sampler with `n` steps from uniformly drawn k-mers.
pub fn gibbs_sampler_iteration(dnas: &[Dna], k: usize, t: usize, n: usize) -> (r: Vec<Dna>)
    requires
        search_input_error(views(dnas@), k as nat) is None,
        weight_limits(views(dnas@), k as nat),
        t == dnas@.len(),
        t >= 2 || n == 0,
    ensures
        is_gibbs_run(views(dnas@), k as nat, n as nat, views(r@)),
{
    let start = random_motifs(dnas, k);
    gibbs_sample_from(dnas, k, t, start, n)
}

/// Gibbs sampler: `iters` runs of `gibbs_sampler_iteration` with `n` steps
/// each; the result is the best scoring of the first k-mers of the strings
/// and the runs' results, in order, ties keeping the earlier. `t` is the
/// number of strings.
pub fn gibbs_sampler(dnas: &[Dna], k: usize, t: usize, n: usize, iters: usize) -> (r: Result<
    Vec<Dna>,
    MotifError,
>)
    requires
        weight_limits(views(dnas@), k as nat),
    ensures
        r is Ok <==> gibbs_input_error(views(dnas@), k as nat, t as nat, n as nat, iters as nat) is None,
        r matches Err(e) ==> gibbs_input_error(views(dnas@), k as nat, t as nat, n as nat, iters as nat) == Some(e),
        r matches Ok(ms) ==> exists|runs: Seq<Seq<Seq<u8>>>|
            {
                &&& runs.len() == iters
                &&& forall|j: int| 0 <= j < runs.len() ==> is_gibbs_run(views(dnas@), k as nat, n as nat, #[trigger] runs[j])
                &&& views(ms@) == #[trigger] best_matrix(first_kmers(views(dnas@), k as nat), runs, iters as int)
            },
        r matches Ok(ms) ==> is_window_matrix(views(dnas@), k as nat, views(ms@)) && score_spec(
            views(ms@),
        ) <= score_spec(first_kmers(views(dnas@), k as nat)),
{
    match check_search_input(dnas, k) {
        Err(e) => {
            return Err(e);
        },
        Ok(()) => {},
    }
    if iters == 0 {
        return Err(MotifError::NoRestarts);
    }
    if t != dnas.len() || (t < 2 && n > 0) {
        return Err(MotifError::CountMismatch);
    }
    let ghost seqs = views(dnas@);
    let mut runs: Vec<Vec<Dna>> = Vec::new();
    let mut it: usize = 0;
    while it < iters
        invariant
            seqs == views(dnas@),
            search_input_error(seqs, k as nat) is None,
            weight_limits(seqs, k as nat),
            t == dnas@.len(),
            t >= 2 || n == 0,
            k >= 1,
            it <= iters,
            runs@.len() == it,
            forall|j: int| 0 <= j < runs@.len() ==> is_gibbs_run(seqs, k as nat, n as nat, #[trigger] runs_views(runs@)[j]),
        decreases iters - it,
    {
        let m = gibbs_sampler_iteration(dnas, k, t, n);
        let ghost before = runs_views(runs@);
        runs.push(m);
        assert(runs_views(runs@) =~= before.push(views(m@)));
        it = it + 1;
    }
    proof {
        assert forall|j: int| 0 <= j < runs@.len() implies is_window_matrix(seqs, k as nat, #[trigger] runs_views(runs@)[j]) by {
            assert(is_gibbs_run(seqs, k as nat, n as nat, runs_views(runs@)[j]));
        }
        lemma_first_kmers_window_matrix(seqs, k as nat);
    }
    let best = best_scoring(dnas, k, &runs);
    proof {
        lemma_best_matrix(seqs, k as nat, first_kmers(seqs, k as nat), runs_views(runs@), iters as int);
    }
    Ok(best)
}

} // verus!
