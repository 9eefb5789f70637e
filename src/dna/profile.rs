//! Profile matrices of motif matrices, held as exact counts.
//!
//! A profile gives, for each nucleotide and column, the frequency of the
//! nucleotide in that column of a motif matrix. Frequencies are kept as a
//! numerator per cell over one common denominator, so that comparisons of
//! k-mer probabilities are exact: the probability of a k-mer is the product
//! of its numerators (its weight) over the denominator to the power k, and
//! the denominator is the same for every k-mer of one profile.
use vstd::arithmetic::power::{lemma_pow_increases, pow};
use vstd::prelude::*;

use super::dna_impl::Dna;
use super::{is_dna, is_nuc, A, C, G, T};
use crate::seq::{hamming, hamming_distance, mismatches, num_windows, window, lemma_mismatches_bound};

verus! {

/// How counts become frequencies.
#[derive(Clone, Copy, Debug, PartialEq, Eq, Structural)]
pub enum Smoothing {
    /// count / number of motifs
    Plain,
    /// (count + 1) / (2 * number of motifs), Laplace's rule of succession
    Laplace,
}

/// Errors of the motif-finding algorithms on malformed input.
#[derive(Clone, Copy, Debug, PartialEq, Eq, Structural)]
pub enum MotifError {
    /// No DNA strings were given.
    EmptyInput,
    /// The motifs of a profile differ in length.
    LengthMismatch,
    /// `k` is zero or longer than one of the DNA strings.
    InvalidLength,
    /// A DNA string holds a byte that is not a nucleotide letter.
    InvalidSymbol,
    /// Zero restarts were requested.
    NoRestarts,
    /// The number of strings given does not match the count parameter.
    CountMismatch,
}

/// The byte sequences of a slice of DNA strings.
pub open spec fn views(v: Seq<Dna>) -> Seq<Seq<u8>> {
    v.map_values(|d: Dna| d@)
}

/// Every motif has length `k`.
pub open spec fn is_motif_matrix(motifs: Seq<Seq<u8>>, k: nat) -> bool {
    forall|i: int| 0 <= i < motifs.len() ==> (#[trigger] motifs[i]).len() == k
}

/// Number of motifs among the first `n` whose symbol in column `col` is `sym`.
pub open spec fn count_upto(motifs: Seq<Seq<u8>>, sym: u8, col: int, n: int) -> nat
    decreases n,
{
    if n <= 0 {
        0
    } else {
        count_upto(motifs, sym, col, n - 1) + if motifs[n - 1][col] == sym {
            1nat
        } else {
            0nat
        }
    }
}

/// Number of motifs whose symbol in column `col` is `sym`.
pub open spec fn count(motifs: Seq<Seq<u8>>, sym: u8, col: int) -> nat {
    count_upto(motifs, sym, col, motifs.len() as int)
}

/// Numerator of the profile cell of `sym` in column `col`.
pub open spec fn numerator(motifs: Seq<Seq<u8>>, mode: Smoothing, sym: u8, col: int) -> nat {
    match mode {
        Smoothing::Plain => count(motifs, sym, col),
        Smoothing::Laplace => count(motifs, sym, col) + 1,
    }
}

/// Common denominator of the cells of a profile of `n` motifs.
pub open spec fn denominator(n: nat, mode: Smoothing) -> nat {
    match mode {
        Smoothing::Plain => n,
        Smoothing::Laplace => 2 * n,
    }
}

/// Product of the numerators of the first `n` symbols of `kmer`, each in its column.
pub open spec fn weight_upto(motifs: Seq<Seq<u8>>, mode: Smoothing, kmer: Seq<u8>, n: int) -> nat
    decreases n,
{
    if n <= 0 {
        1
    } else {
        weight_upto(motifs, mode, kmer, n - 1) * numerator(motifs, mode, kmer[n - 1], n - 1)
    }
}

/// Weight of `kmer` under the profile of `motifs`: its probability times the
/// denominator to the power of its length.
pub open spec fn kmer_weight(motifs: Seq<Seq<u8>>, mode: Smoothing, kmer: Seq<u8>) -> nat {
    weight_upto(motifs, mode, kmer, kmer.len() as int)
}

/// Index of the first window of length `k` of `s` of greatest weight among the first `n` windows.
pub open spec fn best_window_upto(
    motifs: Seq<Seq<u8>>,
    mode: Smoothing,
    s: Seq<u8>,
    k: int,
    n: int,
) -> int
    decreases n,
{
    if n <= 1 {
        0
    } else {
        let b = best_window_upto(motifs, mode, s, k, n - 1);
        if kmer_weight(motifs, mode, window(s, n - 1, k)) > kmer_weight(
            motifs,
            mode,
            window(s, b, k),
        ) {
            n - 1
        } else {
            b
        }
    }
}

/// The first k-mer of `s` of greatest probability under the profile of `motifs`.
pub open spec fn most_probable(motifs: Seq<Seq<u8>>, mode: Smoothing, s: Seq<u8>, k: int) -> Seq<u8> {
    window(s, best_window_upto(motifs, mode, s, k, num_windows(s.len() as int, k)), k)
}

/// The most popular of four counts, in the order A, C, G, T; ties go to the earlier one.
pub open spec fn popular(ca: nat, cc: nat, cg: nat, ct: nat) -> u8 {
    if ca >= cc && ca >= cg && ca >= ct {
        A
    } else if cc >= cg && cc >= ct {
        C
    } else if cg >= ct {
        G
    } else {
        T
    }
}

/// Consensus string of a motif matrix: the most popular nucleotide of each column.
pub open spec fn consensus_spec(motifs: Seq<Seq<u8>>) -> Seq<u8> {
    Seq::new(
        motifs[0].len(),
        |i: int|
            popular(count(motifs, A, i), count(motifs, C, i), count(motifs, G, i), count(motifs, T, i)),
    )
}

/// Sum of the Hamming distances of the first `n` motifs to `c`.
pub open spec fn sum_distances(motifs: Seq<Seq<u8>>, c: Seq<u8>, n: int) -> nat
    decreases n,
{
    if n <= 0 {
        0
    } else {
        sum_distances(motifs, c, n - 1) + hamming(motifs[n - 1], c)
    }
}

/// Score of a motif matrix: the sum of the Hamming distances of its motifs to its consensus.
pub open spec fn score_spec(motifs: Seq<Seq<u8>>) -> nat {
    sum_distances(motifs, consensus_spec(motifs), motifs.len() as int)
}

pub proof fn lemma_count_bound(motifs: Seq<Seq<u8>>, sym: u8, col: int, n: int)
    requires
        0 <= n,
    ensures
        count_upto(motifs, sym, col, n) <= n,
    decreases n,
{
    if n > 0 {
        lemma_count_bound(motifs, sym, col, n - 1);
    }
}

/// In a plain profile of DNA motifs, the numerators of a column add up to the
/// denominator: every column's frequencies sum to one.
pub proof fn lemma_plain_column_sum(motifs: Seq<Seq<u8>>, col: int)
    requires
        forall|i: int| 0 <= i < motifs.len() ==> is_dna(#[trigger] motifs[i]),
        0 <= col,
        forall|i: int| 0 <= i < motifs.len() ==> col < (#[trigger] motifs[i]).len(),
    ensures
        numerator(motifs, Smoothing::Plain, A, col) + numerator(motifs, Smoothing::Plain, C, col)
            + numerator(motifs, Smoothing::Plain, G, col) + numerator(motifs, Smoothing::Plain, T, col)
            == denominator(motifs.len(), Smoothing::Plain),
{
    lemma_column_sum_upto(motifs, col, motifs.len() as int);
}

proof fn lemma_column_sum_upto(motifs: Seq<Seq<u8>>, col: int, n: int)
    requires
        0 <= n <= motifs.len(),
        forall|i: int| 0 <= i < motifs.len() ==> is_dna(#[trigger] motifs[i]),
        0 <= col,
        forall|i: int| 0 <= i < motifs.len() ==> col < (#[trigger] motifs[i]).len(),
    ensures
        count_upto(motifs, A, col, n) + count_upto(motifs, C, col, n) + count_upto(motifs, G, col, n)
            + count_upto(motifs, T, col, n) == n,
    decreases n,
{
    if n > 0 {
        lemma_column_sum_upto(motifs, col, n - 1);
        let m = motifs[n - 1];
        assert(is_nuc(m[col]));
    }
}

/// Score of a motif matrix is zero exactly when every motif equals the consensus.
pub proof fn lemma_score_zero_iff_consensus(motifs: Seq<Seq<u8>>)
    requires
        motifs.len() > 0,
        is_motif_matrix(motifs, motifs[0].len()),
    ensures
        score_spec(motifs) == 0 <==> forall|i: int|
            0 <= i < motifs.len() ==> #[trigger] motifs[i] == consensus_spec(motifs),
{
    lemma_sum_distances_zero(motifs, consensus_spec(motifs), motifs.len() as int);
}

proof fn lemma_sum_distances_zero(motifs: Seq<Seq<u8>>, c: Seq<u8>, n: int)
    requires
        0 <= n <= motifs.len(),
        forall|i: int| 0 <= i < motifs.len() ==> (#[trigger] motifs[i]).len() == c.len(),
    ensures
        sum_distances(motifs, c, n) == 0 <==> forall|i: int| 0 <= i < n ==> #[trigger] motifs[i] == c,
    decreases n,
{
    if n > 0 {
        lemma_sum_distances_zero(motifs, c, n - 1);
        crate::seq::lemma_hamming_zero_iff_equal(motifs[n - 1], c);
    }
}

proof fn lemma_sum_distances_bound(motifs: Seq<Seq<u8>>, c: Seq<u8>, n: int, k: nat)
    requires
        0 <= n <= motifs.len(),
        forall|i: int| 0 <= i < motifs.len() ==> (#[trigger] motifs[i]).len() == k,
    ensures
        sum_distances(motifs, c, n) <= n * k,
    decreases n,
{
    if n > 0 {
        lemma_sum_distances_bound(motifs, c, n - 1, k);
        lemma_mismatches_bound(motifs[n - 1], c, k as int);
        assert((n - 1) * k + k == n * k) by (nonlinear_arith);
    }
}

/// The score of a motif matrix of `n` motifs of length `k` lies between 0 and `n * k`.
pub proof fn lemma_score_bounds(motifs: Seq<Seq<u8>>)
    requires
        motifs.len() > 0,
        is_motif_matrix(motifs, motifs[0].len()),
    ensures
        0 <= score_spec(motifs) <= motifs.len() * motifs[0].len(),
{
    lemma_sum_distances_bound(motifs, consensus_spec(motifs), motifs.len() as int, motifs[0].len());
}

/// A profile matrix built from a motif matrix.
pub struct Profile {
    a: Vec<u128>,
    c: Vec<u128>,
    g: Vec<u128>,
    t: Vec<u128>,
    total: u128,
    mode: Smoothing,
    source: Ghost<Seq<Seq<u8>>>,
}

impl Profile {
    /// The motif matrix the profile was built from.
    pub closed spec fn motifs(&self) -> Seq<Seq<u8>> {
        self.source@
    }

    pub closed spec fn smoothing(&self) -> Smoothing {
        self.mode
    }

    /// Number of columns.
    pub closed spec fn width(&self) -> nat {
        self.a@.len()
    }

    pub closed spec fn wf(&self) -> bool {
        let m = self.source@;
        &&& m.len() > 0
        &&& is_motif_matrix(m, self.a@.len())
        &&& self.c@.len() == self.a@.len()
        &&& self.g@.len() == self.a@.len()
        &&& self.t@.len() == self.a@.len()
        &&& self.total as nat == denominator(m.len(), self.mode)
        &&& forall|col: int|
            0 <= col < self.a@.len() ==> {
                &&& self.a@[col] as nat == numerator(m, self.mode, A, col)
                &&& self.c@[col] as nat == numerator(m, self.mode, C, col)
                &&& self.g@[col] as nat == numerator(m, self.mode, G, col)
                &&& self.t@[col] as nat == numerator(m, self.mode, T, col)
            }
    }

    /// Row of numerators of nucleotide `n`.
    fn vector(n: u8, motifs: &[Dna], mode: Smoothing) -> (r: Vec<u128>)
        requires
            motifs@.len() > 0,
            is_motif_matrix(views(motifs@), motifs@[0]@.len()),
        ensures
            r@.len() == motifs@[0]@.len(),
            forall|col: int| 0 <= col < r@.len() ==> r@[col] as nat == numerator(views(motifs@), mode, n, col),
    {
        let ghost m = views(motifs@);
        let k = motifs[0].len();
        let mut profile: Vec<u128> = Vec::new();
        let mut i: usize = 0;
        while i < k
            invariant
                i <= k,
                profile@.len() == i,
                forall|col: int| 0 <= col < i ==> profile@[col] == 0,
            decreases k - i,
        {
            profile.push(0);
            i = i + 1;
        }
        let mut mi: usize = 0;
        while mi < motifs.len()
            invariant
                m == views(motifs@),
                motifs@.len() > 0,
                k == motifs@[0]@.len(),
                is_motif_matrix(m, k as nat),
                mi <= motifs@.len(),
                profile@.len() == k,
                forall|col: int| 0 <= col < k ==> profile@[col] as nat == count_upto(m, n, col, mi as int),
            decreases motifs@.len() - mi,
        {
            let motif = motifs[mi].as_slice();
            assert(m[mi as int] == motifs@[mi as int]@);
            let mut col: usize = 0;
            while col < k
                invariant
                    m == views(motifs@),
                    k == motifs@[0]@.len(),
                    is_motif_matrix(m, k as nat),
                    mi < motifs@.len(),
                    motif@ == m[mi as int],
                    col <= k,
                    profile@.len() == k,
                    forall|c: int|
                        0 <= c < k ==> profile@[c] as nat == if c < col {
                            count_upto(m, n, c, mi + 1)
                        } else {
                            count_upto(m, n, c, mi as int)
                        },
                decreases k - col,
            {
                proof {
                    lemma_count_bound(m, n, col as int, mi as int);
                }
                if motif[col] == n {
                    let v = profile[col] + 1;
                    profile.set(col, v);
                }
                col = col + 1;
            }
            mi = mi + 1;
        }
        if mode == Smoothing::Laplace {
            assert forall|c: int| 0 <= c < k implies count(m, n, c) <= motifs@.len() by {
                lemma_count_bound(m, n, c, motifs@.len() as int);
            }
            let nm = motifs.len();
            let mut col: usize = 0;
            while col < k
                invariant
                    m == views(motifs@),
                    nm == motifs@.len(),
                    mode == Smoothing::Laplace,
                    col <= k,
                    profile@.len() == k,
                    forall|c: int|
                        0 <= c < k ==> profile@[c] as nat == if c < col {
                            count(m, n, c) + 1
                        } else {
                            count(m, n, c)
                        },
                    forall|c: int| 0 <= c < k ==> count(m, n, c) <= motifs@.len(),
                decreases k - col,
            {
                let v = profile[col] + 1;
                profile.set(col, v);
                col = col + 1;
            }
        }
        profile
    }

    /// Builds the profile of `motifs` with plain frequencies.
    pub fn from_motifs(motifs: &[Dna]) -> (r: Result<Profile, MotifError>)
        ensures
            motifs@.len() == 0 ==> r == Err::<Profile, MotifError>(MotifError::EmptyInput),
            motifs@.len() > 0 && !is_motif_matrix(views(motifs@), motifs@[0]@.len()) ==> r
                == Err::<Profile, MotifError>(MotifError::LengthMismatch),
            motifs@.len() > 0 && is_motif_matrix(views(motifs@), motifs@[0]@.len()) ==> (r matches Ok(p)
                && p.wf() && p.motifs() == views(motifs@) && p.smoothing() == Smoothing::Plain
                && p.width() == motifs@[0]@.len()),
    {
        Profile::build(motifs, Smoothing::Plain)
    }

    /// Builds the profile of `dnas`: for each nucleotide and column, the count of
    /// the nucleotide in that column, turned into a frequency as `mode` says.
    pub fn build(dnas: &[Dna], mode: Smoothing) -> (r: Result<Profile, MotifError>)
        ensures
            dnas@.len() == 0 ==> r == Err::<Profile, MotifError>(MotifError::EmptyInput),
            dnas@.len() > 0 && !is_motif_matrix(views(dnas@), dnas@[0]@.len()) ==> r == Err::<
                Profile,
                MotifError,
            >(MotifError::LengthMismatch),
            dnas@.len() > 0 && is_motif_matrix(views(dnas@), dnas@[0]@.len()) ==> (r matches Ok(p)
                && p.wf() && p.motifs() == views(dnas@) && p.smoothing() == mode && p.width()
                == dnas@[0]@.len()),
    {
        if dnas.len() == 0 {
            return Err(MotifError::EmptyInput);
        }
        let k = dnas[0].len();
        let mut i: usize = 0;
        while i < dnas.len()
            invariant
                dnas@.len() > 0,
                k == dnas@[0]@.len(),
                i <= dnas@.len(),
                forall|j: int| 0 <= j < i ==> (#[trigger] views(dnas@)[j]).len() == k,
            decreases dnas@.len() - i,
        {
            if dnas[i].len() != k {
                assert(views(dnas@)[i as int].len() != k);
                return Err(MotifError::LengthMismatch);
            }
            i = i + 1;
        }
        let n = dnas.len() as u128;
        let total = match mode {
            Smoothing::Plain => n,
            Smoothing::Laplace => 2 * n,
        };
        let pa = Profile::vector(A, dnas, mode);
        let pc = Profile::vector(C, dnas, mode);
        let pg = Profile::vector(G, dnas, mode);
        let pt = Profile::vector(T, dnas, mode);
        Ok(Profile { a: pa, c: pc, g: pg, t: pt, total, mode, source: Ghost(views(dnas@)) })
    }

    /// Number of columns.
    pub fn len(&self) -> (r: usize)
        ensures
            r == self.width(),
    {
        self.a.len()
    }

    /// Numerator of the cell of nucleotide `nuc` in column `i`.
    pub fn value(&self, nuc: u8, i: usize) -> (r: u128)
        requires
            self.wf(),
            is_nuc(nuc),
            i < self.width(),
        ensures
            r as nat == numerator(self.motifs(), self.smoothing(), nuc, i as int),
    {
        if nuc == A {
            self.a[i]
        } else if nuc == C {
            self.c[i]
        } else if nuc == G {
            self.g[i]
        } else {
            self.t[i]
        }
    }

    /// Common denominator of the cells.
    pub fn denominator(&self) -> (r: u128)
        requires
            self.wf(),
        ensures
            r as nat == denominator(self.motifs().len(), self.smoothing()),
    {
        self.total
    }

    /// Most popular nucleotide in column `i`; ties go to the earlier of A, C, G, T.
    pub fn most_popular(&self, i: usize) -> (r: u8)
        requires
            self.wf(),
            i < self.width(),
        ensures
            r == popular(
                numerator(self.motifs(), self.smoothing(), A, i as int),
                numerator(self.motifs(), self.smoothing(), C, i as int),
                numerator(self.motifs(), self.smoothing(), G, i as int),
                numerator(self.motifs(), self.smoothing(), T, i as int),
            ),
    {
        let (ca, cc, cg, ct) = (self.a[i], self.c[i], self.g[i], self.t[i]);
        if ca >= cc && ca >= cg && ca >= ct {
            A
        } else if cc >= cg && cc >= ct {
            C
        } else if cg >= ct {
            G
        } else {
            T
        }
    }
}

/// Every numerator of a profile of `motifs` is at most one more than the number of motifs.
pub proof fn lemma_numerator_bound(motifs: Seq<Seq<u8>>, mode: Smoothing, sym: u8, col: int)
    ensures
        numerator(motifs, mode, sym, col) <= motifs.len() + 1,
{
    lemma_count_bound(motifs, sym, col, motifs.len() as int);
}

/// Weight of the k-mer `dna` under the profile `p`: the product of the
/// numerators of its symbols, each in its column.
pub fn probability(dna: &[u8], p: &Profile) -> (r: u128)
    requires
        p.wf(),
        dna@.len() == p.width(),
        is_dna(dna@),
        pow(p.motifs().len() + 1 as int, dna@.len()) <= u128::MAX,
    ensures
        r as nat == kmer_weight(p.motifs(), p.smoothing(), dna@),
{
    let ghost b: nat = p.motifs().len() + 1;
    let mut acc: u128 = 1;
    let mut i: usize = 0;
    proof {
        reveal(pow);
    }
    while i < dna.len()
        invariant
            p.wf(),
            dna@.len() == p.width(),
            is_dna(dna@),
            b == p.motifs().len() + 1,
            pow(b as int, dna@.len()) <= u128::MAX,
            i <= dna@.len(),
            acc as nat == weight_upto(p.motifs(), p.smoothing(), dna@, i as int),
            acc <= pow(b as int, i as nat),
        decreases dna@.len() - i,
    {
        let v = p.value(dna[i], i);
        proof {
            lemma_numerator_bound(p.motifs(), p.smoothing(), dna@[i as int], i as int);
            lemma_pow_increases(b, (i + 1) as nat, dna@.len());
            reveal(pow);
            assert(pow(b as int, (i + 1) as nat) == b * pow(b as int, i as nat));
            assert(acc * v <= pow(b as int, i as nat) * b) by (nonlinear_arith)
                requires
                    acc <= pow(b as int, i as nat),
                    v <= b,
                    acc >= 0,
                    v >= 0,
            ;
            assert(pow(b as int, i as nat) * b == b * pow(b as int, i as nat)) by (nonlinear_arith);
            assert(pow(b as int, (i + 1) as nat) <= pow(b as int, dna@.len()));
            assert(acc * v <= u128::MAX);
        }
        acc = acc * v;
        i = i + 1;
    }
    acc
}

/// The first k-mer of `dna` of greatest probability under `p`, with its weight.
pub fn most_probable_kmer(dna: &Dna, k: usize, p: &Profile) -> (r: (u128, Dna))
    requires
        p.wf(),
        k == p.width(),
        1 <= k <= dna@.len(),
        is_dna(dna@),
        pow(p.motifs().len() + 1 as int, k as nat) <= u128::MAX,
    ensures
        r.1@ == most_probable(p.motifs(), p.smoothing(), dna@, k as int),
        r.0 as nat == kmer_weight(p.motifs(), p.smoothing(), r.1@),
{
    let ghost m = p.motifs();
    let ghost mode = p.smoothing();
    let n = dna.len() - k + 1;
    let first = dna.kmer(k, 0);
    proof {
        assert forall|j: int| 0 <= j < first@.len() implies is_nuc(#[trigger] first@[j]) by {
            assert(first@[j] == dna@[j]);
        }
    }
    let mut best_w = probability(first, p);
    let mut best_i: usize = 0;
    let mut i: usize = 1;
    while i < n
        invariant
            p.wf(),
            m == p.motifs(),
            mode == p.smoothing(),
            k == p.width(),
            1 <= k <= dna@.len(),
            n == num_windows(dna@.len() as int, k as int),
            is_dna(dna@),
            pow(m.len() + 1 as int, k as nat) <= u128::MAX,
            1 <= i <= n,
            best_i as int == best_window_upto(m, mode, dna@, k as int, i as int),
            best_i < i,
            best_w as nat == kmer_weight(m, mode, window(dna@, best_i as int, k as int)),
        decreases n - i,
    {
        let kmer = dna.kmer(k, i);
        proof {
            assert forall|j: int| 0 <= j < kmer@.len() implies is_nuc(#[trigger] kmer@[j]) by {
                assert(kmer@[j] == dna@[i + j]);
            }
        }
        let w = probability(kmer, p);
        if w > best_w {
            best_w = w;
            best_i = i;
        }
        i = i + 1;
    }
    (best_w, Dna::from_slice(dna.kmer(k, best_i)))
}

/// Consensus string of `motifs`: the most popular nucleotide of each column of
/// their plain profile.
pub fn consensus(motifs: &[Dna]) -> (r: Dna)
    requires
        motifs@.len() > 0,
        is_motif_matrix(views(motifs@), motifs@[0]@.len()),
    ensures
        r@ == consensus_spec(views(motifs@)),
{
    let mut vec: Vec<u8> = Vec::new();
    match Profile::from_motifs(motifs) {
        Ok(p) => {
            let n = p.len();
            let mut i: usize = 0;
            while i < n
                invariant
                    p.wf(),
                    p.motifs() == views(motifs@),
                    p.smoothing() == Smoothing::Plain,
                    n == p.width(),
                    n == motifs@[0]@.len(),
                    i <= n,
                    vec@ =~= consensus_spec(views(motifs@)).subrange(0, i as int),
                decreases n - i,
            {
                let s = p.most_popular(i);
                vec.push(s);
                i = i + 1;
            }
        },
        Err(_) => {},
    }
    Dna::new(vec)
}

/// Score of `motifs`: the sum of the Hamming distances of the motifs to their consensus.
pub fn score(motifs: &[Dna]) -> (r: usize)
    requires
        motifs@.len() > 0,
        is_motif_matrix(views(motifs@), motifs@[0]@.len()),
        motifs@.len() * motifs@[0]@.len() <= usize::MAX,
    ensures
        r == score_spec(views(motifs@)),
{
    let ghost m = views(motifs@);
    let c = consensus(motifs);
    let k = c.len();
    let mut acc: usize = 0;
    let mut i: usize = 0;
    while i < motifs.len()
        invariant
            m == views(motifs@),
            motifs@.len() > 0,
            is_motif_matrix(m, k as nat),
            k == motifs@[0]@.len(),
            c@ == consensus_spec(m),
            motifs@.len() * k <= usize::MAX,
            i <= motifs@.len(),
            acc == sum_distances(m, c@, i as int),
            acc <= i * k,
        decreases motifs@.len() - i,
    {
        assert(m[i as int] == motifs@[i as int]@);
        let h = hamming_distance(motifs[i].as_slice(), c.as_slice());
        proof {
            lemma_mismatches_bound(m[i as int], c@, k as int);
            assert((i + 1) * k <= motifs@.len() * k) by (nonlinear_arith)
                requires
                    i + 1 <= motifs@.len(),
            ;
            assert((i + 1) * k == i * k + k) by (nonlinear_arith);
        }
        acc = acc + h;
        i = i + 1;
    }
    acc
}

} // verus!
