//! DNA string over a nucleotide enumeration: every value holds valid letters by construction.
use vstd::prelude::*;
use vstd::string::StringSliceAdditionalSpecFns;
use vstd::utf8::decode_utf8;

use super::{complement_of, complement_seq, is_dna, is_nuc, lemma_dna_is_utf8, reverse_complement_seq, utf8_to_string};
use crate::seq::{find_by, num_windows, window};

verus! {

/// Nucleic acid code.
#[derive(Copy, Clone, PartialOrd, PartialEq, Eq, Ord, Debug, Structural)]
pub enum Nuc {
    A,
    C,
    G,
    T,
}

/// The letter of a nucleotide.
pub open spec fn nuc_byte(n: Nuc) -> u8 {
    match n {
        Nuc::A => super::A,
        Nuc::C => super::C,
        Nuc::G => super::G,
        Nuc::T => super::T,
    }
}

/// The letters of a sequence of nucleotides.
pub open spec fn nuc_bytes(s: Seq<Nuc>) -> Seq<u8> {
    s.map_values(|n: Nuc| nuc_byte(n))
}

proof fn lemma_nuc_bytes_dna(s: Seq<Nuc>)
    ensures
        is_dna(nuc_bytes(s)),
{
    assert forall|i: int| 0 <= i < nuc_bytes(s).len() implies is_nuc(#[trigger] nuc_bytes(s)[i]) by {
        assert(nuc_bytes(s)[i] == nuc_byte(s[i]));
    }
}

impl Nuc {
    pub fn to_utf8(nuc: Nuc) -> (r: u8)
        ensures
            r == nuc_byte(nuc),
    {
        match nuc {
            Nuc::A => super::A,
            Nuc::C => super::C,
            Nuc::G => super::G,
            Nuc::T => super::T,
        }
    }

    /// The nucleotide of a letter, which must be one of A, C, G and T.
    pub fn from_utf8(x: u8) -> (r: Nuc)
        requires
            is_nuc(x),
        ensures
            nuc_byte(r) == x,
    {
        if x == super::A {
            Nuc::A
        } else if x == super::C {
            Nuc::C
        } else if x == super::G {
            Nuc::G
        } else {
            Nuc::T
        }
    }

    /// The nucleotide of a letter the caller vouches is one of A, C, G and T.
    pub fn from_utf8_unchecked(x: u8) -> (r: Nuc)
        requires
            is_nuc(x),
        ensures
            nuc_byte(r) == x,
    {
        Nuc::from_utf8(x)
    }

    pub fn complement(nuc: Nuc) -> (r: Nuc)
        ensures
            nuc_byte(r) == complement_of(nuc_byte(nuc)),
    {
        match nuc {
            Nuc::A => Nuc::T,
            Nuc::T => Nuc::A,
            Nuc::G => Nuc::C,
            Nuc::C => Nuc::G,
        }
    }
}

/// DNA string held as nucleotides.
#[derive(PartialOrd, PartialEq, Eq, Ord, Debug)]
pub struct Dna {
    vec: Vec<Nuc>,
}

impl View for Dna {
    type V = Seq<u8>;

    closed spec fn view(&self) -> Seq<u8> {
        nuc_bytes(self.vec@)
    }
}

impl Dna {
    /// Every letter of a value is a nucleotide letter.
    pub proof fn lemma_valid(&self)
        ensures
            is_dna(self@),
    {
        lemma_nuc_bytes_dna(self.vec@);
    }

    /// Reads letters, which must all be A, C, G or T.
    pub fn from_slice(s: &[u8]) -> (r: Dna)
        requires
            is_dna(s@),
        ensures
            r@ == s@,
    {
        let mut vec: Vec<Nuc> = Vec::new();
        let mut i: usize = 0;
        while i < s.len()
            invariant
                is_dna(s@),
                i <= s@.len(),
                nuc_bytes(vec@) =~= s@.subrange(0, i as int),
            decreases s@.len() - i,
        {
            let x = Nuc::from_utf8(s[i]);
            let ghost before = vec@;
            vec.push(x);
            assert(nuc_bytes(vec@) =~= nuc_bytes(before).push(nuc_byte(x)));
            i = i + 1;
        }
        assert(s@.subrange(0, s@.len() as int) =~= s@);
        Dna { vec }
    }

    /// Reads letters that the caller vouches are all A, C, G or T.
    pub fn from_slice_unchecked(s: &[u8]) -> (r: Dna)
        requires
            is_dna(s@),
        ensures
            r@ == s@,
    {
        Dna::from_slice(s)
    }

    /// Reads the letters of `s`, which must all be A, C, G or T.
    pub fn from_str(s: &str) -> (r: Dna)
        requires
            is_dna(s.spec_bytes()),
        ensures
            r@ == s.spec_bytes(),
    {
        Dna::from_slice(s.as_bytes())
    }

    /// Reads the letters of `s`, which the caller vouches are all A, C, G or T.
    pub fn from_str_unchecked(s: &str) -> (r: Dna)
        requires
            is_dna(s.spec_bytes()),
        ensures
            r@ == s.spec_bytes(),
    {
        Dna::from_slice(s.as_bytes())
    }

    fn as_slice(&self) -> (r: &[Nuc])
        ensures
            nuc_bytes(r@) == self@,
    {
        self.vec.as_slice()
    }

    pub fn to_utf8(&self) -> (r: Vec<u8>)
        ensures
            r@ == self@,
    {
        let mut out: Vec<u8> = Vec::new();
        let mut i: usize = 0;
        while i < self.vec.len()
            invariant
                i <= self.vec@.len(),
                out@ =~= nuc_bytes(self.vec@).subrange(0, i as int),
            decreases self.vec@.len() - i,
        {
            out.push(Nuc::to_utf8(self.vec[i]));
            i = i + 1;
        }
        assert(nuc_bytes(self.vec@).subrange(0, self.vec@.len() as int) =~= nuc_bytes(self.vec@));
        out
    }

    /// The letters of the string; the same as `to_utf8`.
    pub fn to_utf8_unchecked(&self) -> (r: Vec<u8>)
        ensures
            r@ == self@,
    {
        self.to_utf8()
    }

    pub fn to_string(&self) -> (r: String)
        ensures
            r@ == decode_utf8(self@),
    {
        let bytes = self.to_utf8();
        proof {
            self.lemma_valid();
            lemma_dna_is_utf8(self@);
        }
        utf8_to_string(bytes)
    }

    pub fn to_string_unchecked(&self) -> (r: String)
        ensures
            r@ == decode_utf8(self@),
    {
        self.to_string()
    }

    pub fn len(&self) -> (r: usize)
        ensures
            r == self@.len(),
    {
        self.vec.len()
    }

    pub fn complement(&self) -> (r: Dna)
        ensures
            r@ == complement_seq(self@),
    {
        let mut out: Vec<Nuc> = Vec::new();
        let mut i: usize = 0;
        while i < self.vec.len()
            invariant
                i <= self.vec@.len(),
                nuc_bytes(out@) =~= complement_seq(nuc_bytes(self.vec@)).subrange(0, i as int),
            decreases self.vec@.len() - i,
        {
            let x = Nuc::complement(self.vec[i]);
            let ghost before = out@;
            out.push(x);
            assert(nuc_bytes(out@) =~= nuc_bytes(before).push(nuc_byte(x)));
            assert(nuc_bytes(self.vec@)[i as int] == nuc_byte(self.vec@[i as int]));
            i = i + 1;
        }
        assert(complement_seq(nuc_bytes(self.vec@)).subrange(0, self.vec@.len() as int) =~= complement_seq(nuc_bytes(self.vec@)));
        Dna { vec: out }
    }

    pub fn reverse(&mut self)
        ensures
            final(self)@ == old(self)@.reverse(),
    {
        let n = self.vec.len();
        let mut out: Vec<Nuc> = Vec::new();
        let mut i: usize = 0;
        while i < n
            invariant
                n == self.vec@.len(),
                self.vec@ == old(self).vec@,
                i <= n,
                out@ =~= old(self).vec@.reverse().subrange(0, i as int),
            decreases n - i,
        {
            out.push(self.vec[n - 1 - i]);
            i = i + 1;
        }
        self.vec = out;
        assert(self.vec@ =~= old(self).vec@.reverse());
        assert(nuc_bytes(self.vec@) =~= nuc_bytes(old(self).vec@).reverse());
    }

    pub fn reverse_complement(&self) -> (r: Dna)
        ensures
            r@ == reverse_complement_seq(self@),
    {
        let mut comp = self.complement();
        comp.reverse();
        comp
    }

    /// Windows of the pattern's length that `p` accepts: their start indices and the windows.
    pub fn find<'a, F>(&'a self, pattern: &Dna, p: F) -> (r: (Vec<usize>, Vec<&'a [Nuc]>)) where
        F: Fn(&[Nuc], &[Nuc]) -> bool,
        requires
            pattern@.len() > 0,
            forall|x: &[Nuc], y: &[Nuc]| #[trigger] p.requires((x, y)),
        ensures
            r.0@.len() == r.1@.len(),
            forall|j: int, l: int| 0 <= j < l < r.0@.len() ==> r.0@[j] < r.0@[l],
            forall|j: int|
                #![trigger r.1@[j]]
                0 <= j < r.0@.len() ==> (r.0@[j] as int) < num_windows(
                    self@.len() as int,
                    pattern@.len() as int,
                ) && nuc_bytes(r.1@[j]@) == window(self@, r.0@[j] as int, pattern@.len() as int)
                    && exists|q: &[Nuc]| nuc_bytes(q@) == pattern@ && #[trigger] p.ensures((r.1@[j], q), true),
            forall|i: int|
                0 <= i < num_windows(self@.len() as int, pattern@.len() as int) && !#[trigger] r.0@.contains(
                    i as usize,
                ) ==> exists|w: &[Nuc], q: &[Nuc]|
                    nuc_bytes(w@) == window(self@, i, pattern@.len() as int) && nuc_bytes(q@) == pattern@
                        && #[trigger] p.ensures((w, q), false),
    {
        let text = self.vec.as_slice();
        let pat = pattern.vec.as_slice();
        let r = find_by(text, pat, p);
        proof {
            assert forall|j: int|
                #![trigger r.1@[j]]
                0 <= j < r.0@.len() implies exists|q: &[Nuc]| nuc_bytes(q@) == pattern@ && #[trigger] p.ensures((r.1@[j], q), true) by {
                assert(p.ensures((r.1@[j], pat), true));
            }
            assert forall|i: int|
                0 <= i < num_windows(self@.len() as int, pattern@.len() as int) && !#[trigger] r.0@.contains(
                    i as usize,
                ) implies exists|w: &[Nuc], q: &[Nuc]|
                    nuc_bytes(w@) == window(self@, i, pattern@.len() as int) && nuc_bytes(q@) == pattern@
                        && #[trigger] p.ensures((w, q), false) by {
                let w = choose|w: &[Nuc]| w@ == window(self.vec@, i, pattern@.len() as int) && #[trigger] p.ensures((w, pat), false);
                assert(nuc_bytes(w@) =~= window(self@, i, pattern@.len() as int));
                assert(p.ensures((w, pat), false));
            }
            assert forall|j: int|
                #![trigger r.1@[j]]
                0 <= j < r.0@.len() implies nuc_bytes(r.1@[j]@) == window(self@, r.0@[j] as int, pattern@.len() as int) by {
                assert(nuc_bytes(r.1@[j]@) =~= window(self@, r.0@[j] as int, pattern@.len() as int));
            }
        }
        r
    }
}

} // verus!
