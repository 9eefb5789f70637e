//! DNA string over a byte vector.
use vstd::prelude::*;
use vstd::slice::slice_to_vec;
use vstd::string::StringSliceAdditionalSpecFns;
use vstd::utf8::{decode_utf8, encode_utf8, valid_utf8};

use super::{complement, complement_seq, is_dna, is_nuc, reverse_complement_seq, utf8_as_str, utf8_to_string};
use crate::seq::{find_by, num_windows, window};

verus! {

/// DNA string held as a byte vector. Construction from text by `parse_from_str`
/// checks the alphabet; the other constructors take the bytes as they are.
#[derive(Debug, PartialEq, Eq, PartialOrd, Ord, Hash, Clone)]
pub struct Dna {
    vec: Vec<u8>,
}

impl View for Dna {
    type V = Seq<u8>;

    closed spec fn view(&self) -> Seq<u8> {
        self.vec@
    }
}

/// Length of the longest prefix of `s` made of nucleotide letters.
pub open spec fn valid_prefix_len(s: Seq<u8>, e: int) -> bool {
    0 <= e < s.len() && !is_nuc(s[e]) && forall|j: int| 0 <= j < e ==> is_nuc(#[trigger] s[j])
}

impl Dna {
    pub fn new(vec: Vec<u8>) -> (r: Dna)
        ensures
            r@ == vec@,
    {
        Dna { vec }
    }

    pub fn from_slice(s: &[u8]) -> (r: Dna)
        ensures
            r@ == s@,
    {
        Dna { vec: slice_to_vec(s) }
    }

    /// Parses `s`, which must consist of the letters A, C, G and T only.
    pub fn parse_from_str(s: &str) -> (r: Result<Dna, AsciiError>)
        ensures
            r is Ok <==> is_dna(s.spec_bytes()),
            r matches Ok(d) ==> d@ == s.spec_bytes(),
            r matches Err(e) ==> valid_prefix_len(s.spec_bytes(), e@ as int),
    {
        let bytes = s.as_bytes();
        let mut i: usize = 0;
        while i < bytes.len()
            invariant
                bytes@ == s.spec_bytes(),
                i <= bytes@.len(),
                forall|j: int| 0 <= j < i ==> is_nuc(#[trigger] bytes@[j]),
            decreases bytes@.len() - i,
        {
            let b = bytes[i];
            if !(b == super::A || b == super::C || b == super::G || b == super::T) {
                return Err(AsciiError { valid_up_to: i });
            }
            i = i + 1;
        }
        Ok(Dna::from_slice(bytes))
    }

    /// Takes the bytes of `s` as they are.
    pub fn from_str(s: &str) -> (r: Dna)
        ensures
            r@ == s.spec_bytes(),
    {
        Dna::from_slice(s.as_bytes())
    }

    /// Takes the bytes of `s` as they are; the caller vouches for the alphabet.
    pub fn from_str_unchecked(s: &str) -> (r: Dna)
        ensures
            r@ == s.spec_bytes(),
    {
        Dna::from_slice(s.as_bytes())
    }

    pub fn from_string(s: String) -> (r: Dna)
        ensures
            r@ == encode_utf8(s@),
    {
        Dna::from_slice(s.as_str().as_bytes())
    }

    pub fn to_string(self) -> (r: String)
        requires
            valid_utf8(self@),
        ensures
            r@ == decode_utf8(self@),
    {
        utf8_to_string(self.vec)
    }

    pub fn as_str(&self) -> (r: &str)
        requires
            valid_utf8(self@),
        ensures
            r@ == decode_utf8(self@),
    {
        utf8_as_str(self.vec.as_slice())
    }

    pub fn as_slice(&self) -> (r: &[u8])
        ensures
            r@ == self@,
    {
        self.vec.as_slice()
    }

    pub fn len(&self) -> (r: usize)
        ensures
            r == self@.len(),
    {
        self.vec.len()
    }

    /// A copy of this string.
    pub fn copy(&self) -> (r: Dna)
        ensures
            r@ == self@,
    {
        Dna { vec: slice_to_vec(self.vec.as_slice()) }
    }

    /// The k-mer of length `k` that starts at index `i`.
    pub fn kmer(&self, k: usize, i: usize) -> (r: &[u8])
        requires
            i + k <= self@.len(),
        ensures
            r@ == window(self@, i as int, k as int),
    {
        let s = self.vec.as_slice();
        let _n = s.len();
        &s[i..i + k]
    }

    /// Replaces every nucleotide by its complement.
    pub fn complement(&mut self)
        ensures
            final(self)@ == complement_seq(old(self)@),
    {
        let mut i: usize = 0;
        while i < self.vec.len()
            invariant
                i <= self.vec@.len(),
                self.vec@.len() == old(self).vec@.len(),
                forall|j: int|
                    0 <= j < self.vec@.len() ==> #[trigger] self.vec@[j] == if j < i {
                        super::complement_of(old(self).vec@[j])
                    } else {
                        old(self).vec@[j]
                    },
            decreases self.vec@.len() - i,
        {
            let c = complement(self.vec[i]);
            self.vec.set(i, c);
            i = i + 1;
        }
        assert(self.vec@ =~= complement_seq(old(self).vec@));
    }

    /// Reverses the string in place.
    pub fn reverse(&mut self)
        ensures
            final(self)@ == old(self)@.reverse(),
    {
        let n = self.vec.len();
        let mut out: Vec<u8> = Vec::new();
        let mut i: usize = 0;
        while i < n
            invariant
                n == self.vec@.len(),
                self.vec@ == old(self).vec@,
                i <= n,
                out@ =~= old(self).vec@.reverse().subrange(0, i as int),
            decreases n - i,
        {
            out.push(self.vec[n - 1 - i]);
            i = i + 1;
        }
        self.vec = out;
        assert(self.vec@ =~= old(self).vec@.reverse());
    }

    /// Reverse complement: the complement, read backwards.
    pub fn reverse_complement(&self) -> (r: Dna)
        ensures
            r@ == reverse_complement_seq(self@),
    {
        let mut dna = self.copy();
        dna.complement();
        dna.reverse();
        dna
    }

    /// Windows of this string of the pattern's length that `compare` accepts:
    /// their start indices and the windows themselves.
    pub fn find<'a, F>(&'a self, pattern: &Dna, compare: F) -> (r: (Vec<usize>, Vec<&'a [u8]>)) where
        F: Fn(&[u8], &[u8]) -> bool,
        requires
            pattern@.len() > 0,
            forall|x: &[u8], y: &[u8]| #[trigger] compare.requires((x, y)),
        ensures
            r.0@.len() == r.1@.len(),
            forall|j: int, l: int| 0 <= j < l < r.0@.len() ==> r.0@[j] < r.0@[l],
            forall|j: int|
                #![trigger r.1@[j]]
                0 <= j < r.0@.len() ==> (r.0@[j] as int) < num_windows(
                    self@.len() as int,
                    pattern@.len() as int,
                ) && r.1@[j]@ == window(self@, r.0@[j] as int, pattern@.len() as int)
                    && exists|p: &[u8]| p@ == pattern@ && #[trigger] compare.ensures((r.1@[j], p), true),
            forall|i: int|
                0 <= i < num_windows(self@.len() as int, pattern@.len() as int) && !#[trigger] r.0@.contains(
                    i as usize,
                ) ==> exists|w: &[u8], p: &[u8]|
                    w@ == window(self@, i, pattern@.len() as int) && p@ == pattern@
                        && #[trigger] compare.ensures((w, p), false),
    {
        let p = pattern.vec.as_slice();
        let r = find_by(self.vec.as_slice(), p, compare);
        assert forall|j: int|
            #![trigger r.1@[j]]
            0 <= j < r.0@.len() implies exists|q: &[u8]| q@ == pattern@ && #[trigger] compare.ensures((r.1@[j], q), true) by {
            assert(compare.ensures((r.1@[j], p), true));
        }
        assert forall|i: int|
            0 <= i < num_windows(self@.len() as int, pattern@.len() as int) && !#[trigger] r.0@.contains(
                i as usize,
            ) implies exists|w: &[u8], q: &[u8]|
                w@ == window(self@, i, pattern@.len() as int) && q@ == pattern@
                    && #[trigger] compare.ensures((w, q), false) by {
            let w = choose|w: &[u8]| w@ == window(self@, i, pattern@.len() as int) && #[trigger] compare.ensures((w, p), false);
            assert(compare.ensures((w, p), false));
        }
        r
    }
}

/// Error of parsing a DNA string: the text holds a byte that is not a nucleotide letter.
#[derive(Debug)]
pub struct AsciiError {
    valid_up_to: usize,
}

impl View for AsciiError {
    type V = usize;

    closed spec fn view(&self) -> usize {
        self.valid_up_to
    }
}

impl AsciiError {
    /// Index of the first byte that is not a nucleotide letter: the length of the
    /// longest prefix of the input that parses.
    pub fn valid_up_to(&self) -> (r: usize)
        ensures
            r == self@,
    {
        self.valid_up_to
    }
}

} // verus!
