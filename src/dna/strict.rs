//! DNA string over a byte vector whose complement accepts nucleotide letters only.
use vstd::prelude::*;
use vstd::slice::slice_to_vec;
use vstd::string::StringSliceAdditionalSpecFns;
use vstd::utf8::{decode_utf8, valid_utf8};

use super::{complement, complement_seq, is_dna, reverse_complement_seq, utf8_as_str, utf8_to_string};
use crate::seq::{find_by, num_windows, window};

verus! {

/// DNA string held as bytes, taken from text as it is.
#[derive(PartialEq, Eq, PartialOrd, Ord, Debug)]
pub struct Dna {
    vec: Vec<u8>,
}

impl View for Dna {
    type V = Seq<u8>;

    closed spec fn view(&self) -> Seq<u8> {
        self.vec@
    }
}

impl Dna {
    pub fn from_slice(s: &[u8]) -> (r: Dna)
        ensures
            r@ == s@,
    {
        Dna { vec: slice_to_vec(s) }
    }

    pub fn from_str(s: &str) -> (r: Dna)
        ensures
            r@ == s.spec_bytes(),
    {
        Dna::from_slice(s.as_bytes())
    }

    pub fn to_string(&self) -> (r: String)
        requires
            valid_utf8(self@),
        ensures
            r@ == decode_utf8(self@),
    {
        utf8_to_string(slice_to_vec(self.vec.as_slice()))
    }

    pub fn as_str(&self) -> (r: &str)
        requires
            valid_utf8(self@),
        ensures
            r@ == decode_utf8(self@),
    {
        utf8_as_str(self.vec.as_slice())
    }

    pub fn as_slice(&self) -> (r: &[u8])
        ensures
            r@ == self@,
    {
        self.vec.as_slice()
    }

    pub fn len(&self) -> (r: usize)
        ensures
            r == self@.len(),
    {
        self.vec.len()
    }

    /// Complement of a string of nucleotide letters.
    pub fn complement(&self) -> (r: Dna)
        requires
            is_dna(self@),
        ensures
            r@ == complement_seq(self@),
    {
        let mut vec: Vec<u8> = Vec::new();
        let mut i: usize = 0;
        while i < self.vec.len()
            invariant
                i <= self.vec@.len(),
                vec@ =~= complement_seq(self.vec@).subrange(0, i as int),
            decreases self.vec@.len() - i,
        {
            vec.push(complement(self.vec[i]));
            i = i + 1;
        }
        assert(complement_seq(self.vec@).subrange(0, self.vec@.len() as int) =~= complement_seq(self.vec@));
        Dna { vec }
    }

    pub fn reverse(&mut self)
        ensures
            final(self)@ == old(self)@.reverse(),
    {
        let n = self.vec.len();
        let mut out: Vec<u8> = Vec::new();
        let mut i: usize = 0;
        while i < n
            invariant
                n == self.vec@.len(),
                self.vec@ == old(self).vec@,
                i <= n,
                out@ =~= old(self).vec@.reverse().subrange(0, i as int),
            decreases n - i,
        {
            out.push(self.vec[n - 1 - i]);
            i = i + 1;
        }
        self.vec = out;
        assert(self.vec@ =~= old(self).vec@.reverse());
    }

    /// Reverse complement of a string of nucleotide letters.
    pub fn reverse_complement(&self) -> (r: Dna)
        requires
            is_dna(self@),
        ensures
            r@ == reverse_complement_seq(self@),
    {
        let mut comp = self.complement();
        comp.reverse();
        comp
    }

    /// Windows of the pattern's length that `p` accepts: their start indices and the windows.
    pub fn find<'a, F>(&'a self, pattern: &Dna, p: F) -> (r: (Vec<usize>, Vec<&'a [u8]>)) where
        F: Fn(&[u8], &[u8]) -> bool,
        requires
            pattern@.len() > 0,
            forall|x: &[u8], y: &[u8]| #[trigger] p.requires((x, y)),
        ensures
            r.0@.len() == r.1@.len(),
            forall|j: int, l: int| 0 <= j < l < r.0@.len() ==> r.0@[j] < r.0@[l],
            forall|j: int|
                #![trigger r.1@[j]]
                0 <= j < r.0@.len() ==> (r.0@[j] as int) < num_windows(
                    self@.len() as int,
                    pattern@.len() as int,
                ) && r.1@[j]@ == window(self@, r.0@[j] as int, pattern@.len() as int)
                    && exists|q: &[u8]| q@ == pattern@ && #[trigger] p.ensures((r.1@[j], q), true),
            forall|i: int|
                0 <= i < num_windows(self@.len() as int, pattern@.len() as int) && !#[trigger] r.0@.contains(
                    i as usize,
                ) ==> exists|w: &[u8], q: &[u8]|
                    w@ == window(self@, i, pattern@.len() as int) && q@ == pattern@
                        && #[trigger] p.ensures((w, q), false),
    {
        let pat = pattern.vec.as_slice();
        let r = find_by(self.vec.as_slice(), pat, p);
        assert forall|j: int|
            #![trigger r.1@[j]]
            0 <= j < r.0@.len() implies exists|q: &[u8]| q@ == pattern@ && #[trigger] p.ensures((r.1@[j], q), true) by {
            assert(p.ensures((r.1@[j], pat), true));
        }
        assert forall|i: int|
            0 <= i < num_windows(self@.len() as int, pattern@.len() as int) && !#[trigger] r.0@.contains(
                i as usize,
            ) implies exists|w: &[u8], q: &[u8]|
                w@ == window(self@, i, pattern@.len() as int) && q@ == pattern@
                    && #[trigger] p.ensures((w, q), false) by {
            let w = choose|w: &[u8]| w@ == window(self@, i, pattern@.len() as int) && #[trigger] p.ensures((w, pat), false);
            assert(p.ensures((w, pat), false));
        }
        r
    }
}

} // verus!
