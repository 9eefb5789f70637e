//! Minimal DNA string: the bytes of its text, kept as they are.
use vstd::prelude::*;
use vstd::slice::slice_to_vec;
use vstd::string::StringSliceAdditionalSpecFns;
use vstd::utf8::{decode_utf8, valid_utf8};

use crate::dna::{utf8_as_str, utf8_to_string};

verus! {

/// DNA string as the bytes of its text.
pub struct DNA {
    pub seq: Vec<u8>,
}

impl DNA {
    pub fn len(&self) -> (r: usize)
        ensures
            r == self.seq@.len(),
    {
        self.seq.len()
    }

    pub fn from_slice(s: &[u8]) -> (r: DNA)
        ensures
            r.seq@ == s@,
    {
        DNA { seq: slice_to_vec(s) }
    }

    pub fn from_str(s: &str) -> (r: DNA)
        ensures
            r.seq@ == s.spec_bytes(),
    {
        DNA::from_slice(s.as_bytes())
    }

    pub fn to_string(&self) -> (r: String)
        requires
            valid_utf8(self.seq@),
        ensures
            r@ == decode_utf8(self.seq@),
    {
        utf8_to_string(slice_to_vec(self.seq.as_slice()))
    }

    pub fn as_str(&self) -> (r: &str)
        requires
            valid_utf8(self.seq@),
        ensures
            r@ == decode_utf8(self.seq@),
    {
        utf8_as_str(self.seq.as_slice())
    }
}

} // verus!
