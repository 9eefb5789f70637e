//! DNA strings and motif search on them.
use vstd::prelude::*;
use vstd::string::StringSliceAdditionalSpecFns;
use vstd::utf8::{decode_utf8, encode_utf8, is_char_boundary, is_leading_byte_width_1, length_of_first_scalar, partial_valid_utf8, partial_valid_utf8_extend_ascii_block, pop_first_scalar, valid_utf8};

pub mod dna_impl;
pub mod nuc;
pub mod profile;
pub mod search;
pub mod motif;
pub mod strict;

pub use self::dna_impl::{AsciiError, Dna};

verus! {

/// Adenine.
pub const A: u8 = 65;

/// Cytosine.
pub const C: u8 = 67;

/// Guanine.
pub const G: u8 = 71;

/// Thymine.
pub const T: u8 = 84;

/// Whether `b` is one of the four nucleotide letters.
pub open spec fn is_nuc(b: u8) -> bool {
    b == A || b == C || b == G || b == T
}

/// Whether every symbol of `s` is a nucleotide letter.
pub open spec fn is_dna(s: Seq<u8>) -> bool {
    forall|i: int| 0 <= i < s.len() ==> is_nuc(#[trigger] s[i])
}

/// Watson-Crick complement of one symbol; other bytes are kept.
pub open spec fn complement_of(b: u8) -> u8 {
    if b == A {
        T
    } else if b == T {
        A
    } else if b == G {
        C
    } else if b == C {
        G
    } else {
        b
    }
}

/// Complement of every symbol of `s`.
pub open spec fn complement_seq(s: Seq<u8>) -> Seq<u8> {
    s.map_values(|b: u8| complement_of(b))
}

/// Reverse complement of `s`: the complement, read backwards.
pub open spec fn reverse_complement_seq(s: Seq<u8>) -> Seq<u8> {
    complement_seq(s).reverse()
}

/// The order in which candidate k-mers are enumerated.
pub open spec fn alphabet_seq() -> Seq<u8> {
    seq![A, T, G, C]
}

/// The nucleotide letters, in enumeration order.
pub fn alphabet() -> (r: [u8; 4])
    ensures
        r@ == alphabet_seq(),
{
    let r = [A, T, G, C];
    assert(r@ =~= alphabet_seq());
    r
}

/// Complement of one nucleotide symbol; other bytes are returned unchanged.
pub fn complement(nuc: u8) -> (r: u8)
    ensures
        r == complement_of(nuc),
{
    if nuc == A {
        T
    } else if nuc == T {
        A
    } else if nuc == G {
        C
    } else if nuc == C {
        G
    } else {
        nuc
    }
}

/// Complementing twice gives back the sequence.
pub proof fn lemma_complement_involution(s: Seq<u8>)
    ensures
        complement_seq(complement_seq(s)) == s,
{
    assert(complement_seq(complement_seq(s)) =~= s);
}

/// Taking the reverse complement twice gives back the sequence.
pub proof fn lemma_reverse_complement_involution(s: Seq<u8>)
    ensures
        reverse_complement_seq(reverse_complement_seq(s)) == s,
{
    assert(reverse_complement_seq(reverse_complement_seq(s)) =~= s);
}

/// Nucleotide letters are ASCII, so a DNA string is valid UTF-8.
pub proof fn lemma_dna_is_utf8(s: Seq<u8>)
    requires
        is_dna(s),
    ensures
        valid_utf8(s),
{
    assert forall|i: int| 0 <= i < s.len() implies #[trigger] s[i] < 128 by {
        assert(is_nuc(s[i]));
    }
    lemma_ascii_is_utf8(s);
}

/// Bytes below 128 are valid UTF-8.
pub proof fn lemma_ascii_is_utf8(s: Seq<u8>)
    requires
        forall|i: int| 0 <= i < s.len() ==> #[trigger] s[i] < 128,
    ensures
        valid_utf8(s),
{
    assert(s.subrange(0, 0) =~= Seq::<u8>::empty());
    assert(valid_utf8(Seq::<u8>::empty())) by {
        reveal_with_fuel(valid_utf8, 1);
    }
    assert(partial_valid_utf8(s, 0));
    assert forall|i: int| 0 <= 0 <= i < s.len() <= s.len() implies #[trigger] is_leading_byte_width_1(s[i]) by {
        assert(s[i] < 128);
    }
    partial_valid_utf8_extend_ascii_block(s, 0, s.len() as int);
    assert(s.subrange(0, s.len() as int) =~= s);
}

/// Bytes below 128 decode to the characters of the same codes.
pub proof fn lemma_ascii_decode(b: Seq<u8>)
    requires
        forall|i: int| 0 <= i < b.len() ==> #[trigger] b[i] < 128,
    ensures
        decode_utf8(b) == b.map_values(|x: u8| x as char),
{
    let chars = b.map_values(|x: u8| x as char);
    assert(vstd::utf8::is_ascii_chars(chars));
    vstd::utf8::is_ascii_chars_encode_utf8(chars);
    assert(encode_utf8(chars) =~= b);
    vstd::utf8::encode_utf8_decode_utf8(chars);
}

/// A text whose bytes are all below 128 is ASCII.
pub proof fn lemma_ascii_bytes_str(s: &str)
    requires
        forall|i: int| 0 <= i < s.spec_bytes().len() ==> #[trigger] s.spec_bytes()[i] < 128,
    ensures
        s.is_ascii(),
{
    vstd::utf8::encode_utf8_decode_utf8(s@);
    lemma_ascii_decode(s.spec_bytes());
    assert forall|i: int| 0 <= i < s@.len() implies '\0' <= #[trigger] s@[i] <= '\u{7f}' by {
        assert(s@[i] == s.spec_bytes()[i] as char);
    }
}

/// In valid UTF-8, the place right after an ASCII byte is a character boundary.
pub proof fn lemma_boundary_after_ascii(b: Seq<u8>, i: int)
    requires
        valid_utf8(b),
        0 <= i < b.len(),
        b[i] < 128,
    ensures
        is_char_boundary(b, i + 1),
    decreases b.len(),
{
    let l = length_of_first_scalar(b);
    let rest = pop_first_scalar(b);
    if i < l {
        if i > 0 {
            assert(vstd::utf8::is_continuation_byte(b[i]));
        }
        assert(l == 1);
        assert(is_char_boundary(rest, 0));
    } else {
        assert(rest[i - l] == b[i]);
        lemma_boundary_after_ascii(rest, i - l);
    }
}

/// Relies on `String::from_utf8`: valid UTF-8 bytes give `Ok` with the string they encode.
#[verifier::external_body]
pub(crate) fn utf8_to_string(bytes: Vec<u8>) -> (r: String)
    requires
        valid_utf8(bytes@),
    ensures
        r@ == decode_utf8(bytes@),
{
    String::from_utf8(bytes).unwrap()
}

/// Relies on `std::str::from_utf8`: valid UTF-8 bytes give `Ok` with the string slice they encode.
#[verifier::external_body]
pub(crate) fn utf8_as_str(bytes: &[u8]) -> (r: &str)
    requires
        valid_utf8(bytes@),
    ensures
        r@ == decode_utf8(bytes@),
{
    std::str::from_utf8(bytes).unwrap()
}

} // verus!
