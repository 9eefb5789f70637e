use bio::dna::nuc::{Dna as NucDna, Nuc};
use bio::dna::strict::Dna as StrictDna;
use bio::dna::{complement, Dna};
use bio::raw::DNA;

const SEQ_STRING: &str = "ABAC";
const SAMPLE: &str = "ACTATGCGACT";
const COMPLEMENT: &str = "TGATACGCTGA";

#[test]
fn dna_test_from_str() {
    let dna = DNA::from_str(SEQ_STRING);
    assert_eq!(SEQ_STRING.to_string(), dna.to_string());
}

#[test]
fn dna_test_from_slice() {
    let bytes = SEQ_STRING.as_bytes();
    let dna = DNA::from_slice(bytes);
    assert_eq!(SEQ_STRING.to_string(), dna.to_string());
}

#[test]
fn dna_test_as_str() {
    let dna = DNA::from_str(SEQ_STRING);
    assert_eq!(SEQ_STRING, dna.as_str());
}

#[test]
fn raw_dna_len() {
    let dna = DNA::from_str(SEQ_STRING);
    assert_eq!(dna.len(), 4);
}

#[test]
fn dna_impl_test_from_str() {
    let dna = Dna::from_str(SAMPLE);
    assert_eq!(SAMPLE.to_string(), dna.to_string());
}

#[test]
fn dna_impl_test_from_slice() {
    let bytes = SAMPLE.as_bytes();
    let dna = Dna::from_slice(bytes);
    assert_eq!(SAMPLE.to_string(), dna.to_string());
}

#[test]
fn dna_impl_test_as_str() {
    let dna = Dna::from_str(SAMPLE);
    assert_eq!(SAMPLE, dna.as_str());
}

#[test]
fn dna_impl_test_reverse_complement() {
    let mut dna = Dna::from_str("AAAACCCGGT");
    let dna_rcomp = dna.reverse_complement();
    dna.complement();
    dna.reverse();
    let reverse_complement = "ACCGGGTTTT";
    assert_eq!(dna_rcomp.as_str(), reverse_complement);
    assert_eq!(dna.as_str(), reverse_complement);
}

#[test]
fn dna_test_reverse_complement() {
    let mut dna = Dna::from_str_unchecked("AAAACCCGGT");
    let dna_rcomp = dna.reverse_complement();
    dna.complement();
    dna.reverse();
    let reverse_complement = "ACCGGGTTTT";
    assert_eq!(dna_rcomp.as_str(), reverse_complement);
    assert_eq!(dna.as_str(), reverse_complement);
}

#[test]
fn reverse_complement_of_aatg() {
    let dna = Dna::from_str("AATG");
    assert_eq!(dna.reverse_complement().as_str(), "CATT");
}

#[test]
fn complement_of_aatg() {
    let mut dna = Dna::from_str("AATG");
    dna.complement();
    assert_eq!("TTAC", dna.as_str());
}

#[test]
fn reverse_complement_twice_is_identity() {
    let dna = Dna::from_str("GATTACACCGT");
    assert_eq!(dna.reverse_complement().reverse_complement(), dna);
}

#[test]
fn complement_twice_is_identity() {
    let mut dna = Dna::from_str("GATTACACCGT");
    dna.complement();
    dna.complement();
    assert_eq!(dna.as_str(), "GATTACACCGT");
}

#[test]
fn complement_keeps_other_bytes() {
    assert_eq!(complement(b'A'), b'T');
    assert_eq!(complement(b'G'), b'C');
    assert_eq!(complement(b'N'), b'N');
}

#[test]
fn parse_accepts_nucleotides() {
    let dna = Dna::parse_from_str("ACGT").unwrap();
    assert_eq!(dna.as_str(), "ACGT");
    assert_eq!(dna.len(), 4);
}

#[test]
fn parse_rejects_other_letters() {
    let err = Dna::parse_from_str("AATX").unwrap_err();
    assert_eq!(err.valid_up_to(), 3);
    let err = Dna::parse_from_str("AAT\u{a9}").unwrap_err();
    assert_eq!(err.valid_up_to(), 3);
}

#[test]
fn kmer_and_new() {
    let dna = Dna::new(b"AATG".to_vec());
    assert_eq!(dna.kmer(2, 1), b"AT");
    let dna = Dna::from_string("CCA".to_string());
    assert_eq!(dna.as_slice(), b"CCA");
}

#[test]
fn dna_find_with_predicate() {
    let dna = Dna::from_str("AATAAT");
    let pat = Dna::from_str("AT");
    let (inds, chunks) = dna.find(&pat, |a, b| a == b);
    assert_eq!(inds, vec![1, 4]);
    assert_eq!(chunks, vec![&b"AT"[..], &b"AT"[..]]);
}

#[test]
fn from_str() {
    let dna = NucDna::from_str(SAMPLE);
    assert_eq!(SAMPLE.to_string(), dna.to_string());
}

#[test]
fn from_str_unchecked() {
    let dna = NucDna::from_str_unchecked(SAMPLE);
    assert_eq!(SAMPLE.to_string(), dna.to_string());
}

#[test]
fn from_slice() {
    let bytes = SAMPLE.as_bytes();
    let dna = NucDna::from_slice(bytes);
    assert_eq!(SAMPLE.to_string(), dna.to_string());
}

#[test]
fn to_utf8() {
    let dna = NucDna::from_str(SAMPLE);
    assert_eq!(SAMPLE.as_bytes().to_owned(), dna.to_utf8());
}

#[test]
fn reverse_complement() {
    let dna = NucDna::from_str(SAMPLE);
    let reverse_complement: String = COMPLEMENT.chars().rev().collect();
    assert_eq!(reverse_complement, dna.reverse_complement().to_string());
}

#[test]
fn nuc_conversions() {
    assert_eq!(Nuc::to_utf8(Nuc::G), b'G');
    assert!(Nuc::from_utf8(b'C') == Nuc::C);
    assert!(Nuc::complement(Nuc::A) == Nuc::T);
    let dna = NucDna::from_str("ACGT");
    assert_eq!(dna.len(), 4);
    assert_eq!(dna.complement().to_string(), "TGCA");
}

#[test]
fn nuc_find() {
    let dna = NucDna::from_str("ACGACG");
    let pat = NucDna::from_str("CG");
    let (inds, _) = dna.find(&pat, |a, b| a == b);
    assert_eq!(inds, vec![1, 4]);
}

#[test]
fn u8_test_from_str() {
    let dna = StrictDna::from_str(SAMPLE);
    assert_eq!(SAMPLE.to_string(), dna.to_string());
}

#[test]
fn u8_test_from_slice() {
    let bytes = SAMPLE.as_bytes();
    let dna = StrictDna::from_slice(bytes);
    assert_eq!(SAMPLE.to_string(), dna.to_string());
}

#[test]
fn u8_test_as_str() {
    let dna = StrictDna::from_str(SAMPLE);
    assert_eq!(SAMPLE, dna.as_str());
}

#[test]
fn u8_test_reverse_complement() {
    let dna = StrictDna::from_str("AAAACCCGGT");
    let reverse_complement = "ACCGGGTTTT";
    let mut comp = dna.complement();
    comp.reverse();
    assert_eq!(comp.to_string(), reverse_complement.to_string())
}

#[test]
fn strict_reverse_complement_and_find() {
    let dna = StrictDna::from_str("AATG");
    assert_eq!(dna.reverse_complement().as_str(), "CATT");
    assert_eq!(dna.len(), 4);
    assert_eq!(dna.as_slice(), b"AATG");
    let pat = StrictDna::from_str("A");
    let (inds, _) = dna.find(&pat, |a, b| a == b);
    assert_eq!(inds, vec![0, 1]);
}

#[test]
fn test_from_str() {
    let dna = Dna::from_str_unchecked(SAMPLE);
    assert_eq!(SAMPLE.to_string(), dna.to_string());
}

#[test]
fn test_from_slice() {
    let bytes = SAMPLE.as_bytes();
    let dna = Dna::from_slice(bytes);
    assert_eq!(SAMPLE.to_string(), dna.to_string());
}

#[test]
fn test_as_str() {
    let dna = Dna::from_str_unchecked(SAMPLE);
    assert_eq!(SAMPLE, dna.as_str());
}

#[test]
fn from_slice_unchecked() {
    let bytes = SAMPLE.as_bytes();
    let dna = NucDna::from_slice_unchecked(bytes);
    assert_eq!(SAMPLE.to_string(), dna.to_string())
}

#[test]
fn to_string_unchecked() {
    let dna = NucDna::from_str(SAMPLE);
    assert_eq!(SAMPLE.to_owned(), dna.to_string_unchecked())
}

#[test]
fn nuc_from_utf8_unchecked() {
    assert!(Nuc::from_utf8_unchecked(b'T') == Nuc::T);
}

#[test]
fn to_utf8_unchecked() {
    let dna = NucDna::from_str(SAMPLE);
    assert_eq!(SAMPLE.as_bytes(), dna.to_utf8_unchecked().as_slice());
}
