use bio::data::{lines, Dataset};
use bio::strings::{
    clump_finding, clump_finding_naive, frequency_array, frequent_words,
    frequent_words_with_mismatches, frequent_words_with_mismatches_and_reverse_complements,
    gc_skew, gc_skew_scan, hamming_distance, indexes, kmers, number_to_pattern, pattern_count,
    pattern_to_number, reverse_complement,
};

#[test]
fn test_indexes() {
    let dataset = Dataset::new("GCGCGTTAGCGCG\nGCG\n".to_string());
    let lines = dataset.lines();
    let (text, pattern) = (lines[0], lines[1]);
    assert_eq!(indexes(text, pattern).len(), 4);
    assert_eq!(indexes(text, pattern), vec![0, 2, 8, 10]);
}

#[test]
fn pattern_count_sample() {
    assert_eq!(pattern_count("GCGCG", "GCG"), 2);
    assert_eq!(pattern_count("AAAA", "AAAAA".get(0..4).unwrap()), 1);
}

#[test]
fn frequent_words_sample() {
    assert_eq!(frequent_words("ACGTTGCATGTCGCATGATGCATGAGAGCT", 4), vec!["CATG", "GCAT"]);
}

#[test]
fn kmers_sorted_distinct() {
    assert_eq!(kmers("ACGTAC", 2), vec!["AC", "CG", "GT", "TA"]);
}

#[test]
fn pattern_number_conversions() {
    assert_eq!(pattern_to_number(b"AGT"), 11);
    assert_eq!(pattern_to_number(b"A"), 0);
    assert_eq!(number_to_pattern(5437, 7), "CCCATTC");
    assert_eq!(number_to_pattern(5437, 8), "ACCCATTC");
    assert_eq!(number_to_pattern(3, 1), "T");
}

#[test]
fn frequency_array_sample() {
    assert_eq!(
        frequency_array("ACGCGGCTCTGAAA", 2),
        vec![2, 1, 0, 0, 0, 0, 2, 2, 1, 2, 1, 0, 0, 1, 1, 0]
    );
}

#[test]
fn frequent_words_with_mismatches_sample() {
    let mut r = frequent_words_with_mismatches("ACGTTGCATGTCGCATGATGCATGAGAGCT", 4, 1);
    r.sort();
    assert_eq!(r, vec!["ATGC", "ATGT", "GATG"]);
}

#[test]
fn frequent_words_with_mismatches_and_reverse_complements_sample() {
    let mut r = frequent_words_with_mismatches_and_reverse_complements("ACGTTGCATGTCGCATGATGCATGAGAGCT", 4, 1);
    r.sort();
    assert_eq!(r, vec!["ACAT", "ATGT"]);
}

#[test]
fn clump_finding_sample() {
    let g = "CGGACTCGACAGATGTGAAGAACGACAATGTGAAGACTCGACACGACAGAGTGAAGAGAAGAGGAAACATTGTAA";
    assert_eq!(clump_finding(g, 5, 50, 4), vec!["CGACA", "GAAGA"]);
    assert_eq!(clump_finding_naive(g, 5, 50, 4), vec!["CGACA", "GAAGA"]);
}

#[test]
fn gc_skew_sample() {
    let expected = vec![-1, -1, -1, 0, 1, 2, 1, 1, 1, 0, 1, 2, 1, 0, 0, 0, 0, -1, 0, -1, -2];
    assert_eq!(gc_skew("CATGGGCATCGGCCATACGCC"), expected);
    assert_eq!(gc_skew_scan("CATGGGCATCGGCCATACGCC"), expected);
}

#[test]
fn skew_minimum_indices() {
    let skew = gc_skew("TAAAGACTGCCGAGAGGCCAACACGAGTGCTAGAACGAGGGGCGTAAACGCGGGTCCGAT");
    let (min, inds) = bio::strings::min_indices(&skew);
    assert_eq!(min, -1);
    assert_eq!(inds, vec![10, 23]);
    assert_eq!(bio::strings::min_indices(&[]), (isize::MAX, vec![]));
}

#[test]
fn strings_hamming_and_reverse_complement() {
    assert_eq!(hamming_distance("GGGCCGTTGGT", "GGACCGTTGAC"), 3);
    assert_eq!(reverse_complement("AAAACCCGGT"), "ACCGGGTTTT");
}

#[test]
fn strings_neighbors() {
    let mut n = bio::strings::neighbors("AC", 1);
    n.sort();
    assert_eq!(n, vec!["AA", "AC", "AG", "AT", "CC", "GC", "TC"]);
    assert_eq!(bio::strings::neighbors("A", 1).len(), 4);
}

#[test]
fn lines_split_and_strip() {
    assert_eq!(lines("ab\r\ncd\n\nef"), vec!["ab", "cd", "", "ef"]);
    assert_eq!(lines("ab\n"), vec!["ab"]);
    assert_eq!(lines(""), Vec::<&str>::new());
}

#[test]
fn fasta_joins_sequence_lines() {
    let d = Dataset::from_fasta(">header\nACGT\nTTGA\n");
    assert_eq!(d.contents(), "ACGTTTGA");
    let d = Dataset::from_fasta(">only header\n");
    assert_eq!(d.contents(), "");
}

#[test]
fn parse_vec_numbers() {
    assert_eq!(bio::io::parse_vec("3 5\n 12\t+7").unwrap(), vec![3, 5, 12, 7]);
    assert_eq!(bio::io::parse_vec("   ").unwrap(), Vec::<usize>::new());
    assert!(bio::io::parse_vec("3 x 5").is_err());
    assert!(bio::io::parse_vec("-1").is_err());
}

#[test]
fn all_t_pattern_is_reported() {
    assert_eq!(frequent_words_with_mismatches("T", 1, 0), vec!["T"]);
    assert_eq!(frequent_words_with_mismatches_and_reverse_complements("TTTT", 1, 0), vec!["A", "T"]);
    assert_eq!(clump_finding("TTTT", 1, 2, 2), vec!["T"]);
}

#[test]
fn gc_skew_counts_characters() {
    assert_eq!(gc_skew("G\u{e9}C"), vec![1, 1, 0]);
    assert_eq!(gc_skew_scan("G\u{e9}C"), vec![1, 1, 0]);
}

#[test]
fn lines_of_unicode_text() {
    assert_eq!(lines("\u{e9}a\nb\u{2603}\r\n"), vec!["\u{e9}a", "b\u{2603}"]);
    let d = Dataset::new("x\u{e9}\ny".to_string());
    assert_eq!(d.lines(), vec!["x\u{e9}", "y"]);
}

#[test]
fn parse_vec_rejects_other_text() {
    assert!(bio::io::parse_vec("1 \u{e9}").is_err());
    assert!(bio::io::parse_vec("1\u{a0}2").is_err());
}

#[test]
fn fasta_of_unicode_text() {
    let d = Dataset::from_fasta(">h\u{e9}\nAC\nG\u{e9}\n");
    assert_eq!(d.contents(), "ACG\u{e9}");
}

#[test]
fn parse_vec_splits_unicode_text_on_ascii_whitespace() {
    assert!(bio::io::parse_vec("1 2\u{e9}").is_err());
    assert_eq!(bio::io::parse_vec("\u{e9}"[0..0].to_string().as_str()).unwrap(), Vec::<usize>::new());
}

#[test]
fn strings_neighbors_are_distinct() {
    let n = bio::strings::neighbors("ACG", 2);
    let mut m = n.clone();
    m.sort();
    m.dedup();
    assert_eq!(m.len(), n.len());
}
