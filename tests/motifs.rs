use bio::dna::motif::{median_string, motif_enumeration, neighbors};
use bio::dna::profile::{consensus, most_probable_kmer, probability, score, MotifError, Profile, Smoothing};
use bio::dna::search::{gibbs_sampler, greedy_motif_search, improve_motifs, kmer_probabilities, pick_weighted, randomized_motif_search};
use bio::dna::{alphabet, Dna};

fn dnas(xs: &[&str]) -> Vec<Dna> {
    xs.iter().map(|x| Dna::from_str(x)).collect()
}

fn strings(ms: &[Dna]) -> Vec<String> {
    ms.iter().map(|m| m.as_str().to_string()).collect()
}

#[test]
fn mod_distance() {
    let pattern = Dna::from_str("AAA");
    let dnas: Vec<_> = ["TTACCTTAAC", "GATATCTGTC", "ACGGCGTTCG", "CCCTAAAGAG", "CGTCAGAGGT"]
        .iter()
        .map(|x| Dna::from_str(x))
        .collect();
    assert_eq!(bio::dna::motif::distance(&dnas, &pattern), 5);
}

#[test]
fn distance() {
    let pattern = Dna::from_str_unchecked("AAA");
    let dnas: Vec<_> = ["TTACCTTAAC", "GATATCTGTC", "ACGGCGTTCG", "CCCTAAAGAG", "CGTCAGAGGT"]
        .iter()
        .map(|x| Dna::from_str_unchecked(x))
        .collect();
    assert_eq!(bio::dna::motif::distance(&dnas, &pattern), 5);
}

#[test]
fn neighbors_of_single_letter() {
    let mut n = neighbors(b"A", 1);
    n.sort();
    assert_eq!(n, vec![b"A".to_vec(), b"C".to_vec(), b"G".to_vec(), b"T".to_vec()]);
}

#[test]
fn neighbors_of_two_letters() {
    let mut n = neighbors(b"AC", 1);
    n.sort();
    let expected: Vec<Vec<u8>> = ["AA", "AC", "AG", "AT", "CC", "GC", "TC"].iter().map(|s| s.as_bytes().to_vec()).collect();
    assert_eq!(n, expected);
}

#[test]
fn neighbors_at_distance_zero() {
    assert_eq!(neighbors(b"GAT", 0), vec![b"GAT".to_vec()]);
}

#[test]
fn motif_enumeration_sample() {
    let ds = dnas(&["ATTTGGC", "TGCCTTA", "CGGTATC", "GAAAATT"]);
    let mut found = strings(&motif_enumeration(&ds, 3, 1).unwrap());
    found.sort();
    assert_eq!(found, vec!["ATA", "ATT", "GTT", "TTT"]);
}

#[test]
fn motif_enumeration_rejects_bad_input() {
    assert_eq!(motif_enumeration(&[], 3, 1).unwrap_err(), MotifError::EmptyInput);
    let ds = dnas(&["ATT", "TG"]);
    assert_eq!(motif_enumeration(&ds, 3, 1).unwrap_err(), MotifError::InvalidLength);
    assert_eq!(motif_enumeration(&ds, 0, 1).unwrap_err(), MotifError::InvalidLength);
}

#[test]
fn median_string_sample() {
    let ds = dnas(&["AAATTGACGCAT", "GACGACCACGTT", "CGTCAGCGCCTG", "GCTGAGCACCGG", "AGTTCGGGACAG"]);
    assert_eq!(median_string(&ds, 3).unwrap().as_str(), "GAC");
}

#[test]
fn median_string_ignores_order() {
    let mut xs = vec!["AAATTGACGCAT", "GACGACCACGTT", "CGTCAGCGCCTG", "GCTGAGCACCGG", "AGTTCGGGACAG"];
    let a = median_string(&dnas(&xs), 3).unwrap();
    xs.reverse();
    let b = median_string(&dnas(&xs), 3).unwrap();
    assert_eq!(a, b);
}

#[test]
fn median_string_errors() {
    assert_eq!(median_string(&[], 3).unwrap_err(), MotifError::EmptyInput);
    assert_eq!(median_string(&dnas(&["AC"]), 3).unwrap_err(), MotifError::InvalidLength);
}

#[test]
fn consensus_and_score() {
    let m = dnas(&["AAG", "ACG", "TCG"]);
    assert_eq!(consensus(&m).as_str(), "ACG");
    assert_eq!(score(&m), 2);
    let tie = dnas(&["AC", "CA"]);
    assert_eq!(consensus(&tie).as_str(), "AA");
}

#[test]
fn score_zero_when_all_equal() {
    let m = dnas(&["GATC", "GATC", "GATC"]);
    assert_eq!(score(&m), 0);
    assert_eq!(consensus(&m).as_str(), "GATC");
}

#[test]
fn plain_profile_columns_sum_to_motif_count() {
    let m = dnas(&["AAG", "ACG", "TCG", "GGT"]);
    let p = Profile::from_motifs(&m).unwrap();
    assert_eq!(p.len(), 3);
    assert_eq!(p.denominator(), 4);
    for col in 0..3 {
        let sum: u128 = b"ACGT".iter().map(|&n| p.value(n, col)).sum();
        assert_eq!(sum, p.denominator());
    }
    assert_eq!(p.value(b'A', 0), 2);
    assert_eq!(p.most_popular(1), b'C');
}

#[test]
fn laplace_profile_values() {
    let m = dnas(&["AAG", "ACG"]);
    let p = Profile::build(&m, Smoothing::Laplace).unwrap();
    assert_eq!(p.denominator(), 4);
    assert_eq!(p.value(b'A', 0), 3);
    assert_eq!(p.value(b'T', 0), 1);
}

#[test]
fn profile_errors() {
    assert_eq!(Profile::from_motifs(&[]).err(), Some(MotifError::EmptyInput));
    assert_eq!(Profile::from_motifs(&dnas(&["AC", "A"])).err(), Some(MotifError::LengthMismatch));
}

#[test]
fn most_probable_kmer_picks_first_best() {
    let m = dnas(&["AAG", "ACG"]);
    let p = Profile::from_motifs(&m).unwrap();
    let (w, kmer) = most_probable_kmer(&Dna::from_str("TTACGAAGT"), 3, &p);
    assert_eq!(kmer.as_str(), "ACG");
    assert_eq!(w, 2 * 1 * 2);
    assert_eq!(probability(b"AAG", &p), 2 * 1 * 2);
    assert_eq!(probability(b"TTT", &p), 0);
}

#[test]
fn greedy_motif_search_sample() {
    let ds = dnas(&["GGCGTTCAGGCA", "AAGAATCAGTCA", "CAAGGAGTTCGC", "CACGTCAATCAC", "CAATAATATTCG"]);
    let r = greedy_motif_search(&ds, 3, false).unwrap();
    assert_eq!(strings(&r), vec!["CAG", "CAG", "CAA", "CAA", "CAA"]);
}

#[test]
fn greedy_motif_search_with_pseudocounts_sample() {
    let ds = dnas(&["GGCGTTCAGGCA", "AAGAATCAGTCA", "CAAGGAGTTCGC", "CACGTCAATCAC", "CAATAATATTCG"]);
    let r = greedy_motif_search(&ds, 3, true).unwrap();
    assert_eq!(strings(&r), vec!["TTC", "ATC", "TTC", "ATC", "TTC"]);
}

#[test]
fn greedy_motif_search_is_deterministic() {
    let ds = dnas(&["GGCGTTCAGGCA", "AAGAATCAGTCA", "CAAGGAGTTCGC", "CACGTCAATCAC", "CAATAATATTCG"]);
    let a = greedy_motif_search(&ds, 3, true).unwrap();
    let b = greedy_motif_search(&ds, 3, true).unwrap();
    assert_eq!(a, b);
}

#[test]
fn greedy_motif_search_errors() {
    assert_eq!(greedy_motif_search(&[], 3, false).unwrap_err(), MotifError::EmptyInput);
    assert_eq!(greedy_motif_search(&dnas(&["ACGT", "AC"]), 3, false).unwrap_err(), MotifError::InvalidLength);
    assert_eq!(greedy_motif_search(&dnas(&["ACGT", "ACNT"]), 3, false).unwrap_err(), MotifError::InvalidSymbol);
}

#[test]
fn randomized_search_returns_kmers_no_worse_than_first() {
    let xs = ["CGCCCCTCTCGGGGGTGTTCAGTAAACGGCCA", "GGGCGAGGTATGTGTAAGTGCCAAGGTGCCAG",
        "TAGTACCGAGACCGAAAGAAGTATACAGGCGT", "TAGATCAAGTTTCAGGTGCACGTCGGTGAACC",
        "AATCCACCAGCTCCACGTGCAATGTTGGCCTA"];
    let ds = dnas(&xs);
    let r = randomized_motif_search(&ds, 8, 50).unwrap();
    assert_eq!(r.len(), 5);
    for (m, x) in r.iter().zip(xs.iter()) {
        assert!(x.contains(m.as_str()));
    }
    let first = dnas(&xs.iter().map(|x| &x[0..8]).collect::<Vec<_>>());
    assert!(score(&r) <= score(&first));
    assert_eq!(randomized_motif_search(&ds, 8, 0).unwrap_err(), MotifError::NoRestarts);
}

#[test]
fn improve_motifs_from_given_start() {
    let ds = dnas(&["GGCGTTCAGGCA", "AAGAATCAGTCA", "CAAGGAGTTCGC", "CACGTCAATCAC", "CAATAATATTCG"]);
    let start = dnas(&["GGC", "AAG", "CAA", "CAC", "CAA"]);
    let r = improve_motifs(&ds, 3, start);
    assert_eq!(r.len(), 5);
    assert!(score(&r) <= score(&dnas(&["GGC", "AAG", "CAA", "CAC", "CAA"])));
}

#[test]
fn gibbs_sampler_returns_kmers() {
    let xs = ["CGCCCCTCTCGGGGGTGTTCAGTAAACGGCCA", "GGGCGAGGTATGTGTAAGTGCCAAGGTGCCAG",
        "TAGTACCGAGACCGAAAGAAGTATACAGGCGT", "TAGATCAAGTTTCAGGTGCACGTCGGTGAACC",
        "AATCCACCAGCTCCACGTGCAATGTTGGCCTA"];
    let ds = dnas(&xs);
    let r = gibbs_sampler(&ds, 8, 5, 100, 20).unwrap();
    assert_eq!(r.len(), 5);
    for (m, x) in r.iter().zip(xs.iter()) {
        assert!(x.contains(m.as_str()));
    }
    assert_eq!(gibbs_sampler(&ds, 8, 4, 100, 20).unwrap_err(), MotifError::CountMismatch);
    assert_eq!(gibbs_sampler(&ds, 8, 5, 100, 0).unwrap_err(), MotifError::NoRestarts);
}

#[test]
fn weighted_pick_follows_running_totals() {
    let w: Vec<u128> = vec![2, 0, 3];
    assert_eq!(pick_weighted(&w, 0), 0);
    assert_eq!(pick_weighted(&w, 1), 0);
    assert_eq!(pick_weighted(&w, 2), 2);
    assert_eq!(pick_weighted(&w, 4), 2);
}

#[test]
fn kmer_probabilities_of_each_window() {
    let m = dnas(&["AAG", "ACG"]);
    let p = Profile::build(&m, Smoothing::Laplace).unwrap();
    let w = kmer_probabilities(&Dna::from_str("AAGT"), 3, &p);
    assert_eq!(w, vec![3 * 2 * 3, 3 * 1 * 1]);
}

#[test]
fn alphabet_order() {
    assert_eq!(alphabet(), *b"ATGC");
}

#[test]
fn gibbs_without_steps_returns_start() {
    let ds = dnas(&["GGCGTTCAGGCA", "AAGAATCAGTCA", "CAAGGAGTTCGC"]);
    let start = dnas(&["CGT", "GAA", "GGA"]);
    let r = bio::dna::search::gibbs_sample_from(&ds, 3, 3, start, 0);
    assert_eq!(strings(&r), vec!["CGT", "GAA", "GGA"]);
    let start = dnas(&["CGT", "GAA", "GGA"]);
    let r = bio::dna::search::gibbs_sample_from(&ds, 3, 3, start, 50);
    assert!(score(&r) <= score(&dnas(&["CGT", "GAA", "GGA"])));
}

#[test]
fn best_scoring_keeps_first_strictly_better() {
    let ds = dnas(&["GGCGTTCAGGCA", "AAGAATCAGTCA", "CAAGGAGTTCGC"]);
    let runs = vec![dnas(&["TCA", "TCA", "TCG"]), dnas(&["TCA", "TCA", "TCA"]), dnas(&["CAG", "CAG", "CAG"])];
    let r = bio::dna::search::best_scoring(&ds, 3, &runs);
    assert_eq!(strings(&r), vec!["TCA", "TCA", "TCA"]);
}

#[test]
fn gibbs_step_follows_the_draw() {
    let ds = dnas(&["GGCGTTCAGGCA", "AAGAATCAGTCA", "CAAGGAGTTCGC"]);
    let r = bio::dna::search::gibbs_step(&ds, 3, 3, dnas(&["CGT", "GAA", "GGA"]), 0, 0);
    assert_eq!(strings(&r), vec!["GGC", "GAA", "GGA"]);
    let r = bio::dna::search::gibbs_step(&ds, 3, 3, dnas(&["CGT", "GAA", "GGA"]), 0, 6);
    assert_eq!(strings(&r), vec!["GCG", "GAA", "GGA"]);
    let r = bio::dna::search::gibbs_step(&ds, 3, 3, dnas(&["CGT", "GAA", "GGA"]), 0, 36);
    assert_eq!(strings(&r), vec!["GCA", "GAA", "GGA"]);
}

#[test]
fn gibbs_with_one_string_and_no_steps() {
    let ds = dnas(&["GGCGTTCAGGCA"]);
    let r = gibbs_sampler(&ds, 3, 1, 0, 3).unwrap();
    assert_eq!(r.len(), 1);
    assert_eq!(gibbs_sampler(&ds, 3, 1, 5, 3).unwrap_err(), MotifError::CountMismatch);
}
