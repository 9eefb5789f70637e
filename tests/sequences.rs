use bio::seq::{find, find_by, hamming_distance, min_indices, permutations_with_repetitions, slices_equal};

#[test]
fn hamming_distance_sample() {
    let dx = "GGGCCGTTGGT";
    let dy = "GGACCGTTGAC";
    assert_eq!(hamming_distance(dx.as_bytes(), dy.as_bytes()), 3);
}

#[test]
fn hamming_distance_to_self_is_zero() {
    let x = b"ACGTTGCA";
    assert_eq!(hamming_distance(x, x), 0);
}

#[test]
fn find_overlapping() {
    assert_eq!(find(b"GATATATGCATATACTT", b"ATAT"), vec![1, 3, 9]);
    assert_eq!(find(b"AC", b"ACG"), Vec::<usize>::new());
}

#[test]
fn find_by_within_distance() {
    let (inds, chunks) = find_by(&b"CGCCCGAATCCAG"[..], &b"ATTCT"[..], |a: &[u8], b: &[u8]| {
        a.iter().zip(b.iter()).filter(|(x, y)| x != y).count() <= 2
    });
    assert_eq!(inds, vec![6, 7]);
    assert_eq!(chunks, vec![&b"AATCC"[..], &b"ATCCA"[..]]);
}

#[test]
fn min_indices_sample() {
    assert_eq!(min_indices(&[1, 3, 1, 2]), vec![0, 2]);
    assert_eq!(min_indices(&[]), Vec::<usize>::new());
}

#[test]
fn permutations_sample() {
    let input = [0, 1];
    let expected = vec![vec![0, 0], vec![0, 1], vec![1, 0], vec![1, 1]];
    assert_eq!(permutations_with_repetitions(&input, 2), expected);
    assert_eq!(permutations_with_repetitions(&input, 0), Vec::<Vec<u8>>::new());
    assert_eq!(permutations_with_repetitions(b"ATGC", 3).len(), 64);
}

#[test]
fn concat_sample() {
    assert_eq!(bio::seq::concat(&[1, 2], &[3, 4]), vec![1, 2, 3, 4]);
}

#[test]
fn slices_equal_sample() {
    assert!(slices_equal(b"AC", b"AC"));
    assert!(!slices_equal(b"AC", b"AG"));
    assert!(!slices_equal(b"AC", b"ACG"));
}
