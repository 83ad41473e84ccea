use quadseq::rowsum::{
    generate_other_quadruplets, generate_rowsums, generate_sequences_with_rowsum, quad_contains_dup,
    quad_contains_zero, rowsum, sequence_to_string, sum_of_four_squares,
};
use quadseq::symmetries::SequenceType;

#[test]
fn four_squares_of_twenty_four() {
    let quads = sum_of_four_squares(24);
    assert_eq!(quads, vec![(0, 2, 2, 4)]);
    let quads = sum_of_four_squares(4);
    assert_eq!(quads, vec![(0, 0, 0, 2), (1, 1, 1, 1)]);
    assert_eq!(sum_of_four_squares(0), vec![(0, 0, 0, 0)]);
}

#[test]
fn sequences_with_rowsum_are_all_found() {
    let seqs = generate_sequences_with_rowsum(2, 4);
    assert_eq!(seqs.len(), 4);
    for s in &seqs {
        assert_eq!(s.len(), 4);
        assert_eq!(rowsum(s.clone()), 2);
    }
    assert!(generate_sequences_with_rowsum(1, 4).is_empty());
    assert!(generate_sequences_with_rowsum(6, 4).is_empty());
    assert!(generate_sequences_with_rowsum(-6, 4).is_empty());
    assert_eq!(generate_sequences_with_rowsum(-4, 4), vec![vec![-1, -1, -1, -1]]);
    assert_eq!(generate_sequences_with_rowsum(0, 6).len(), 20);
}

#[test]
fn rowsum_and_text_of_a_sequence() {
    assert_eq!(rowsum(vec![1, 1, -1, 1, -1]), 1);
    assert_eq!(sequence_to_string(&vec![1, -1, -1, 1]), "+--+");
}

#[test]
fn zero_and_duplicate_detection() {
    assert!(quad_contains_zero(&(0, 2, 2, 4)));
    assert!(!quad_contains_zero(&(1, 2, 3, 4)));
    assert!(quad_contains_dup(&(0, 2, 2, 4)));
    assert!(!quad_contains_dup(&(1, 2, 3, 4)));
}

#[test]
fn other_quadruplets_cover_the_orderings() {
    let res = generate_other_quadruplets(&(1, 3, 5, 7), SequenceType::QuaternionType);
    for q in &res {
        let mut v = vec![q.0.abs(), q.1.abs(), q.2.abs(), q.3.abs()];
        v.sort();
        assert_eq!(v, vec![1, 3, 5, 7]);
    }
    assert!(res.iter().any(|q| q.0 < 0));
    let plain = generate_other_quadruplets(&(1, 3, 5, 7), SequenceType::WilliamsonType);
    assert!(plain.iter().all(|q| q.0 > 0));
    assert!(plain.len() < 24);
    assert!(plain.len() * 2 == res.len());
}

#[test]
fn rowsums_of_length_six() {
    let rs = generate_rowsums(6, SequenceType::QuaternionType);
    assert!(!rs.is_empty());
    for q in &rs {
        assert_eq!(q.0 * q.0 + q.1 * q.1 + q.2 * q.2 + q.3 * q.3, 24);
        assert_eq!(q.0.abs() % 2, 0);
    }
    let rs = generate_rowsums(5, SequenceType::QuaternionType);
    for q in &rs {
        assert_eq!(q.0 * q.0 + q.1 * q.1 + q.2 * q.2 + q.3 * q.3, 20);
        assert_eq!(q.0.abs() % 2, 1);
    }
}
