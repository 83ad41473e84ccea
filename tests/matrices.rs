use quadseq::matrices::{OpMat, HM};
use quadseq::quad::QuadSeq;
use quadseq::symmetries::SequenceType;

#[test]
fn matrix_from_seq() {
    let seq = vec![1, -1, -1, 1, -1];

    let hm = HM::from_sequence(&seq);

    println!("{}", hm.to_string());
}

#[test]
fn matrix_op() {
    let size = 5;
    let seq = vec![1, -1, -1, 1, -1];

    let hm = HM::from_sequence(&seq);

    println!("id :\n{}", hm.to_string());

    let mut hm2 = HM::new(size);
    hm2.copy_block_to(&hm, 0, 0, &OpMat::MINUS);

    println!("minus: \n{}", hm2.to_string());
}

#[test]
fn matrix_from_will() {
    let size = 3;
    let seq_x = vec![-1, -1, 1];
    let seq_y = vec![-1, -1, -1];
    let seq_z = vec![-1, -1, -1];
    let seq_w = vec![-1, -1, -1];

    let mut will = QuadSeq::new(size);
    will.set_all_values((&seq_x, &seq_y, &seq_z, &seq_w));

    let hm = HM::from_williamson(&will, SequenceType::WilliamsonType).unwrap();

    println!("{}", hm.to_string());
}

#[test]
fn circulant_entries_and_text() {
    let hm = HM::from_sequence(&vec![1, -1, -1]);
    assert_eq!(hm.get(0, 0), 1);
    assert_eq!(hm.get(0, 1), -1);
    assert_eq!(hm.get(1, 2), -1);
    assert_eq!(hm.get(2, 0), -1);
    assert_eq!(hm.get(1, 1), 1);
    assert_eq!(hm.to_string(), "| + - - |\n| - + - |\n| - - + |\n");
}

#[test]
fn dephased_matrix_has_positive_first_row_and_column() {
    let mut hm = HM::from_sequence(&vec![1, -1, -1, 1, -1]);
    hm.dephase();
    for k in 0..5 {
        assert_eq!(hm.get(0, k), 1);
        assert_eq!(hm.get(k, 0), 1);
    }
}

#[test]
fn minus_block_negates() {
    let hm = HM::from_sequence(&vec![1, -1]);
    let mut big = HM::new(4);
    big.copy_block_to(&hm, 2, 2, &OpMat::MINUS);
    assert_eq!(big.get(2, 2), -1);
    assert_eq!(big.get(2, 3), 1);
    assert_eq!(big.get(0, 0), 1);
}

#[test]
fn magma_text() {
    let hm = HM::from_sequence(&vec![1, -1]);
    assert_eq!(hm.to_string_magma(), "M := Matrix([[1,-1],[-1,1]]);");
    let one = HM::new(1);
    assert_eq!(one.to_string_magma(), "M := Matrix([[1]]);");
}

#[test]
fn graph_encoding_of_a_small_matrix() {
    let hm = HM::from_sequence(&vec![1, -1]);
    let edges = quadseq::matrices::hm_graph_edges(&hm);
    assert_eq!(
        edges,
        vec![(0, 0), (1, 1), (2, 2), (3, 3), (0, 4), (2, 6), (0, 7), (2, 5), (1, 6), (3, 4), (1, 5), (3, 7)]
    );
}
