use quadseq::quad::{cross_correlation, periodic_autocorrelation, quadruplet, QuadSeq};

#[test]
fn test_williamson_test_correlation() {
    let seq = vec![1, 1, -1, 1, 1, -1, 1];

    assert_eq!(periodic_autocorrelation(&seq, 0), 7);
    assert_eq!(periodic_autocorrelation(&seq, 2), -1);

    let seq2 = vec![1, -1, 1, 1, -1, 1, -1];

    assert_eq!(cross_correlation(&seq, &seq2, 1), 5);
    assert_eq!(cross_correlation(&seq, &seq2, 2), -3);

    let seq = vec![1, 1, -1, 1, 1, -1];

    assert_eq!(periodic_autocorrelation(&seq, 0), 6);
    assert_eq!(periodic_autocorrelation(&seq, 2), -2);

    let seq2 = vec![1, -1, 1, 1, -1, 1];

    assert_eq!(cross_correlation(&seq, &seq2, 1), 6);
    assert_eq!(cross_correlation(&seq, &seq2, 2), -2);
}

#[test]
fn test_periodic_complementary() {
    let mut will = QuadSeq::new(2);
    assert!(!will.is_periodic_complementary());

    let val = [quadruplet(0), quadruplet(5)];
    for (i, q) in val.iter().enumerate() {
        will.set_sequence_value(q, i);
    }

    assert!(will.is_periodic_complementary());

    let mut will = QuadSeq::new(4);
    assert!(!will.is_periodic_complementary());

    let val = [quadruplet(0), quadruplet(0), quadruplet(1), quadruplet(0)];
    for (i, q) in val.iter().enumerate() {
        will.set_sequence_value(q, i);
    }

    assert!(will.is_periodic_complementary());
}

#[test]
fn test_williamson_test_symmetric() {
    let mut will = QuadSeq::new(4);
    assert!(will.is_symmetric());

    let val = [quadruplet(0), quadruplet(0), quadruplet(15), quadruplet(0)];
    for (i, q) in val.iter().enumerate() {
        will.set_sequence_value(q, i);
    }

    assert!(will.is_symmetric());

    will.set_sequence_value(&quadruplet(3), 3);
    assert!(!will.is_symmetric());
}

#[test]
fn test_amicable() {
    let mut will = QuadSeq::new(4);
    assert!(will.is_amicable());

    let val = [quadruplet(0), quadruplet(0), quadruplet(15), quadruplet(0)];
    for (i, q) in val.iter().enumerate() {
        will.set_sequence_value(q, i);
    }

    assert!(will.is_amicable());

    will.set_sequence_value(&quadruplet(3), 3);
    assert!(!will.is_amicable());
}

fn aux_recursive(will: &mut QuadSeq, size: usize, index: usize) {
    if index >= will.search_size() {
        assert!(!will.is_symmetric() || will.is_amicable());
        return;
    }

    for k in 0..16 {
        let mut will1 = will.clone();
        will1.set_sequence_value(&quadruplet(k), index);
        aux_recursive(&mut will1, size, index + 1);
    }
}

#[test]
fn test_symmetric_implies_amicable() {
    let size = 5;
    let mut will = QuadSeq::new(size);

    aux_recursive(&mut will, size, 1);
}

fn aux_recursive2(will: &mut QuadSeq, size: usize, index: usize) {
    if index >= will.search_size() {
        assert!(!(will.verify_cross_correlation() ^ will.is_amicable()));
        return;
    }

    for k in 0..16 {
        let mut will1 = will.clone();
        will1.set_sequence_value(&quadruplet(k), index);
        aux_recursive2(&mut will1, size, index + 1);
    }
}

#[test]
fn test_equivalence_cross_correlation_property() {
    let size = 5;
    let mut will = QuadSeq::new(size);

    aux_recursive2(&mut will, size, 1);
}

#[test]
fn test_result() {
    let size = 6;
    // rowsum: 0,2,2,4
    let seq_x = vec![1, -1, 1, -1, -1, 1];
    let seq_y = vec![1, 1, 1, 1, 1, -1];
    let seq_z = vec![1, -1, -1, 1, 1, 1];
    let seq_w = vec![1, 1, 1, -1, 1, -1];

    for offset in 1..size {
        let autoc = periodic_autocorrelation(&seq_x, offset)
            + periodic_autocorrelation(&seq_y, offset)
            + periodic_autocorrelation(&seq_z, offset)
            + periodic_autocorrelation(&seq_w, offset);
        println!("for offset: {offset}, autocorelation equals: {autoc}")
    }

    for offset in 1..size {
        let crossc1 = cross_correlation(&seq_w, &seq_x, offset) - cross_correlation(&seq_x, &seq_w, offset)
            + cross_correlation(&seq_y, &seq_z, offset)
            - cross_correlation(&seq_z, &seq_y, offset);
        let crossc2 = cross_correlation(&seq_w, &seq_y, offset) - cross_correlation(&seq_y, &seq_w, offset)
            + cross_correlation(&seq_z, &seq_x, offset)
            - cross_correlation(&seq_x, &seq_z, offset);
        let crossc3 = cross_correlation(&seq_w, &seq_z, offset) - cross_correlation(&seq_z, &seq_w, offset)
            + cross_correlation(&seq_x, &seq_y, offset)
            - cross_correlation(&seq_y, &seq_x, offset);
        println!("for offset: {offset}, crosscorelations equals: {crossc1}, {crossc2}, {crossc3}")
    }
}
