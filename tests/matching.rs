use quadseq::matching::{
    compute_auto_correlation_pair, compute_complementary_auto_correlations,
    compute_complementary_cross_correlations, compute_cross_correlations, verify_cross_correlation,
};
use quadseq::quad::SequenceTag;

#[test]
fn test_verify_crossc() {
    let seq_x = vec![1, -1, -1, -1, 1, 1, -1, 1, -1, 1];
    let seq_y = vec![-1, 1, 1, 1, -1, 1, -1, -1, -1, 1];
    let seq_z = vec![1, 1, 1, 1, 1, -1, -1, 1, -1, -1];
    let seq_w = vec![1, 1, -1, 1, 1, 1, 1, -1, 1, 1];

    let sequences = &[&seq_x, &seq_y, &seq_z, &seq_w];
    let tags = &vec![SequenceTag::X, SequenceTag::Y, SequenceTag::Z, SequenceTag::W];
    assert!(verify_cross_correlation(sequences, tags));

    let sequences = &[&seq_x, &seq_z, &seq_w, &seq_y];
    let tags = &vec![SequenceTag::X, SequenceTag::Z, SequenceTag::W, SequenceTag::Y];
    assert!(verify_cross_correlation(sequences, tags));

    let sequences = &[&seq_z, &seq_x, &seq_w, &seq_y];
    let tags = &vec![SequenceTag::Z, SequenceTag::X, SequenceTag::W, SequenceTag::Y];
    assert!(verify_cross_correlation(sequences, tags));

    let seq_w = vec![1, 1, -1, 1, 1, 1, 1, -1, -1, 1];

    let sequences = &[&seq_z, &seq_x, &seq_w, &seq_y];
    let tags = &vec![SequenceTag::Z, SequenceTag::X, SequenceTag::W, SequenceTag::Y];
    assert!(!verify_cross_correlation(sequences, tags));
}

#[test]
fn test_autocorrelation() {
    let seq_x = vec![1, -1, -1, -1, 1, 1, -1, 1, -1, 1];
    let seq_y = vec![-1, 1, 1, 1, -1, 1, -1, -1, -1, 1];
    let seq_z = vec![1, 1, 1, 1, 1, -1, -1, 1, -1, -1];
    let seq_w = vec![1, 1, -1, 1, 1, 1, 1, -1, 1, 1];

    assert_eq!(compute_auto_correlation_pair(&seq_x, &seq_y), compute_complementary_auto_correlations(&seq_z, &seq_w));
    assert_eq!(compute_auto_correlation_pair(&seq_w, &seq_y), compute_complementary_auto_correlations(&seq_z, &seq_x));
}

#[test]
fn test_crosscorrelation() {
    let seq_x = vec![1, -1, -1, -1, 1, 1, -1, 1, -1, 1];
    let seq_y = vec![-1, 1, 1, 1, -1, 1, -1, -1, -1, 1];
    let seq_z = vec![1, 1, 1, 1, 1, -1, -1, 1, -1, -1];
    let seq_w = vec![1, 1, -1, 1, 1, 1, 1, -1, 1, 1];

    assert_eq!(
        compute_cross_correlations(&seq_x, &seq_y, &(SequenceTag::X, SequenceTag::Y)),
        compute_complementary_cross_correlations(&seq_z, &seq_w, &(SequenceTag::Z, SequenceTag::W))
    );
    assert_eq!(
        compute_cross_correlations(&seq_w, &seq_y, &(SequenceTag::W, SequenceTag::Y)),
        compute_complementary_cross_correlations(&seq_z, &seq_x, &(SequenceTag::Z, SequenceTag::X))
    );
}
