use quadseq::quad::SequenceTag;
use quadseq::records::{get_indices, get_tag_from_filename, quad_to_string, string_to_sequence, symmetric, verify_rowsums, RecordError};
use quadseq::symmetries::RowsumPairing;

#[test]
fn sequence_text_round_trip() {
    assert_eq!(string_to_sequence(&"+-+".to_string()), Ok(vec![1, -1, 1]));
    assert_eq!(string_to_sequence(&"".to_string()), Ok(vec![]));
    assert_eq!(string_to_sequence(&"+x-".to_string()), Err(RecordError::UnrecognizedSymbol));
}

#[test]
fn quad_line() {
    assert_eq!(quad_to_string((0, 2, -2, 4)), "0 2 -2 4\n");
    assert_eq!(quad_to_string((-11, 3, 100, -7)), "-11 3 100 -7\n");
}

#[test]
fn tags_from_file_names() {
    assert_eq!(get_tag_from_filename("pair_WX.pair.sorted"), Ok((SequenceTag::W, SequenceTag::X)));
    assert_eq!(get_tag_from_filename("pair_YZ"), Ok((SequenceTag::Y, SequenceTag::Z)));
    assert_eq!(get_tag_from_filename("pair"), Err(RecordError::NameTooShort));
    assert_eq!(get_tag_from_filename("pair_WA"), Err(RecordError::UnrecognizedTag));
}

#[test]
fn pairing_indices() {
    assert_eq!(get_indices(Some(RowsumPairing::WX), 1), Some((0, 1)));
    assert_eq!(get_indices(Some(RowsumPairing::WY), 2), Some((1, 3)));
    assert_eq!(get_indices(Some(RowsumPairing::WZ), 2), Some((1, 2)));
    assert_eq!(get_indices(Some(RowsumPairing::WZ), 3), None);
    assert_eq!(get_indices(None, 1), None);
}

#[test]
fn symmetric_sequences() {
    assert!(symmetric(&vec![1, -1, 1, 1, -1]));
    assert!(!symmetric(&vec![1, -1, 1, -1, 1, 1]));
    assert!(symmetric(&vec![]));
}

#[test]
fn rowsums_checked_per_tag() {
    let a = vec![vec![1, 1, -1], vec![1, -1, 1]];
    let b = vec![vec![-1, -1, -1]];
    assert!(verify_rowsums((&a, &b), (&SequenceTag::X, &SequenceTag::W), (-3, 1, 0, 0)));
    assert!(!verify_rowsums((&a, &b), (&SequenceTag::W, &SequenceTag::X), (-3, 1, 0, 0)));
}
