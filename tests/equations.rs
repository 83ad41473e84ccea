use quadseq::equations::{equations_crosscorrelation, generate_equation_from, AddType, OpType};

#[test]
fn test_single_gen() {
    let seq = vec![1, 1, 1, -1, -1, 1, -1, 1, 1, 0, 0, 1, 0, 1];
    println!("{}", generate_equation_from(&seq, 5));

    let seq = vec![0, 0, 0, 0, 0, 0];
    println!("{}", generate_equation_from(&seq, 5));

    let seq = vec![1, -1, -1, -1, -2, -3, 4, 2, 5, 9, 10];
    println!("{}", generate_equation_from(&seq, 12));
}

#[test]
fn test_single_cross() {
    let seq1 = vec![1, 1, -1, -1];
    let seq2 = vec![1, -1, 1, 1];
    println!("{}", equations_crosscorrelation(&seq1, OpType::LeftMinus, &seq2, OpType::RightMinus, AddType::Plus));

    println!("=============");

    let seq1 = vec![1, 1, -1];
    let seq2 = vec![1, -1, 1];
    println!("{}", equations_crosscorrelation(&seq1, OpType::RightPlus, &seq2, OpType::LeftMinus, AddType::Minus));
}

#[test]
fn equation_text_matches_solver_format() {
    let seq = vec![1, 1, 1, -1, -1, 1, -1, 1, 1, 0, 0, 1, 0, 1];
    assert_eq!(
        generate_equation_from(&seq, 5),
        "1 x1 +1 x2 +1 x3 -1 x4 -1 x5 +1 x6 -1 x7 +1 x8 +1 x9 +1 x12 +1 x14 = 5;\n"
    );
    let seq = vec![1, -1, -1, -1, -2, -3, 4, 2, 5, 9, 10];
    assert_eq!(
        generate_equation_from(&seq, 12),
        "1 x1 -1 x2 -1 x3 -1 x4 -2 x5 -3 x6 +4 x7 +2 x8 +5 x9 +9 x10 +10 x11 = 12;\n"
    );
}

#[test]
fn all_zero_coefficients_give_no_equation() {
    assert_eq!(generate_equation_from(&vec![0, 0, 0, 0, 0, 0], 5), "");
    assert_eq!(generate_equation_from(&vec![], -3), "");
}

#[test]
fn negative_right_side_and_leading_negative_term() {
    assert_eq!(generate_equation_from(&vec![0, -2, 2], -7), "-2 x2 +2 x3 = -7;\n");
}

#[test]
fn cross_equations_at_every_shift() {
    let seq1 = vec![1, 1, -1, -1];
    let seq2 = vec![1, -1, 1, 1];
    let text = equations_crosscorrelation(&seq1, OpType::LeftMinus, &seq2, OpType::RightMinus, AddType::Plus);
    assert_eq!(text, "-2 x1 +2 x2 +2 x3 -2 x4 -2 x5 +2 x7 = 0;\n2 x1 -2 x2 -2 x3 +2 x4 +2 x5 -2 x7 = 0;\n");
}
