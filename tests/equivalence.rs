use quadseq::equivalence::{
    coprime, equivalent_disjoint_swaps, equivalent_negate_swap, equivalent_uniform_half_shift,
    generate_equivalence_class, generate_equivalence_class_fast, generate_symmetry_group,
};
use quadseq::quad::QuadSeq;
use quadseq::symmetries::{Generator, SequenceType};

fn contains(set: &Vec<QuadSeq>, q: &QuadSeq) -> bool {
    set.iter().any(|s| s.same_as(q))
}

#[test]
fn test_dual_half_shift() {
    let mut q = QuadSeq::new(4);

    let a = vec![1, 1, -1, -1];
    let b = vec![1, 1, -1, -1];
    let c = vec![1, 1, -1, -1];
    let d = vec![1, 1, -1, -1];

    q.set_all_values((&a, &b, &c, &d));

    let shifted = equivalent_uniform_half_shift(&q, SequenceType::QuaternionType, true);

    for seq in shifted {
        println!("{}\n", seq.to_string());
    }
}

#[test]
fn test_equiv() {
    let a = vec![-1, -1, -1];
    let b = vec![-1, -1, 1];
    let c = vec![-1, -1, 1];
    let d = vec![-1, -1, 1];

    let mut qs = QuadSeq::new(3);
    qs.set_all_values((&a, &b, &c, &d));

    let symmetries = generate_symmetry_group(3, SequenceType::QuaternionType, &SequenceType::QuaternionType.equivalences());
    let equiv = generate_equivalence_class_fast(&qs, &symmetries);
    let equiv_old = generate_equivalence_class(&qs, SequenceType::QuaternionType, &SequenceType::QuaternionType.equivalences(), false);

    for elm in equiv.iter() {
        assert!(contains(&equiv_old, elm), "New fn returns seq not found in unoptimized build: {}", elm.to_string());
    }
    for elm in equiv_old.iter() {
        assert!(contains(&equiv, elm), "Old fn returns seq not found in optimized build: {}", elm.to_string());
    }
}

#[test]
fn test_disjoint_swap() {
    let a = vec![-1, -1, -1];
    let b = vec![-1, -1, 1];
    let c = vec![-1, 1, -1];
    let d = vec![-1, 1, 1];

    let mut qs = QuadSeq::new(3);
    qs.set_all_values((&a, &b, &c, &d));

    let h_equ = equivalent_disjoint_swaps(&qs, SequenceType::QuaternionType, false);
    println!("Orig seq:\n{}\nEquivalence class:", qs.to_string());
    for seq in h_equ.iter() {
        println!("{}", seq.to_string());
    }

    assert_eq!(h_equ.len(), 4);
}

#[test]
fn test_coprime() {
    assert!(coprime(5, 7));
    assert!(!coprime(16, 12));
    assert!(!coprime(42, 15));
    assert!(coprime(33, 28));
    assert!(coprime(12, 11));

    for i in 1..101usize {
        let list: Vec<usize> = (1..=i).filter(|j| coprime(i, *j)).collect();
        println!("{:?}", list);
    }
}

#[test]
fn equ_negate_swap() {
    let w = vec![-1, -1, -1];
    let x = vec![-1, -1, 1];
    let y = vec![-1, -1, 1];
    let z = vec![1, 1, -1];

    let size = x.len();

    let mut qts = QuadSeq::new(size);
    qts.set_all_values((&w, &x, &y, &z));

    let class = generate_equivalence_class(&qts, SequenceType::QuaternionType, &vec![Generator::NegateSwap], false);
    println!("orig seq: {}\nequivalence class:", qts.to_string());

    for seq in class.iter() {
        println!("{}", seq.to_string());
        assert!(seq.verify(SequenceType::QuaternionType));

        let neg_swap = equivalent_negate_swap(seq, SequenceType::QuaternionType, false);
        for alt_seq in neg_swap.iter() {
            assert!(contains(&class, alt_seq));
        }
    }
}
