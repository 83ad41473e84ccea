use quadseq::equivalence::{generate_canonical_representative, generate_equivalence_class};
use quadseq::matching::{generate_matching_table, join_matching_pairs};
use quadseq::matrices::HM;
use quadseq::quad::{periodic_autocorrelation, QuadSeq, SequenceTag};
use quadseq::rowsum::{generate_sequences_with_rowsum, rowsum};
use quadseq::symmetries::SequenceType;

fn quad(x: &Vec<i8>, y: &Vec<i8>, z: &Vec<i8>, w: &Vec<i8>) -> QuadSeq {
    let mut q = QuadSeq::new(x.len());
    q.set_all_values((x, y, z, w));
    q
}

fn same_set(a: &Vec<QuadSeq>, b: &Vec<QuadSeq>) -> bool {
    a.iter().all(|s| b.iter().any(|t| t.same_as(s))) && b.iter().all(|s| a.iter().any(|t| t.same_as(s)))
}

fn all_sequences(n: usize) -> Vec<Vec<i8>> {
    let mut out = vec![];
    for mask in 0..(1u32 << n) {
        out.push((0..n).map(|i| if mask >> i & 1 == 1 { 1 } else { -1 }).collect());
    }
    out
}

fn qts_of_length_ten() -> QuadSeq {
    let seq_x = vec![1, -1, -1, -1, 1, 1, -1, 1, -1, 1];
    let seq_y = vec![-1, 1, 1, 1, -1, 1, -1, -1, -1, 1];
    let seq_z = vec![1, 1, 1, 1, 1, -1, -1, 1, -1, -1];
    let seq_w = vec![1, 1, -1, 1, 1, 1, 1, -1, 1, 1];
    quad(&seq_x, &seq_y, &seq_z, &seq_w)
}

#[test]
fn scenario_length_six() {
    let w = vec![1, 1, 1, 1, 1, -1];
    let x = vec![1, 1, 1, -1, -1, 1];
    let y = vec![1, -1, -1, 1, 1, 1];
    let z = vec![1, -1, 1, 1, -1, -1];
    let sums: Vec<isize> = [&w, &x, &y, &z].iter().map(|s| rowsum((*s).clone())).collect();
    let mut sorted = sums.clone();
    sorted.sort();
    assert_eq!(sorted, vec![0, 2, 2, 4]);
    assert_eq!(sums.iter().map(|r| r * r).sum::<isize>(), 24);
    let totals: Vec<isize> = (1..6)
        .map(|t| {
            periodic_autocorrelation(&w, t) + periodic_autocorrelation(&x, t)
                + periodic_autocorrelation(&y, t) + periodic_autocorrelation(&z, t)
        })
        .collect();
    assert_eq!(totals, vec![4, -4, 0, -4, 4]);
    assert!(!quad(&x, &y, &z, &w).is_periodic_complementary());
}

#[test]
fn complementary_quadruple_of_length_six() {
    let x = vec![1, -1, 1, -1, -1, 1];
    let y = vec![1, 1, 1, 1, 1, -1];
    let z = vec![1, -1, -1, 1, 1, 1];
    let w = vec![1, 1, 1, -1, 1, -1];
    let sums: Vec<isize> = [&x, &y, &z, &w].iter().map(|s| rowsum((*s).clone())).collect();
    assert_eq!(sums, vec![0, 4, 2, 2]);
    assert_eq!(sums.iter().map(|r| r * r).sum::<isize>(), 24);
    for t in 1..6 {
        let total = periodic_autocorrelation(&w, t) + periodic_autocorrelation(&x, t)
            + periodic_autocorrelation(&y, t) + periodic_autocorrelation(&z, t);
        assert_eq!(total, 0);
    }
    assert!(quad(&x, &y, &z, &w).is_periodic_complementary());
}

#[test]
fn autocorrelations_of_accepted_quadruple() {
    let q = qts_of_length_ten();
    assert!(q.is_periodic_complementary());
    let (a, b, c, d) = q.sequences();
    let total0 = periodic_autocorrelation(&a, 0) + periodic_autocorrelation(&b, 0)
        + periodic_autocorrelation(&c, 0) + periodic_autocorrelation(&d, 0);
    assert_eq!(total0, 40);
    for t in 1..10 {
        let total = periodic_autocorrelation(&a, t) + periodic_autocorrelation(&b, t)
            + periodic_autocorrelation(&c, t) + periodic_autocorrelation(&d, t);
        assert_eq!(total, 0);
    }
}

#[test]
fn generators_keep_quaternion_type_validity() {
    let q = qts_of_length_ten();
    assert!(q.verify(SequenceType::QuaternionType));
    let class = generate_equivalence_class(&q, SequenceType::QuaternionType, &vec![quadseq::symmetries::Generator::NegateSwap, quadseq::symmetries::Generator::DoubleNegate, quadseq::symmetries::Generator::Reverse], false);
    for s in &class {
        assert!(s.verify(SequenceType::QuaternionType));
    }
}

#[test]
fn class_does_not_depend_on_member() {
    let a = vec![-1, -1, -1];
    let b = vec![-1, -1, 1];
    let c = vec![-1, -1, 1];
    let d = vec![-1, -1, 1];
    let s1 = quad(&a, &b, &c, &d);
    let gens = SequenceType::QuaternionType.equivalences();
    let class1 = generate_equivalence_class(&s1, SequenceType::QuaternionType, &gens, false);
    for s2 in class1.iter().step_by(7) {
        let class2 = generate_equivalence_class(s2, SequenceType::QuaternionType, &gens, false);
        assert!(same_set(&class1, &class2));
    }
}

#[test]
fn canonical_representative_is_a_fixed_point() {
    let q = qts_of_length_ten();
    let rep = generate_canonical_representative(&q, SequenceType::WilliamsonType);
    let again = generate_canonical_representative(&rep, SequenceType::WilliamsonType);
    assert!(again.same_as(&rep));
    let small = quad(&vec![-1, -1, -1], &vec![-1, -1, 1], &vec![-1, -1, 1], &vec![-1, -1, 1]);
    let rep = generate_canonical_representative(&small, SequenceType::QuaternionType);
    assert!(generate_canonical_representative(&rep, SequenceType::QuaternionType).same_as(&rep));
}

fn join_all(n: usize) -> Vec<QuadSeq> {
    let seqs = all_sequences(n);
    let mut pairs = vec![];
    for i in 0..seqs.len() {
        for j in 0..seqs.len() {
            pairs.push((i, j));
        }
    }
    let tags1 = (SequenceTag::X, SequenceTag::Y);
    let tags2 = (SequenceTag::Z, SequenceTag::W);
    let table = generate_matching_table(&seqs, &seqs, &tags1, &pairs);
    join_matching_pairs(&table, &seqs, &seqs, &tags1, &seqs, &seqs, &tags2, &pairs)
}

fn brute_force(n: usize) -> Vec<QuadSeq> {
    let seqs = all_sequences(n);
    let mut out = vec![];
    for a in &seqs {
        for b in &seqs {
            for c in &seqs {
                for d in &seqs {
                    let q = quad(a, b, c, d);
                    if q.verify_qts() {
                        out.push(q);
                    }
                }
            }
        }
    }
    out
}

#[test]
fn join_matches_brute_force_on_small_lengths() {
    for n in 3..5 {
        let joined = join_all(n);
        let brute = brute_force(n);
        assert!(!brute.is_empty());
        assert!(same_set(&joined, &brute), "length {}", n);
    }
}

#[test]
fn rowsum_classes_partition_the_sequences() {
    let mut total = 0;
    for r in -4..=4 {
        total += generate_sequences_with_rowsum(r, 4).len();
    }
    assert_eq!(total, 16);
}

#[test]
fn template_matrix_is_hadamard() {
    let q = qts_of_length_ten();
    let hm = HM::from_williamson(&q, SequenceType::QuaternionType).unwrap();
    let n = hm.size();
    assert_eq!(n, 40);
    for i in 0..n {
        for j in 0..n {
            let dot: i32 = (0..n).map(|k| (hm.get(i, k) * hm.get(j, k)) as i32).sum();
            assert_eq!(dot, if i == j { 40 } else { 0 });
        }
    }
    assert!(HM::from_williamson(&q, SequenceType::Williamson).is_none());
}

#[test]
fn every_generator_keeps_validity_on_small_solutions() {
    for n in 3..6 {
        let sols = brute_force(n);
        for seqtype in [SequenceType::QuaternionType, SequenceType::WilliamsonType, SequenceType::Williamson] {
            for q in sols.iter().filter(|q| q.verify(seqtype)) {
                for g in seqtype.equivalences() {
                    for img in quadseq::equivalence::apply_generator(g, q) {
                        assert!(img.verify(seqtype), "{:?} on length {} for {}", g, n, seqtype.to_string());
                    }
                }
            }
        }
    }
}

#[test]
fn reduction_by_symmetry_group_keeps_one_per_class() {
    let sols: Vec<QuadSeq> = brute_force(3);
    let gens = SequenceType::QuaternionType.equivalences();
    let reps = quadseq::equivalence::reduce_to_equivalence(&sols, SequenceType::QuaternionType, &gens);
    assert!(!reps.is_empty());
    for (i, a) in reps.iter().enumerate() {
        let class = generate_equivalence_class(a, SequenceType::QuaternionType, &gens, false);
        for b in reps.iter().skip(i + 1) {
            assert!(!class.iter().any(|m| m.same_as(b)));
        }
    }
    for s in &sols {
        assert!(reps.iter().any(|r| r.equivalent_to(s.clone(), SequenceType::QuaternionType)));
    }
}
