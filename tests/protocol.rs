use sparta::dense::{DenseMatrix, DenseVector};
use sparta::field::FiniteField;
use sparta::prover::{
    Proof, RECORD_SCALARS, ccs_relation_holds, compute_g, compute_h, compute_q1, compute_q2, compute_q3, mi_z_prod, prove,
    prove_with_challenges, ti_generator, Ccs, Challenges, ProtocolError,
};
use sparta::replay::verify;

const P: i32 = 101;
const BIG: i32 = 2147483647;

fn f(v: i32) -> FiniteField {
    FiniteField::new(v, P)
}

fn witness() -> DenseVector {
    DenseVector::from_vec(vec![0, 1, 1, 2, 3, 6, 6, 1])
}

fn challenges(alpha: i32, b1: i32, b2: i32, r11: i32, r22: i32, r33: i32) -> Challenges {
    Challenges {
        alpha: f(alpha),
        beta1: f(b1),
        beta2: f(b2),
        r1: f(1),
        r2: f(0),
        r11: f(r11),
        r22: f(r22),
        r33: f(r33),
    }
}

#[test]
fn reference_witness_satisfies_the_relation() {
    let ccs = Ccs::reference(P);
    assert_eq!(ccs_relation_holds(&ccs, &witness()), Ok(true));
}

#[test]
fn mutated_witness_breaks_the_relation() {
    let ccs = Ccs::reference(P);
    let z = DenseVector::from_vec(vec![0, 1, 1, 2, 4, 6, 6, 1]);
    assert_eq!(ccs_relation_holds(&ccs, &z), Ok(false));
}

#[test]
fn short_witness_is_malformed() {
    let ccs = Ccs::reference(P);
    let z = DenseVector::from_vec(vec![0, 1, 1, 2, 3, 6, 6]);
    assert_eq!(ccs_relation_holds(&ccs, &z), Err(ProtocolError::MalformedInstance));
    assert!(matches!(
        prove_with_challenges(&ccs, z, &challenges(1, 2, 3, 4, 5, 6)),
        Err(ProtocolError::MalformedInstance)
    ));
}

#[test]
fn instance_with_wrong_shape_is_malformed() {
    let zeros = [0; 24];
    let m = || DenseMatrix::from_row_slice(4, 8, &[0; 32]);
    let short = DenseMatrix::from_row_slice(3, 8, &zeros);
    assert!(matches!(Ccs::new(P, short, m(), m()), Err(ProtocolError::MalformedInstance)));
    assert!(matches!(Ccs::new(1, m(), m(), m()), Err(ProtocolError::MalformedInstance)));
    assert!(Ccs::new(P, m(), m(), m()).is_ok());
}

#[test]
fn mi_z_prod_couples_row_bits_to_column_bits() {
    let ccs = Ccs::reference(P);
    let z = witness();
    assert_eq!(mi_z_prod(&ccs.m1, &z, P).get_value(), 1);
    assert_eq!(mi_z_prod(&ccs.m2, &z, P).get_value(), 0);
    assert_eq!(mi_z_prod(&ccs.m3, &z, P).get_value(), 12);
}

#[test]
fn compute_g_and_h_on_the_reference_witness() {
    let ccs = Ccs::reference(P);
    let z = witness();
    // 1 * 0 - 12
    assert_eq!(compute_g(&ccs, &z).get_value(), P - 12);
    // four boolean row points, each with eq(x, x) = 1
    assert_eq!(compute_h(&ccs, &z).get_value(), 53);
}

#[test]
fn ti_generator_reads_a_row_of_the_product() {
    let ccs = Ccs::reference(P);
    let z = witness();
    assert_eq!(ti_generator(&ccs.m1, &z, f(1), f(0)).get_value(), 3);
    assert_eq!(ti_generator(&ccs.m2, &z, f(1), f(0)).get_value(), 2);
    assert_eq!(ti_generator(&ccs.m3, &z, f(1), f(0)).get_value(), 6);
    assert_eq!(ti_generator(&ccs.m1, &z, f(0), f(0)).get_value(), 1);
    assert_eq!(ti_generator(&ccs.m2, &z, f(0), f(0)).get_value(), 1);
    assert_eq!(ti_generator(&ccs.m3, &z, f(0), f(0)).get_value(), 1);
}

#[test]
fn round_polynomials_on_boolean_points() {
    let ccs = Ccs::reference(P);
    let z = witness();
    let alpha = f(5);
    // column 4 of row 1: only M1 is non-zero there, z[4] = 3
    assert_eq!(compute_q3(&ccs, f(1), f(1), f(0), f(0), f(0), alpha, &z).get_value(), 3);
    // column 5 of row 1: M3 is 1 there, alpha^2 * z[5] = 150
    assert_eq!(compute_q3(&ccs, f(1), f(1), f(0), f(1), f(0), alpha, &z).get_value(), 150 % P);
    // q1(0) + q1(1) = T1 + alpha T2 + alpha^2 T3 = 3 + 10 + 150
    let s = compute_q1(&ccs, f(0), f(1), f(0), alpha, &z).add(&compute_q1(&ccs, f(1), f(1), f(0), alpha, &z));
    assert_eq!(s.get_value(), 163 % P);
}

#[test]
fn round_sums_chain_at_arbitrary_challenges() {
    let ccs = Ccs::reference(P);
    let z = witness();
    let (alpha, r1, r2, r11, r22) = (f(17), f(4), f(9), f(33), f(71));
    let q2_sum = compute_q2(&ccs, f(0), r1, r2, r11, alpha, &z).add(&compute_q2(&ccs, f(1), r1, r2, r11, alpha, &z));
    assert_eq!(q2_sum, compute_q1(&ccs, r11, r1, r2, alpha, &z));
    let q3_sum = compute_q3(&ccs, f(0), r1, r2, r11, r22, alpha, &z)
        .add(&compute_q3(&ccs, f(1), r1, r2, r11, r22, alpha, &z));
    assert_eq!(q3_sum, compute_q2(&ccs, r22, r1, r2, r11, alpha, &z));
}

#[test]
fn honest_proof_records_the_claims() {
    let ccs = Ccs::reference(P);
    let pf = prove_with_challenges(&ccs, witness(), &challenges(5, 3, 5, 7, 11, 13)).unwrap();
    assert_eq!(pf.t1.get_value(), 3);
    assert_eq!(pf.t2.get_value(), 2);
    assert_eq!(pf.t3.get_value(), 6);
    assert_eq!(pf.t.get_value(), 163 % P);
    // Q = g * eq((3, 5), (1, 0)) = (-12) * (3 * -4) = 144
    assert_eq!(pf.q.get_value(), 144 % P);
    assert_eq!(pf.s1, pf.t);
    assert_eq!(pf.z.get(4), 3);
}

#[test]
fn reference_rounds_hold_for_every_draw() {
    let ccs = Ccs::reference(P);
    for k in 0..20 {
        let ch = challenges(k * 7 + 1, k, 2 * k + 1, k * 13 + 5, 100 - k, k * k);
        let pf = prove_with_challenges(&ccs, witness(), &ch).unwrap();
        let v = verify(&ccs, &pf);
        assert!(v.round1.holds);
        assert!(v.round2.holds);
        assert!(v.round3.holds);
        assert!(v.final_c.holds);
    }
}

#[test]
fn reference_rounds_hold_for_random_challenges() {
    let ccs = Ccs::reference(BIG);
    for _ in 0..10 {
        let z = DenseVector::from_vec(vec![0, 1, 1, 2, 3, 6, 6, 1]);
        let pf = prove(&ccs, z).unwrap();
        assert_eq!(pf.r1.get_value(), 1);
        assert_eq!(pf.r2.get_value(), 0);
        let v = verify(&ccs, &pf);
        assert!(v.round1.holds && v.round2.holds && v.round3.holds && v.final_c.holds);
    }
}

#[test]
fn reference_proof_accepted_when_outer_point_selects_no_row() {
    // with beta1 = 0, eq(beta, (1, 0)) vanishes: Q = 0 and T1 T2 - T3 = 0
    let ccs = Ccs::reference(P);
    let pf = prove_with_challenges(&ccs, witness(), &challenges(9, 0, 42, 8, 19, 77)).unwrap();
    let v = verify(&ccs, &pf);
    assert!(v.accepted());
}

#[test]
fn reference_proof_outer_checks_report_values() {
    let ccs = Ccs::reference(P);
    let pf = prove_with_challenges(&ccs, witness(), &challenges(5, 3, 5, 7, 11, 13)).unwrap();
    let v = verify(&ccs, &pf);
    // Q = 43, four times over is 172 = 71
    assert_eq!(v.outer.expected.get_value(), 0);
    assert_eq!(v.outer.actual.get_value(), 71);
    assert!(!v.outer.holds);
    assert_eq!(v.final_q.expected.get_value(), 0);
    assert_eq!(v.final_q.actual.get_value(), 43);
    assert!(!v.final_q.holds);
    assert!(!v.accepted());
}

#[test]
fn mutated_witness_fails_a_check() {
    let ccs = Ccs::reference(P);
    let z = DenseVector::from_vec(vec![0, 1, 1, 2, 4, 6, 6, 1]);
    let pf = prove_with_challenges(&ccs, z, &challenges(5, 1, 0, 7, 11, 13)).unwrap();
    let v = verify(&ccs, &pf);
    // (T1 T2 - T3) eq((1, 0), (1, 0)) = 4 * 2 - 6 = 2, while Q = g = -12
    assert_eq!(v.final_q.expected.get_value(), 2);
    assert_eq!(v.final_q.actual.get_value(), P - 12);
    assert!(!v.accepted());
}

#[test]
fn mutated_witness_rejected_under_random_challenges() {
    let ccs = Ccs::reference(BIG);
    for _ in 0..20 {
        let z = DenseVector::from_vec(vec![0, 1, 1, 2, 4, 6, 6, 1]);
        let pf = prove(&ccs, z).unwrap();
        assert!(!verify(&ccs, &pf).accepted());
    }
}

#[test]
fn tampered_round_sum_is_caught() {
    let ccs = Ccs::reference(P);
    let mut pf = prove_with_challenges(&ccs, witness(), &challenges(5, 3, 5, 7, 11, 13)).unwrap();
    pf.s2 = pf.s2.add(&f(1));
    let v = verify(&ccs, &pf);
    assert!(!v.round2.holds);
    assert!(v.round1.holds && v.round3.holds && v.final_c.holds);
    pf.c = pf.c.add(&f(1));
    assert!(!verify(&ccs, &pf).final_c.holds);
}

#[test]
fn verifying_twice_gives_the_same_outcome() {
    let ccs = Ccs::reference(P);
    let pf = prove_with_challenges(&ccs, witness(), &challenges(5, 3, 5, 7, 11, 13)).unwrap();
    let a = verify(&ccs, &pf);
    let b = verify(&ccs, &pf);
    assert_eq!(a.outer.holds, b.outer.holds);
    assert_eq!(a.round1.holds, b.round1.holds);
    assert_eq!(a.round2.holds, b.round2.holds);
    assert_eq!(a.round3.holds, b.round3.holds);
    assert_eq!(a.final_c.holds, b.final_c.holds);
    assert_eq!(a.final_q.holds, b.final_q.holds);
    assert_eq!(a.accepted(), b.accepted());
}

#[test]
fn proof_record_round_trip() {
    let ccs = Ccs::reference(P);
    let pf = prove_with_challenges(&ccs, witness(), &challenges(5, 3, 5, 7, 11, 13)).unwrap();
    let record = pf.to_record();
    assert_eq!(record.len(), RECORD_SCALARS + 8);
    assert_eq!(record[0], 3);
    assert_eq!(record[7], 5);
    assert_eq!(record[12], pf.q.get_value());
    assert_eq!(&record[RECORD_SCALARS..], &[0, 1, 1, 2, 3, 6, 6, 1]);
    let back = Proof::from_record(P, &record).unwrap();
    assert_eq!(back.to_record(), record);
    let a = verify(&ccs, &pf);
    let b = verify(&ccs, &back);
    assert_eq!(a.accepted(), b.accepted());
    assert_eq!(a.round1.holds, b.round1.holds);
    assert_eq!(a.final_q.actual, b.final_q.actual);
}

#[test]
fn proof_record_of_wrong_length_is_refused() {
    assert!(Proof::from_record(P, &[1, 2, 3]).is_none());
    assert!(Proof::from_record(P, &[0; 26]).is_none());
    let back = Proof::from_record(P, &[-1; 25]).unwrap();
    assert_eq!(back.alpha.get_value(), P - 1);
    assert_eq!(back.z.get(0), -1);
}
