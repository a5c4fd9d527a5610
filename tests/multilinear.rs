use sparta::dense::{DenseMatrix, DenseVector};
use sparta::field::FiniteField;
use sparta::mle::{col, eqx, eqy, mi_linear, row, z_linear};
use sparta::prover::Ccs;

const P: i32 = 101;

const REF_M1: [i32; 32] = [
    1, 1, 0, 0, 0, 0, 0, 0, //
    0, 0, 0, 0, 1, 0, 0, 0, //
    0, 0, 1, 0, 0, 0, 0, 0, //
    0, 0, 0, 0, 0, 0, 0, 0,
];

fn f(v: i32) -> FiniteField {
    FiniteField::new(v, P)
}

#[test]
fn row_and_col_are_little_endian() {
    assert_eq!(row(0, 0), 0);
    assert_eq!(row(1, 0), 1);
    assert_eq!(row(0, 1), 2);
    assert_eq!(row(1, 1), 3);
    assert_eq!(col(1, 0, 0), 1);
    assert_eq!(col(0, 1, 0), 2);
    assert_eq!(col(1, 0, 1), 5);
    assert_eq!(col(1, 1, 1), 7);
}

#[test]
fn eq_indicators_on_boolean_points() {
    for a in 0..4 {
        for b in 0..4 {
            let e = eqx(f(a % 2), f(a / 2), f(b % 2), f(b / 2)).get_value();
            assert_eq!(e, if a == b { 1 } else { 0 });
        }
    }
    for a in 0..8 {
        for b in 0..8 {
            let e = eqy(f(a % 2), f(b % 2), f((a / 2) % 2), f((b / 2) % 2), f(a / 4), f(b / 4));
            assert_eq!(e.get_value(), if a == b { 1 } else { 0 });
        }
    }
}

#[test]
fn eq_extension_off_the_hypercube_is_symmetric() {
    // eq_bit(2, 5) = 14, eq_bit(3, 7) = 33, 14 * 33 = 462 = 58 (mod 101)
    assert_eq!(eqx(f(2), f(3), f(5), f(7)).get_value(), 58);
    assert_eq!(eqx(f(5), f(7), f(2), f(3)).get_value(), 58);
    let a = eqy(f(2), f(9), f(4), f(1), f(6), f(3));
    let b = eqy(f(9), f(2), f(1), f(4), f(3), f(6));
    assert_eq!(a, b);
}

#[test]
fn mi_linear_matches_entries_on_the_hypercube() {
    let ccs = Ccs::reference(P);
    for r in 0..4 {
        for c in 0..8 {
            let v = mi_linear(&ccs.m1, f(r % 2), f(r / 2), f(c % 2), f((c / 2) % 2), f(c / 4));
            assert_eq!(v.get_value(), REF_M1[(r * 8 + c) as usize]);
        }
    }
}

#[test]
fn mi_linear_extends_off_the_hypercube() {
    let ccs = Ccs::reference(P);
    // only M1[0][0] survives at column 0; eq((0, 0), (2, 0)) = -1
    assert_eq!(mi_linear(&ccs.m1, f(2), f(0), f(0), f(0), f(0)).get_value(), 100);
}

#[test]
fn mi_linear_of_a_zero_row_is_zero() {
    let ccs = Ccs::reference(P);
    for c in 0..8 {
        let v = mi_linear(&ccs.m3, f(1), f(1), f(c % 2), f((c / 2) % 2), f(c / 4));
        assert_eq!(v.get_value(), 0);
    }
}

#[test]
fn z_linear_matches_entries_on_the_hypercube() {
    let entries = vec![0, 1, 1, 2, 3, 6, 6, 1];
    let z = DenseVector::from_vec(entries.clone());
    for c in 0..8 {
        let v = z_linear(&z, f(c % 2), f((c / 2) % 2), f(c / 4));
        assert_eq!(v.get_value(), entries[c as usize]);
    }
}

#[test]
fn z_linear_extends_linearly() {
    let z = DenseVector::from_vec(vec![0, 1, 1, 2, 3, 6, 6, 1]);
    // along the first bit: z(2) = 2 * z[1] - z[0] = 2
    assert_eq!(z_linear(&z, f(2), f(0), f(0)).get_value(), 2);
}

#[test]
fn matrices_and_vectors_hold_their_entries() {
    let m = DenseMatrix::from_row_slice(2, 3, &[1, 2, 3, 4, 5, 6]);
    assert_eq!(m.nrows(), 2);
    assert_eq!(m.ncols(), 3);
    assert_eq!(m.entry(1, 2), 6);
    assert_eq!(m.entry(0, 1), 2);
    assert!(DenseMatrix::try_from_row_slice(2, 3, &[1, 2, 3, 4, 5]).is_none());
    assert!(DenseMatrix::try_from_row_slice(2, 3, &[1, 2, 3, 4, 5, 6]).is_some());
    let v = DenseVector::from_vec(vec![7, 8, 9]);
    assert_eq!(v.len(), 3);
    assert_eq!(v.get(2), 9);
}
