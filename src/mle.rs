use vstd::prelude::*;
use vstd::arithmetic::div_mod::{lemma_add_mod_noop, lemma_mul_mod_noop};
use crate::dense::{has_shape, DenseMatrix, DenseVector};
use crate::field::FiniteField;

verus! {

/// The row index of the boolean point `(x1, x2)`, low bit first.
pub open spec fn row_of(x1: int, x2: int) -> int {
    x1 + 2 * x2
}

/// The column index of the boolean point `(y1, y2, y3)`, low bit first.
pub open spec fn col_of(y1: int, y2: int, y3: int) -> int {
    y1 + 2 * y2 + 4 * y3
}

pub open spec fn is_bit(b: int) -> bool {
    b == 0 || b == 1
}

/// The bilinear extension of equality of two bits.
pub open spec fn eq_bit(u: int, v: int) -> int {
    u * v + (1 - u) * (1 - v)
}

/// The eq-indicator of two row points `(x1, x2)` and `(x11, x22)`.
pub open spec fn eqx_of(x1: int, x2: int, x11: int, x22: int) -> int {
    eq_bit(x1, x11) * eq_bit(x2, x22)
}

/// The eq-indicator of two column points `(y1, y2, y3)` and `(y11, y22, y33)`.
pub open spec fn eqy_of(y1: int, y11: int, y2: int, y22: int, y3: int, y33: int) -> int {
    eq_bit(y1, y11) * eq_bit(y2, y22) * eq_bit(y3, y33)
}

/// The boolean row point of row index `i < 4`.
pub open spec fn row_point(i: int) -> (int, int) {
    (i % 2, i / 2)
}

/// The boolean column point of column index `j < 8`.
pub open spec fn col_point(j: int) -> (int, int, int) {
    (j % 2, (j / 2) % 2, j / 4)
}

pub open spec fn eqx_at(a: (int, int), b: (int, int)) -> int {
    eqx_of(a.0, a.1, b.0, b.1)
}

pub open spec fn eqy_at(a: (int, int, int), b: (int, int, int)) -> int {
    eqy_of(a.0, b.0, a.1, b.1, a.2, b.2)
}

/// The summand of a matrix's multilinear extension for entry `(i, j)`.
pub open spec fn matrix_term(m: Seq<Seq<i32>>, i: int, j: int, x: (int, int), y: (int, int, int)) -> int {
    m[i][j] * eqx_at(row_point(i), x) * eqy_at(col_point(j), y)
}

/// The summands of row `i` over its first `n` columns.
pub open spec fn matrix_row_sum(
    m: Seq<Seq<i32>>,
    i: int,
    n: int,
    x: (int, int),
    y: (int, int, int),
) -> int
    decreases n,
{
    if n <= 0 {
        0
    } else {
        matrix_row_sum(m, i, n - 1, x, y) + matrix_term(m, i, n - 1, x, y)
    }
}

/// The summands of the first `k` rows, over all 8 columns.
pub open spec fn matrix_sum(m: Seq<Seq<i32>>, k: int, x: (int, int), y: (int, int, int)) -> int
    decreases k,
{
    if k <= 0 {
        0
    } else {
        matrix_sum(m, k - 1, x, y) + matrix_row_sum(m, k - 1, 8, x, y)
    }
}

/// The multilinear extension of a 4 by 8 table, viewed as a function of two
/// row bits and three column bits, at the point `(x, y)`: the sum over every
/// entry of the entry times the eq-indicators of its row and column points.
pub open spec fn matrix_mle(m: Seq<Seq<i32>>, x: (int, int), y: (int, int, int)) -> int {
    matrix_sum(m, 4, x, y)
}

/// The summand of a vector's multilinear extension for entry `j`.
pub open spec fn vector_term(z: Seq<i32>, j: int, y: (int, int, int)) -> int {
    z[j] * eqy_at(col_point(j), y)
}

/// The summands of the first `n` entries.
pub open spec fn vector_sum(z: Seq<i32>, n: int, y: (int, int, int)) -> int
    decreases n,
{
    if n <= 0 {
        0
    } else {
        vector_sum(z, n - 1, y) + vector_term(z, n - 1, y)
    }
}

/// The multilinear extension of a vector of 8 entries at the point `y`.
pub open spec fn vector_mle(z: Seq<i32>, y: (int, int, int)) -> int {
    vector_sum(z, 8, y)
}

proof fn lemma_eq_bit_on_bits(u: int, v: int)
    requires
        is_bit(u),
        is_bit(v),
    ensures
        eq_bit(u, v) == if u == v { 1int } else { 0int },
{
    if u == 0 {
        assert(eq_bit(u, v) == 1 - v);
    } else {
        assert(eq_bit(u, v) == v);
    }
}

proof fn lemma_eq_bit_symmetric(u: int, v: int)
    ensures
        eq_bit(u, v) == eq_bit(v, u),
{
    assert(u * v + (1 - u) * (1 - v) == v * u + (1 - v) * (1 - u)) by (nonlinear_arith);
}

/// On boolean points the row eq-indicator of row index `i` picks out the row
/// of `x`.
proof fn lemma_eqx_selects_row(i: int, x: (int, int))
    requires
        0 <= i < 4,
        is_bit(x.0),
        is_bit(x.1),
    ensures
        eqx_at(row_point(i), x) == if i == row_of(x.0, x.1) { 1int } else { 0int },
{
    lemma_eq_bit_on_bits(i % 2, x.0);
    lemma_eq_bit_on_bits(i / 2, x.1);
}

/// On boolean points the column eq-indicator of column index `j` picks out the
/// column of `y`.
proof fn lemma_eqy_selects_col(j: int, y: (int, int, int))
    requires
        0 <= j < 8,
        is_bit(y.0),
        is_bit(y.1),
        is_bit(y.2),
    ensures
        eqy_at(col_point(j), y) == if j == col_of(y.0, y.1, y.2) { 1int } else { 0int },
{
    lemma_eq_bit_on_bits(j % 2, y.0);
    lemma_eq_bit_on_bits((j / 2) % 2, y.1);
    lemma_eq_bit_on_bits(j / 4, y.2);
}

proof fn lemma_matrix_row_sum_on_bits(
    m: Seq<Seq<i32>>,
    i: int,
    n: int,
    x: (int, int),
    y: (int, int, int),
)
    requires
        has_shape(m, 4, 8),
        0 <= i < 4,
        0 <= n <= 8,
        is_bit(x.0),
        is_bit(x.1),
        is_bit(y.0),
        is_bit(y.1),
        is_bit(y.2),
    ensures
        matrix_row_sum(m, i, n, x, y) == if i == row_of(x.0, x.1) && col_of(y.0, y.1, y.2) < n {
            m[i][col_of(y.0, y.1, y.2)] as int
        } else {
            0int
        },
    decreases n,
{
    if n > 0 {
        lemma_matrix_row_sum_on_bits(m, i, n - 1, x, y);
        lemma_eqx_selects_row(i, x);
        lemma_eqy_selects_col(n - 1, y);
    }
}

proof fn lemma_matrix_sum_on_bits(m: Seq<Seq<i32>>, k: int, x: (int, int), y: (int, int, int))
    requires
        has_shape(m, 4, 8),
        0 <= k <= 4,
        is_bit(x.0),
        is_bit(x.1),
        is_bit(y.0),
        is_bit(y.1),
        is_bit(y.2),
    ensures
        matrix_sum(m, k, x, y) == if row_of(x.0, x.1) < k {
            m[row_of(x.0, x.1)][col_of(y.0, y.1, y.2)] as int
        } else {
            0int
        },
    decreases k,
{
    if k > 0 {
        lemma_matrix_sum_on_bits(m, k - 1, x, y);
        lemma_matrix_row_sum_on_bits(m, k - 1, 8, x, y);
    }
}

proof fn lemma_vector_sum_on_bits(z: Seq<i32>, n: int, y: (int, int, int))
    requires
        z.len() == 8,
        0 <= n <= 8,
        is_bit(y.0),
        is_bit(y.1),
        is_bit(y.2),
    ensures
        vector_sum(z, n, y) == if col_of(y.0, y.1, y.2) < n {
            z[col_of(y.0, y.1, y.2)] as int
        } else {
            0int
        },
    decreases n,
{
    if n > 0 {
        lemma_vector_sum_on_bits(z, n - 1, y);
        lemma_eqy_selects_col(n - 1, y);
    }
}

/// On the boolean hypercube the multilinear extension of a 4 by 8 matrix is
/// the matrix itself: at every boolean point `(x1, x2, y1, y2, y3)` it equals
/// the entry in row `row(x1, x2)` and column `col(y1, y2, y3)`.
pub proof fn lemma_mi_linear_on_hypercube(m: Seq<Seq<i32>>, x1: int, x2: int, y1: int, y2: int, y3: int)
    requires
        has_shape(m, 4, 8),
        is_bit(x1),
        is_bit(x2),
        is_bit(y1),
        is_bit(y2),
        is_bit(y3),
    ensures
        matrix_mle(m, (x1, x2), (y1, y2, y3)) == m[row_of(x1, x2)][col_of(y1, y2, y3)],
{
    lemma_matrix_sum_on_bits(m, 4, (x1, x2), (y1, y2, y3));
}

/// On the boolean hypercube the multilinear extension of a vector of 8
/// entries is the vector itself: at every boolean point `(y1, y2, y3)` it
/// equals the entry at `col(y1, y2, y3)`.
pub proof fn lemma_z_linear_on_hypercube(z: Seq<i32>, y1: int, y2: int, y3: int)
    requires
        z.len() == 8,
        is_bit(y1),
        is_bit(y2),
        is_bit(y3),
    ensures
        vector_mle(z, (y1, y2, y3)) == z[col_of(y1, y2, y3)],
{
    lemma_vector_sum_on_bits(z, 8, (y1, y2, y3));
}

/// The row eq-indicator is 1 on two boolean points exactly when they are
/// equal (and 0 otherwise), and it is symmetric in its two points everywhere.
pub proof fn lemma_eqx_indicator(u1: int, u2: int, v1: int, v2: int)
    ensures
        eqx_of(u1, u2, v1, v2) == eqx_of(v1, v2, u1, u2),
        is_bit(u1) && is_bit(u2) && is_bit(v1) && is_bit(v2) ==> (eqx_of(u1, u2, v1, v2) == 1
            <==> u1 == v1 && u2 == v2),
        is_bit(u1) && is_bit(u2) && is_bit(v1) && is_bit(v2) ==> (eqx_of(u1, u2, v1, v2) == 0
            <==> !(u1 == v1 && u2 == v2)),
{
    lemma_eq_bit_symmetric(u1, v1);
    lemma_eq_bit_symmetric(u2, v2);
    if is_bit(u1) && is_bit(u2) && is_bit(v1) && is_bit(v2) {
        lemma_eq_bit_on_bits(u1, v1);
        lemma_eq_bit_on_bits(u2, v2);
    }
}

/// The column eq-indicator is 1 on two boolean points exactly when they are
/// equal (and 0 otherwise), and it is symmetric in its two points everywhere.
pub proof fn lemma_eqy_indicator(u1: int, u2: int, u3: int, v1: int, v2: int, v3: int)
    ensures
        eqy_of(u1, v1, u2, v2, u3, v3) == eqy_of(v1, u1, v2, u2, v3, u3),
        is_bit(u1) && is_bit(u2) && is_bit(u3) && is_bit(v1) && is_bit(v2) && is_bit(v3) ==> (
        eqy_of(u1, v1, u2, v2, u3, v3) == 1 <==> u1 == v1 && u2 == v2 && u3 == v3),
        is_bit(u1) && is_bit(u2) && is_bit(u3) && is_bit(v1) && is_bit(v2) && is_bit(v3) ==> (
        eqy_of(u1, v1, u2, v2, u3, v3) == 0 <==> !(u1 == v1 && u2 == v2 && u3 == v3)),
{
    lemma_eq_bit_symmetric(u1, v1);
    lemma_eq_bit_symmetric(u2, v2);
    lemma_eq_bit_symmetric(u3, v3);
    if is_bit(u1) && is_bit(u2) && is_bit(u3) && is_bit(v1) && is_bit(v2) && is_bit(v3) {
        lemma_eq_bit_on_bits(u1, v1);
        lemma_eq_bit_on_bits(u2, v2);
        lemma_eq_bit_on_bits(u3, v3);
    }
}

/// `x1 + 2 * x2`, the row of a boolean point.
pub fn row(x1: i32, x2: i32) -> (r: i32)
    requires
        i32::MIN <= row_of(x1 as int, x2 as int) <= i32::MAX,
    ensures
        r == row_of(x1 as int, x2 as int),
{
    (x1 as i64 + 2 * x2 as i64) as i32
}

/// `y1 + 2 * y2 + 4 * y3`, the column of a boolean point.
pub fn col(y1: i32, y2: i32, y3: i32) -> (r: i32)
    requires
        i32::MIN <= col_of(y1 as int, y2 as int, y3 as int) <= i32::MAX,
    ensures
        r == col_of(y1 as int, y2 as int, y3 as int),
{
    (y1 as i64 + 2 * y2 as i64 + 4 * y3 as i64) as i32
}

/// `u * v + (1 - u) * (1 - v)` in the field.
fn eq_bit_field(u: FiniteField, v: FiniteField) -> (r: FiniteField)
    requires
        u.same_field(v),
        u.modulus() > 1,
    ensures
        r.wf(),
        r.modulus() == u.modulus(),
        r.val() == eq_bit(u.val(), v.val()) % u.modulus(),
{
    let p = u.prime();
    let one = FiniteField::new(1, p);
    let uv = u.mul(&v);
    let a = one.sub(&u);
    let b = one.sub(&v);
    let ab = a.mul(&b);
    proof {
        let pp = p as int;
        vstd::arithmetic::div_mod::lemma_small_mod(1, pp as nat);
        lemma_mul_mod_noop(1 - u.val(), 1 - v.val(), pp);
        lemma_add_mod_noop(u.val() * v.val(), (1 - u.val()) * (1 - v.val()), pp);
    }
    uv.add(&ab)
}

/// The eq-indicator of the row points `(x1, x2)` and `(x11, x22)`: 1 when
/// they are the same boolean point, 0 for another boolean point, and its
/// bilinear extension elsewhere.
pub fn eqx(x1: FiniteField, x2: FiniteField, x11: FiniteField, x22: FiniteField) -> (r: FiniteField)
    requires
        x1.same_field(x2),
        x1.same_field(x11),
        x1.same_field(x22),
        x1.modulus() > 1,
    ensures
        r.wf(),
        r.modulus() == x1.modulus(),
        r.val() == eqx_of(x1.val(), x2.val(), x11.val(), x22.val()) % x1.modulus(),
{
    let e1 = eq_bit_field(x1, x11);
    let e2 = eq_bit_field(x2, x22);
    proof {
        lemma_mul_mod_noop(eq_bit(x1.val(), x11.val()), eq_bit(x2.val(), x22.val()), x1.modulus());
    }
    e1.mul(&e2)
}

/// The eq-indicator of the column points `(y1, y2, y3)` and `(y11, y22, y33)`.
pub fn eqy(
    y1: FiniteField,
    y11: FiniteField,
    y2: FiniteField,
    y22: FiniteField,
    y3: FiniteField,
    y33: FiniteField,
) -> (r: FiniteField)
    requires
        y1.same_field(y11),
        y1.same_field(y2),
        y1.same_field(y22),
        y1.same_field(y3),
        y1.same_field(y33),
        y1.modulus() > 1,
    ensures
        r.wf(),
        r.modulus() == y1.modulus(),
        r.val() == eqy_of(y1.val(), y11.val(), y2.val(), y22.val(), y3.val(), y33.val())
            % y1.modulus(),
{
    let e1 = eq_bit_field(y1, y11);
    let e2 = eq_bit_field(y2, y22);
    let e3 = eq_bit_field(y3, y33);
    let e12 = e1.mul(&e2);
    proof {
        let p = y1.modulus();
        let (a, b, c) = (eq_bit(y1.val(), y11.val()), eq_bit(y2.val(), y22.val()), eq_bit(y3.val(), y33.val()));
        lemma_mul_mod_noop(a, b, p);
        lemma_mul_mod_noop(a * b, c, p);
    }
    e12.mul(&e3)
}

/// The bits of row index `i` as elements of the field of order `p`.
pub(crate) fn row_bits(i: usize, p: i32) -> (r: (FiniteField, FiniteField))
    requires
        i < 4,
        p > 1,
    ensures
        r.0.wf() && r.0.modulus() == p && r.0.val() == row_point(i as int).0,
        r.1.wf() && r.1.modulus() == p && r.1.val() == row_point(i as int).1,
{
    proof {
        vstd::arithmetic::div_mod::lemma_small_mod((i % 2) as nat, p as nat);
        vstd::arithmetic::div_mod::lemma_small_mod((i / 2) as nat, p as nat);
    }
    (FiniteField::new((i % 2) as i32, p), FiniteField::new((i / 2) as i32, p))
}

/// The bits of column index `j` as elements of the field of order `p`.
pub(crate) fn col_bits(j: usize, p: i32) -> (r: (FiniteField, FiniteField, FiniteField))
    requires
        j < 8,
        p > 1,
    ensures
        r.0.wf() && r.0.modulus() == p && r.0.val() == col_point(j as int).0,
        r.1.wf() && r.1.modulus() == p && r.1.val() == col_point(j as int).1,
        r.2.wf() && r.2.modulus() == p && r.2.val() == col_point(j as int).2,
{
    proof {
        vstd::arithmetic::div_mod::lemma_small_mod((j % 2) as nat, p as nat);
        vstd::arithmetic::div_mod::lemma_small_mod(((j / 2) % 2) as nat, p as nat);
        vstd::arithmetic::div_mod::lemma_small_mod((j / 4) as nat, p as nat);
    }
    (
        FiniteField::new((j % 2) as i32, p),
        FiniteField::new(((j / 2) % 2) as i32, p),
        FiniteField::new((j / 4) as i32, p),
    )
}

/// The multilinear extension of the 4 by 8 matrix `mi`, as a function of two
/// row bits and three column bits, at the point `(x11, x22, y11, y22, y33)`.
pub fn mi_linear(
    mi: &DenseMatrix,
    x11: FiniteField,
    x22: FiniteField,
    y11: FiniteField,
    y22: FiniteField,
    y33: FiniteField,
) -> (r: FiniteField)
    requires
        has_shape(mi@, 4, 8),
        x11.same_field(x22),
        x11.same_field(y11),
        x11.same_field(y22),
        x11.same_field(y33),
        x11.modulus() > 1,
    ensures
        r.wf(),
        r.modulus() == x11.modulus(),
        r.val() == matrix_mle(mi@, (x11.val(), x22.val()), (y11.val(), y22.val(), y33.val()))
            % x11.modulus(),
{
    let p = x11.prime();
    let ghost pp = p as int;
    let ghost m = mi@;
    let ghost x = (x11.val(), x22.val());
    let ghost y = (y11.val(), y22.val(), y33.val());
    let mut acc = FiniteField::new(0, p);
    proof {
        vstd::arithmetic::div_mod::lemma_small_mod(0, pp as nat);
    }
    let mut i: usize = 0;
    while i < 4
        invariant
            0 <= i <= 4,
            p == pp,
            pp > 1,
            m == mi@,
            has_shape(m, 4, 8),
            x == (x11.val(), x22.val()),
            y == (y11.val(), y22.val(), y33.val()),
            x11.same_field(x22),
            x11.same_field(y11),
            x11.same_field(y22),
            x11.same_field(y33),
            x11.modulus() == pp,
            acc.wf(),
            acc.modulus() == pp,
            acc.val() == matrix_sum(m, i as int, x, y) % pp,
        decreases 4 - i,
    {
        let x1 = FiniteField::new((i % 2) as i32, p);
        let x2 = FiniteField::new((i / 2) as i32, p);
        proof {
            vstd::arithmetic::div_mod::lemma_small_mod((i % 2) as nat, pp as nat);
            vstd::arithmetic::div_mod::lemma_small_mod((i / 2) as nat, pp as nat);
        }
        let ex = eqx(x1, x2, x11, x22);
        let mut j: usize = 0;
        while j < 8
            invariant
                0 <= i < 4,
                0 <= j <= 8,
                p == pp,
                pp > 1,
                m == mi@,
                has_shape(m, 4, 8),
                x == (x11.val(), x22.val()),
                y == (y11.val(), y22.val(), y33.val()),
                x11.same_field(y11),
                x11.same_field(y22),
                x11.same_field(y33),
                x11.modulus() == pp,
                ex.wf(),
                ex.modulus() == pp,
                ex.val() == eqx_at(row_point(i as int), x) % pp,
                acc.wf(),
                acc.modulus() == pp,
                acc.val() == (matrix_sum(m, i as int, x, y) + matrix_row_sum(m, i as int, j as int, x, y)) % pp,
            decreases 8 - j,
        {
            let y1 = FiniteField::new((j % 2) as i32, p);
            let y2 = FiniteField::new(((j / 2) % 2) as i32, p);
            let y3 = FiniteField::new((j / 4) as i32, p);
            proof {
                vstd::arithmetic::div_mod::lemma_small_mod((j % 2) as nat, pp as nat);
                vstd::arithmetic::div_mod::lemma_small_mod(((j / 2) % 2) as nat, pp as nat);
                vstd::arithmetic::div_mod::lemma_small_mod((j / 4) as nat, pp as nat);
            }
            let ey = eqy(y1, y11, y2, y22, y3, y33);
            let e = FiniteField::new(mi.entry(i, j), p);
            let t = e.mul(&ex).mul(&ey);
            proof {
                let ent = m[i as int][j as int] as int;
                let exv = eqx_at(row_point(i as int), x);
                let eyv = eqy_at(col_point(j as int), y);
                lemma_mul_mod_noop(ent, exv, pp);
                lemma_mul_mod_noop(ent * exv, eyv, pp);
                lemma_add_mod_noop(
                    matrix_sum(m, i as int, x, y) + matrix_row_sum(m, i as int, j as int, x, y),
                    matrix_term(m, i as int, j as int, x, y),
                    pp,
                );
            }
            acc = acc.add(&t);
            j = j + 1;
        }
        i = i + 1;
    }
    acc
}

/// The multilinear extension of the vector `zi` of 8 entries, as a function
/// of three bits, at the point `(y11, y22, y33)`.
pub fn z_linear(zi: &DenseVector, y11: FiniteField, y22: FiniteField, y33: FiniteField) -> (r: FiniteField)
    requires
        zi@.len() == 8,
        y11.same_field(y22),
        y11.same_field(y33),
        y11.modulus() > 1,
    ensures
        r.wf(),
        r.modulus() == y11.modulus(),
        r.val() == vector_mle(zi@, (y11.val(), y22.val(), y33.val())) % y11.modulus(),
{
    let p = y11.prime();
    let ghost pp = p as int;
    let ghost z = zi@;
    let ghost y = (y11.val(), y22.val(), y33.val());
    let mut acc = FiniteField::new(0, p);
    proof {
        vstd::arithmetic::div_mod::lemma_small_mod(0, pp as nat);
    }
    let mut j: usize = 0;
    while j < 8
        invariant
            0 <= j <= 8,
            p == pp,
            pp > 1,
            z == zi@,
            z.len() == 8,
            y == (y11.val(), y22.val(), y33.val()),
            y11.same_field(y22),
            y11.same_field(y33),
            y11.modulus() == pp,
            acc.wf(),
            acc.modulus() == pp,
            acc.val() == vector_sum(z, j as int, y) % pp,
        decreases 8 - j,
    {
        let y1 = FiniteField::new((j % 2) as i32, p);
        let y2 = FiniteField::new(((j / 2) % 2) as i32, p);
        let y3 = FiniteField::new((j / 4) as i32, p);
        proof {
            vstd::arithmetic::div_mod::lemma_small_mod((j % 2) as nat, pp as nat);
            vstd::arithmetic::div_mod::lemma_small_mod(((j / 2) % 2) as nat, pp as nat);
            vstd::arithmetic::div_mod::lemma_small_mod((j / 4) as nat, pp as nat);
        }
        let ey = eqy(y1, y11, y2, y22, y3, y33);
        let e = FiniteField::new(zi.get(j), p);
        let t = e.mul(&ey);
        proof {
            let ent = z[j as int] as int;
            let eyv = eqy_at(col_point(j as int), y);
            lemma_mul_mod_noop(ent, eyv, pp);
            lemma_add_mod_noop(vector_sum(z, j as int, y), vector_term(z, j as int, y), pp);
        }
        acc = acc.add(&t);
        j = j + 1;
    }
    acc
}

} // verus!
