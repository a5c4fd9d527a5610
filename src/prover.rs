use vstd::prelude::*;
use rand::Rng;
use crate::dense::{has_shape, DenseMatrix, DenseVector};
use crate::field::{
    lemma_add_congruent, lemma_canonical, lemma_mul_congruent, lemma_sub_congruent, FiniteField,
};
use crate::mle::{
    col_bits, col_point, eqx, eqx_at, eqx_of, matrix_mle, mi_linear, row_bits, row_point,
    vector_mle, z_linear,
};

verus! {

/// Why a proof could not be built or checked.
#[derive(Clone, Copy, Debug, PartialEq, Eq, Structural)]
pub enum ProtocolError {
    /// A structure matrix is not 4 by 8, the witness does not hold 8
    /// entries, or the modulus is below 2.
    MalformedInstance,
}

/// A constraint system `(M1 z) * (M2 z) - M3 z == 0` over the integers modulo
/// `prime`, with three 4 by 8 structure matrices.
pub struct Ccs {
    pub prime: i32,
    pub m1: DenseMatrix,
    pub m2: DenseMatrix,
    pub m3: DenseMatrix,
}

impl Ccs {
    pub open spec fn wf(&self) -> bool {
        &&& self.prime > 1
        &&& has_shape(self.m1@, 4, 8)
        &&& has_shape(self.m2@, 4, 8)
        &&& has_shape(self.m3@, 4, 8)
    }

    /// The system with the given modulus and structure matrices, refused when
    /// a matrix is not 4 by 8 or the modulus is below 2.
    pub fn new(prime: i32, m1: DenseMatrix, m2: DenseMatrix, m3: DenseMatrix) -> (r: Result<
        Ccs,
        ProtocolError,
    >)
        ensures
            r is Ok <==> prime > 1 && has_shape(m1@, 4, 8) && has_shape(m2@, 4, 8) && has_shape(
                m3@,
                4,
                8,
            ),
            r matches Ok(c) ==> c.prime == prime && c.m1@ == m1@ && c.m2@ == m2@ && c.m3@ == m3@
                && c.wf(),
    {
        if prime > 1 && is_four_by_eight(&m1) && is_four_by_eight(&m2) && is_four_by_eight(&m3) {
            Ok(Ccs { prime, m1, m2, m3 })
        } else {
            Err(ProtocolError::MalformedInstance)
        }
    }
}

/// The first structure matrix of the reference instance, row by row.
pub open spec fn reference_m1() -> Seq<i32> {
    seq![
        1, 1, 0, 0, 0, 0, 0, 0,
        0, 0, 0, 0, 1, 0, 0, 0,
        0, 0, 1, 0, 0, 0, 0, 0,
        0, 0, 0, 0, 0, 0, 0, 0,
    ]
}

/// The second structure matrix of the reference instance, row by row.
pub open spec fn reference_m2() -> Seq<i32> {
    seq![
        0, 0, 0, 0, 0, 0, 0, 1,
        0, 0, 0, 1, 0, 0, 0, 0,
        0, 0, 0, 0, 0, 1, 0, 0,
        0, 0, 0, 0, 0, 0, 0, 0,
    ]
}

/// The third structure matrix of the reference instance, row by row.
pub open spec fn reference_m3() -> Seq<i32> {
    seq![
        0, 0, 1, 0, 0, 0, 0, 0,
        0, 0, 0, 0, 0, 1, 0, 0,
        0, 0, 0, 0, 0, 0, 1, 0,
        0, 0, 0, 0, 0, 0, 0, 0,
    ]
}

/// `m` is the 4 by 8 matrix whose entries `data` lists row by row.
pub open spec fn holds_rows(m: Seq<Seq<i32>>, data: Seq<i32>) -> bool {
    has_shape(m, 4, 8) && forall|i: int, j: int|
        0 <= i < 4 && 0 <= j < 8 ==> #[trigger] m[i][j] == data[i * 8 + j]
}

impl Ccs {
    /// The reference instance over the integers modulo `prime`.
    pub fn reference(prime: i32) -> (c: Ccs)
        requires
            prime > 1,
        ensures
            c.wf(),
            c.prime == prime,
            holds_rows(c.m1@, reference_m1()),
            holds_rows(c.m2@, reference_m2()),
            holds_rows(c.m3@, reference_m3()),
    {
        let d1: Vec<i32> = vec![
            1, 1, 0, 0, 0, 0, 0, 0,
            0, 0, 0, 0, 1, 0, 0, 0,
            0, 0, 1, 0, 0, 0, 0, 0,
            0, 0, 0, 0, 0, 0, 0, 0,
        ];
        let d2: Vec<i32> = vec![
            0, 0, 0, 0, 0, 0, 0, 1,
            0, 0, 0, 1, 0, 0, 0, 0,
            0, 0, 0, 0, 0, 1, 0, 0,
            0, 0, 0, 0, 0, 0, 0, 0,
        ];
        let d3: Vec<i32> = vec![
            0, 0, 1, 0, 0, 0, 0, 0,
            0, 0, 0, 0, 0, 1, 0, 0,
            0, 0, 0, 0, 0, 0, 1, 0,
            0, 0, 0, 0, 0, 0, 0, 0,
        ];
        proof {
            assert(d1@ == reference_m1());
            assert(d2@ == reference_m2());
            assert(d3@ == reference_m3());
        }
        Ccs {
            prime,
            m1: DenseMatrix::from_row_slice(4, 8, d1.as_slice()),
            m2: DenseMatrix::from_row_slice(4, 8, d2.as_slice()),
            m3: DenseMatrix::from_row_slice(4, 8, d3.as_slice()),
        }
    }
}

/// The first `n` products of a row with the witness, summed.
pub open spec fn dot_sum(row: Seq<i32>, z: Seq<i32>, n: int) -> int
    decreases n,
{
    if n <= 0 {
        0
    } else {
        dot_sum(row, z, n - 1) + row[n - 1] * z[n - 1]
    }
}

/// Row `i` of `M z`, for an 8-column matrix.
pub open spec fn row_times(m: Seq<Seq<i32>>, z: Seq<i32>, i: int) -> int {
    dot_sum(m[i], z, 8)
}

/// Constraint `i` holds modulo the instance's prime:
/// `(M1 z)_i (M2 z)_i - (M3 z)_i == 0`.
pub open spec fn row_satisfied(c: &Ccs, z: Seq<i32>, i: int) -> bool {
    (row_times(c.m1@, z, i) * row_times(c.m2@, z, i) - row_times(c.m3@, z, i)) % (c.prime as int)
        == 0
}

/// `z` satisfies the relation `(M1 z) * (M2 z) - M3 z == 0` in the field.
pub open spec fn satisfies(c: &Ccs, z: Seq<i32>) -> bool {
    forall|i: int| 0 <= i < 4 ==> #[trigger] row_satisfied(c, z, i)
}

/// Row `i` of `m z` in the field.
fn row_product(m: &DenseMatrix, z: &DenseVector, i: usize, p: i32) -> (r: FiniteField)
    requires
        has_shape(m@, 4, 8),
        z@.len() == 8,
        i < 4,
        p > 1,
    ensures
        r.wf(),
        r.modulus() == p,
        r.val() == row_times(m@, z@, i as int) % p as int,
{
    let ghost pp = p as int;
    let mut acc = FiniteField::new(0, p);
    proof {
        vstd::arithmetic::div_mod::lemma_small_mod(0, pp as nat);
    }
    let mut j: usize = 0;
    while j < 8
        invariant
            0 <= j <= 8,
            i < 4,
            pp == p,
            pp > 1,
            has_shape(m@, 4, 8),
            z@.len() == 8,
            acc.wf(),
            acc.modulus() == pp,
            acc.val() == dot_sum(m@[i as int], z@, j as int) % pp,
        decreases 8 - j,
    {
        let a = FiniteField::new(m.entry(i, j), p);
        let b = FiniteField::new(z.get(j), p);
        let t = a.mul(&b);
        proof {
            let (x, y) = (m@[i as int][j as int] as int, z@[j as int] as int);
            lemma_mul_congruent(a.val(), b.val(), x, y, pp);
            lemma_add_congruent(acc.val(), t.val(), dot_sum(m@[i as int], z@, j as int), x * y, pp);
        }
        acc = acc.add(&t);
        j = j + 1;
    }
    acc
}

/// Whether the witness `z` satisfies `(M1 z) * (M2 z) - M3 z == 0` in the
/// field, row by row.
pub fn ccs_relation_holds(ccs: &Ccs, z: &DenseVector) -> (r: Result<bool, ProtocolError>)
    requires
        ccs.wf(),
    ensures
        r is Err <==> z@.len() != 8,
        r matches Ok(b) ==> b == satisfies(ccs, z@),
{
    if z.len() != 8 {
        return Err(ProtocolError::MalformedInstance);
    }
    let p = ccs.prime;
    let mut i: usize = 0;
    while i < 4
        invariant
            0 <= i <= 4,
            ccs.wf(),
            p == ccs.prime,
            z@.len() == 8,
            forall|k: int| 0 <= k < i ==> #[trigger] row_satisfied(ccs, z@, k),
        decreases 4 - i,
    {
        let a = row_product(&ccs.m1, z, i, p);
        let b = row_product(&ccs.m2, z, i, p);
        let c = row_product(&ccs.m3, z, i, p);
        let ab = a.mul(&b);
        let d = ab.sub(&c);
        proof {
            let ii = i as int;
            let (x, y, w) = (row_times(ccs.m1@, z@, ii), row_times(ccs.m2@, z@, ii), row_times(ccs.m3@, z@, ii));
            lemma_mul_congruent(a.val(), b.val(), x, y, p as int);
            lemma_sub_congruent(ab.val(), c.val(), x * y, w, p as int);
        }
        if d.get_value() != 0 {
            proof {
                assert(!row_satisfied(ccs, z@, i as int));
            }
            return Ok(false);
        }
        i = i + 1;
    }
    Ok(true)
}

fn is_four_by_eight(m: &DenseMatrix) -> (r: bool)
    ensures
        r == has_shape(m@, 4, 8),
{
    let rows = m.nrows();
    let cols = m.ncols();
    proof {
        if rows == 4 {
            assert(m@[0].len() == cols);
        }
    }
    rows == 4 && cols == 8
}

/// The instance is usable with the field elements `x`: they live in its field.
pub open spec fn in_field(c: &Ccs, x: FiniteField) -> bool {
    x.wf() && x.modulus() == c.prime
}

/// The summand of `mi_z_prod` for column index `j`: the extension of `m` at
/// the row point made of the first two bits of `j` and the column point `j`,
/// times the extension of `z` at `j`.
pub open spec fn mz_term(m: Seq<Seq<i32>>, z: Seq<i32>, j: int) -> int {
    let b = col_point(j);
    matrix_mle(m, (b.0, b.1), b) * vector_mle(z, b)
}

pub open spec fn mz_sum(m: Seq<Seq<i32>>, z: Seq<i32>, n: int) -> int
    decreases n,
{
    if n <= 0 {
        0
    } else {
        mz_sum(m, z, n - 1) + mz_term(m, z, n - 1)
    }
}

/// The sum, over the boolean column points `y`, of the extension of `m` at
/// `(y1, y2, y)` times the extension of `z` at `y`.
pub open spec fn mi_z_prod_of(m: Seq<Seq<i32>>, z: Seq<i32>) -> int {
    mz_sum(m, z, 8)
}

/// `mi_z_prod(M1, z) * mi_z_prod(M2, z) - mi_z_prod(M3, z)`.
pub open spec fn g_of(c: &Ccs, z: Seq<i32>) -> int {
    mi_z_prod_of(c.m1@, z) * mi_z_prod_of(c.m2@, z) - mi_z_prod_of(c.m3@, z)
}

pub open spec fn h_sum(g: int, k: int) -> int
    decreases k,
{
    if k <= 0 {
        0
    } else {
        h_sum(g, k - 1) + g * eqx_at(row_point(k - 1), row_point(k - 1))
    }
}

/// The summand of `ti_generator` for column index `j`.
pub open spec fn ti_term(m: Seq<Seq<i32>>, z: Seq<i32>, r: (int, int), j: int) -> int {
    matrix_mle(m, r, col_point(j)) * vector_mle(z, col_point(j))
}

pub open spec fn ti_sum(m: Seq<Seq<i32>>, z: Seq<i32>, r: (int, int), n: int) -> int
    decreases n,
{
    if n <= 0 {
        0
    } else {
        ti_sum(m, z, r, n - 1) + ti_term(m, z, r, n - 1)
    }
}

/// The sum, over the boolean column points `y`, of the extension of `m` at
/// `(r, y)` times the extension of `z` at `y`.
pub open spec fn ti_of(m: Seq<Seq<i32>>, z: Seq<i32>, r: (int, int)) -> int {
    ti_sum(m, z, r, 8)
}

/// `M1~(r, y) z~(y) + alpha M2~(r, y) z~(y) + alpha^2 M3~(r, y) z~(y)`, the
/// batched summand of the inner sum-check.
pub open spec fn combo_of(c: &Ccs, z: Seq<i32>, r: (int, int), alpha: int, y: (int, int, int)) -> int {
    matrix_mle(c.m1@, r, y) * vector_mle(z, y) + alpha * matrix_mle(c.m2@, r, y) * vector_mle(z, y)
        + alpha * alpha * matrix_mle(c.m3@, r, y) * vector_mle(z, y)
}

/// The third round polynomial: all three inner variables bound.
pub open spec fn q3_of(
    c: &Ccs,
    z: Seq<i32>,
    r: (int, int),
    alpha: int,
    r11: int,
    r22: int,
    y33: int,
) -> int {
    combo_of(c, z, r, alpha, (r11, r22, y33))
}

/// The second round polynomial: the last inner variable summed over `{0, 1}`.
pub open spec fn q2_of(c: &Ccs, z: Seq<i32>, r: (int, int), alpha: int, r11: int, y22: int) -> int {
    q3_of(c, z, r, alpha, r11, y22, 0) + q3_of(c, z, r, alpha, r11, y22, 1)
}

/// The first round polynomial: the last two inner variables summed over `{0, 1}`.
pub open spec fn q1_of(c: &Ccs, z: Seq<i32>, r: (int, int), alpha: int, y11: int) -> int {
    q2_of(c, z, r, alpha, y11, 0) + q2_of(c, z, r, alpha, y11, 1)
}

/// `Σ_y mi_linear(mi, y1, y2, y1, y2, y3) · z_linear(zi, y1, y2, y3)` over the
/// boolean column points `y`: the row bits are the first two column bits.
pub fn mi_z_prod(mi: &DenseMatrix, zi: &DenseVector, prime: i32) -> (r: FiniteField)
    requires
        has_shape(mi@, 4, 8),
        zi@.len() == 8,
        prime > 1,
    ensures
        r.wf(),
        r.modulus() == prime,
        r.val() == mi_z_prod_of(mi@, zi@) % prime as int,
{
    let ghost p = prime as int;
    let mut acc = FiniteField::new(0, prime);
    proof {
        vstd::arithmetic::div_mod::lemma_small_mod(0, p as nat);
    }
    let mut j: usize = 0;
    while j < 8
        invariant
            0 <= j <= 8,
            p == prime,
            p > 1,
            has_shape(mi@, 4, 8),
            zi@.len() == 8,
            acc.wf(),
            acc.modulus() == p,
            acc.val() == mz_sum(mi@, zi@, j as int) % p,
        decreases 8 - j,
    {
        let (y1, y2, y3) = col_bits(j, prime);
        let a = mi_linear(mi, y1, y2, y1, y2, y3);
        let b = z_linear(zi, y1, y2, y3);
        let t = a.mul(&b);
        proof {
            let yb = col_point(j as int);
            lemma_mul_congruent(a.val(), b.val(), matrix_mle(mi@, (yb.0, yb.1), yb), vector_mle(zi@, yb), p);
            lemma_add_congruent(acc.val(), t.val(), mz_sum(mi@, zi@, j as int), mz_term(mi@, zi@, j as int), p);
        }
        acc = acc.add(&t);
        j = j + 1;
    }
    acc
}

/// `mi_z_prod(M1, z) · mi_z_prod(M2, z) − mi_z_prod(M3, z)`, zero at a
/// witness that meets the relation at the origin.
pub fn compute_g(ccs: &Ccs, z1: &DenseVector) -> (r: FiniteField)
    requires
        ccs.wf(),
        z1@.len() == 8,
    ensures
        in_field(ccs, r),
        r.val() == g_of(ccs, z1@) % ccs.prime as int,
{
    let p = ccs.prime;
    let a = mi_z_prod(&ccs.m1, z1, p);
    let b = mi_z_prod(&ccs.m2, z1, p);
    let c = mi_z_prod(&ccs.m3, z1, p);
    let ab = a.mul(&b);
    proof {
        let (x, y, w) = (mi_z_prod_of(ccs.m1@, z1@), mi_z_prod_of(ccs.m2@, z1@), mi_z_prod_of(ccs.m3@, z1@));
        lemma_mul_congruent(a.val(), b.val(), x, y, p as int);
        lemma_sub_congruent(ab.val(), c.val(), x * y, w, p as int);
    }
    ab.sub(&c)
}

/// `Σ_{x ∈ {0,1}^2} g · eq(x, x)`.
pub fn compute_h(ccs: &Ccs, z1: &DenseVector) -> (r: FiniteField)
    requires
        ccs.wf(),
        z1@.len() == 8,
    ensures
        in_field(ccs, r),
        r.val() == h_sum(g_of(ccs, z1@), 4) % ccs.prime as int,
{
    let p = ccs.prime;
    let ghost pp = p as int;
    let g = compute_g(ccs, z1);
    let ghost gv = g_of(ccs, z1@);
    let mut h = FiniteField::new(0, p);
    proof {
        vstd::arithmetic::div_mod::lemma_small_mod(0, pp as nat);
    }
    let mut i: usize = 0;
    while i < 4
        invariant
            0 <= i <= 4,
            pp == p,
            pp > 1,
            p == ccs.prime,
            in_field(ccs, g),
            g.val() == gv % pp,
            in_field(ccs, h),
            h.val() == h_sum(gv, i as int) % pp,
        decreases 4 - i,
    {
        let (x1, x2) = row_bits(i, p);
        let e = eqx(x1, x2, x1, x2);
        let t = g.mul(&e);
        proof {
            let ev = eqx_at(row_point(i as int), row_point(i as int));
            lemma_mul_congruent(g.val(), e.val(), gv, ev, pp);
            lemma_add_congruent(h.val(), t.val(), h_sum(gv, i as int), gv * ev, pp);
        }
        h = h.add(&t);
        i = i + 1;
    }
    h
}

/// `Σ_y mi_linear(mi, r1, r2, y) · z_linear(zi, y)` over the boolean column
/// points `y`: the matrix-vector product of `mi` and `zi`, read at row `(r1, r2)`.
pub fn ti_generator(mi: &DenseMatrix, zi: &DenseVector, r1: FiniteField, r2: FiniteField) -> (r: FiniteField)
    requires
        has_shape(mi@, 4, 8),
        zi@.len() == 8,
        r1.same_field(r2),
        r1.modulus() > 1,
    ensures
        r.wf(),
        r.modulus() == r1.modulus(),
        r.val() == ti_of(mi@, zi@, (r1.val(), r2.val())) % r1.modulus(),
{
    let prime = r1.prime();
    let ghost p = prime as int;
    let ghost rp = (r1.val(), r2.val());
    let mut acc = FiniteField::new(0, prime);
    proof {
        vstd::arithmetic::div_mod::lemma_small_mod(0, p as nat);
    }
    let mut j: usize = 0;
    while j < 8
        invariant
            0 <= j <= 8,
            p == prime,
            p > 1,
            has_shape(mi@, 4, 8),
            zi@.len() == 8,
            r1.same_field(r2),
            r1.modulus() == p,
            rp == (r1.val(), r2.val()),
            acc.wf(),
            acc.modulus() == p,
            acc.val() == ti_sum(mi@, zi@, rp, j as int) % p,
        decreases 8 - j,
    {
        let (y1, y2, y3) = col_bits(j, prime);
        let a = mi_linear(mi, r1, r2, y1, y2, y3);
        let b = z_linear(zi, y1, y2, y3);
        let t = a.mul(&b);
        proof {
            let yb = col_point(j as int);
            lemma_mul_congruent(a.val(), b.val(), matrix_mle(mi@, rp, yb), vector_mle(zi@, yb), p);
            lemma_add_congruent(acc.val(), t.val(), ti_sum(mi@, zi@, rp, j as int), ti_term(mi@, zi@, rp, j as int), p);
        }
        acc = acc.add(&t);
        j = j + 1;
    }
    acc
}

/// The third round polynomial at `y33`, with the inner point bound to
/// `(r11, r22)`: `M1~ z~ + alpha M2~ z~ + alpha^2 M3~ z~` at row point
/// `(r1, r2)` and column point `(r11, r22, y33)`.
pub fn compute_q3(
    ccs: &Ccs,
    y33: FiniteField,
    r1: FiniteField,
    r2: FiniteField,
    r11: FiniteField,
    r22: FiniteField,
    alpha: FiniteField,
    z1: &DenseVector,
) -> (r: FiniteField)
    requires
        ccs.wf(),
        z1@.len() == 8,
        in_field(ccs, y33),
        in_field(ccs, r1),
        in_field(ccs, r2),
        in_field(ccs, r11),
        in_field(ccs, r22),
        in_field(ccs, alpha),
    ensures
        in_field(ccs, r),
        r.val() == q3_of(ccs, z1@, (r1.val(), r2.val()), alpha.val(), r11.val(), r22.val(), y33.val())
            % ccs.prime as int,
{
    let m1v = mi_linear(&ccs.m1, r1, r2, r11, r22, y33);
    let m2v = mi_linear(&ccs.m2, r1, r2, r11, r22, y33);
    let m3v = mi_linear(&ccs.m3, r1, r2, r11, r22, y33);
    let zv = z_linear(z1, r11, r22, y33);
    let a = m1v.mul(&zv);
    let am2 = alpha.mul(&m2v);
    let b = am2.mul(&zv);
    let aa = alpha.mul(&alpha);
    let aam3 = aa.mul(&m3v);
    let c = aam3.mul(&zv);
    let ab = a.add(&b);
    proof {
        let p = ccs.prime as int;
        let rp = (r1.val(), r2.val());
        let y = (r11.val(), r22.val(), y33.val());
        let (x1, x2, x3, zz) = (
            matrix_mle(ccs.m1@, rp, y),
            matrix_mle(ccs.m2@, rp, y),
            matrix_mle(ccs.m3@, rp, y),
            vector_mle(z1@, y),
        );
        let al = alpha.val();
        lemma_canonical(alpha);
        lemma_mul_congruent(m1v.val(), zv.val(), x1, zz, p);
        lemma_mul_congruent(alpha.val(), m2v.val(), al, x2, p);
        lemma_mul_congruent(am2.val(), zv.val(), al * x2, zz, p);
        lemma_mul_congruent(alpha.val(), alpha.val(), al, al, p);
        lemma_mul_congruent(aa.val(), m3v.val(), al * al, x3, p);
        lemma_mul_congruent(aam3.val(), zv.val(), al * al * x3, zz, p);
        lemma_add_congruent(a.val(), b.val(), x1 * zz, al * x2 * zz, p);
        lemma_add_congruent(ab.val(), c.val(), x1 * zz + al * x2 * zz, al * al * x3 * zz, p);
    }
    ab.add(&c)
}

/// The second round polynomial at `y22`, with the first inner variable bound
/// to `r11`: `q3` summed over the last inner variable.
pub fn compute_q2(
    ccs: &Ccs,
    y22: FiniteField,
    r1: FiniteField,
    r2: FiniteField,
    r11: FiniteField,
    alpha: FiniteField,
    z1: &DenseVector,
) -> (r: FiniteField)
    requires
        ccs.wf(),
        z1@.len() == 8,
        in_field(ccs, y22),
        in_field(ccs, r1),
        in_field(ccs, r2),
        in_field(ccs, r11),
        in_field(ccs, alpha),
    ensures
        in_field(ccs, r),
        r.val() == q2_of(ccs, z1@, (r1.val(), r2.val()), alpha.val(), r11.val(), y22.val())
            % ccs.prime as int,
{
    let p = ccs.prime;
    let zero = FiniteField::new(0, p);
    let one = FiniteField::new(1, p);
    proof {
        vstd::arithmetic::div_mod::lemma_small_mod(0, p as nat);
        vstd::arithmetic::div_mod::lemma_small_mod(1, p as nat);
    }
    let a = compute_q3(ccs, zero, r1, r2, r11, y22, alpha, z1);
    let b = compute_q3(ccs, one, r1, r2, r11, y22, alpha, z1);
    proof {
        let rp = (r1.val(), r2.val());
        lemma_add_congruent(
            a.val(),
            b.val(),
            q3_of(ccs, z1@, rp, alpha.val(), r11.val(), y22.val(), 0),
            q3_of(ccs, z1@, rp, alpha.val(), r11.val(), y22.val(), 1),
            p as int,
        );
    }
    a.add(&b)
}

/// The first round polynomial at `y11`: `q3` summed over the last two inner
/// variables.
pub fn compute_q1(
    ccs: &Ccs,
    y11: FiniteField,
    r1: FiniteField,
    r2: FiniteField,
    alpha: FiniteField,
    z1: &DenseVector,
) -> (r: FiniteField)
    requires
        ccs.wf(),
        z1@.len() == 8,
        in_field(ccs, y11),
        in_field(ccs, r1),
        in_field(ccs, r2),
        in_field(ccs, alpha),
    ensures
        in_field(ccs, r),
        r.val() == q1_of(ccs, z1@, (r1.val(), r2.val()), alpha.val(), y11.val()) % ccs.prime as int,
{
    let p = ccs.prime;
    let zero = FiniteField::new(0, p);
    let one = FiniteField::new(1, p);
    proof {
        vstd::arithmetic::div_mod::lemma_small_mod(0, p as nat);
        vstd::arithmetic::div_mod::lemma_small_mod(1, p as nat);
    }
    let a = compute_q2(ccs, zero, r1, r2, y11, alpha, z1);
    let b = compute_q2(ccs, one, r1, r2, y11, alpha, z1);
    proof {
        let rp = (r1.val(), r2.val());
        lemma_add_congruent(
            a.val(),
            b.val(),
            q2_of(ccs, z1@, rp, alpha.val(), y11.val(), 0),
            q2_of(ccs, z1@, rp, alpha.val(), y11.val(), 1),
            p as int,
        );
    }
    a.add(&b)
}

/// The verifier's challenges for one run of the protocol.
#[derive(Clone, Copy, Debug)]
pub struct Challenges {
    /// Combines the three matrices into one claim.
    pub alpha: FiniteField,
    /// The outer point.
    pub beta1: FiniteField,
    pub beta2: FiniteField,
    /// The row point at which the inner sum-check runs.
    pub r1: FiniteField,
    pub r2: FiniteField,
    /// The challenges bound in the three inner rounds.
    pub r11: FiniteField,
    pub r22: FiniteField,
    pub r33: FiniteField,
}

impl Challenges {
    /// Every challenge lives in the field of `c`.
    pub open spec fn wf_for(&self, c: &Ccs) -> bool {
        &&& in_field(c, self.alpha)
        &&& in_field(c, self.beta1)
        &&& in_field(c, self.beta2)
        &&& in_field(c, self.r1)
        &&& in_field(c, self.r2)
        &&& in_field(c, self.r11)
        &&& in_field(c, self.r22)
        &&& in_field(c, self.r33)
    }
}

/// The transcript of one run: the challenges, the witness, the prover's
/// claims `q`, `t1`, `t2`, `t3`, `t`, the round sums `s1`, `s2`, `s3` and the
/// final opening `c`.
pub struct Proof {
    pub alpha: FiniteField,
    pub beta1: FiniteField,
    pub beta2: FiniteField,
    pub r1: FiniteField,
    pub r2: FiniteField,
    pub r11: FiniteField,
    pub r22: FiniteField,
    pub r33: FiniteField,
    pub z: DenseVector,
    pub q: FiniteField,
    pub s1: FiniteField,
    pub s2: FiniteField,
    pub s3: FiniteField,
    pub t: FiniteField,
    pub t1: FiniteField,
    pub t2: FiniteField,
    pub t3: FiniteField,
    pub c: FiniteField,
}

impl Proof {
    /// Every value lives in the field of `c` and the witness has 8 entries.
    pub open spec fn wf_for(&self, c: &Ccs) -> bool {
        &&& self.challenges().wf_for(c)
        &&& self.z@.len() == 8
        &&& in_field(c, self.q)
        &&& in_field(c, self.s1)
        &&& in_field(c, self.s2)
        &&& in_field(c, self.s3)
        &&& in_field(c, self.t)
        &&& in_field(c, self.t1)
        &&& in_field(c, self.t2)
        &&& in_field(c, self.t3)
        &&& in_field(c, self.c)
    }

    /// The challenges the transcript records.
    pub open spec fn challenges(&self) -> Challenges {
        Challenges {
            alpha: self.alpha,
            beta1: self.beta1,
            beta2: self.beta2,
            r1: self.r1,
            r2: self.r2,
            r11: self.r11,
            r22: self.r22,
            r33: self.r33,
        }
    }
}

/// Number of field elements in a record before the witness entries.
pub const RECORD_SCALARS: usize = 17;

impl Proof {
    /// The transcript's field elements in record order: `beta1`, `beta2`,
    /// `r1`, `r2`, `r11`, `r22`, `r33`, `alpha`, `t1`, `t2`, `t3`, `t`, `q`,
    /// `s1`, `s2`, `s3`, `c`.
    pub open spec fn scalars(&self) -> Seq<FiniteField> {
        seq![
            self.beta1,
            self.beta2,
            self.r1,
            self.r2,
            self.r11,
            self.r22,
            self.r33,
            self.alpha,
            self.t1,
            self.t2,
            self.t3,
            self.t,
            self.q,
            self.s1,
            self.s2,
            self.s3,
            self.c,
        ]
    }

    /// Every scalar lives in the field of order `p`.
    pub open spec fn scalars_in(&self, p: int) -> bool {
        forall|i: int| 0 <= i < 17 ==> (#[trigger] self.scalars()[i]).wf() && self.scalars()[i].modulus() == p
    }

    /// The transcript as a record: its scalars in record order, then the
    /// witness entries.
    pub fn to_record(&self) -> (r: Vec<i32>)
        ensures
            r@.len() == RECORD_SCALARS + self.z@.len(),
            forall|i: int| 0 <= i < RECORD_SCALARS ==> #[trigger] r@[i] == self.scalars()[i].val(),
            forall|j: int| 0 <= j < self.z@.len() ==> #[trigger] r@[RECORD_SCALARS + j] == self.z@[j],
    {
        let mut r: Vec<i32> = vec![
            self.beta1.get_value(),
            self.beta2.get_value(),
            self.r1.get_value(),
            self.r2.get_value(),
            self.r11.get_value(),
            self.r22.get_value(),
            self.r33.get_value(),
            self.alpha.get_value(),
            self.t1.get_value(),
            self.t2.get_value(),
            self.t3.get_value(),
            self.t.get_value(),
            self.q.get_value(),
            self.s1.get_value(),
            self.s2.get_value(),
            self.s3.get_value(),
            self.c.get_value(),
        ];
        let n = self.z.len();
        let mut j: usize = 0;
        while j < n
            invariant
                n == self.z@.len(),
                0 <= j <= n,
                r@.len() == RECORD_SCALARS + j,
                forall|i: int| 0 <= i < RECORD_SCALARS ==> #[trigger] r@[i] == self.scalars()[i].val(),
                forall|k: int| 0 <= k < j ==> #[trigger] r@[RECORD_SCALARS + k] == self.z@[k],
            decreases n - j,
        {
            r.push(self.z.get(j));
            j = j + 1;
        }
        r
    }

    /// The transcript over the field of order `prime` that `record` holds,
    /// each value taken modulo `prime`; `None` unless the record holds the
    /// scalars and 8 witness entries.
    pub fn from_record(prime: i32, record: &[i32]) -> (r: Option<Proof>)
        requires
            prime > 1,
        ensures
            r is Some <==> record@.len() == RECORD_SCALARS + 8,
            r matches Some(pf) ==> {
                &&& pf.scalars_in(prime as int)
                &&& forall|i: int|
                    0 <= i < RECORD_SCALARS ==> #[trigger] pf.scalars()[i].val() == (record@[i]
                        as int) % (prime as int)
                &&& pf.z@ == record@.subrange(RECORD_SCALARS as int, RECORD_SCALARS + 8)
            },
    {
        if record.len() != RECORD_SCALARS + 8 {
            return None;
        }
        let mut entries: Vec<i32> = Vec::new();
        let mut j: usize = RECORD_SCALARS;
        while j < RECORD_SCALARS + 8
            invariant
                record@.len() == RECORD_SCALARS + 8,
                RECORD_SCALARS <= j <= RECORD_SCALARS + 8,
                entries@ == record@.subrange(RECORD_SCALARS as int, j as int),
            decreases RECORD_SCALARS + 8 - j,
        {
            entries.push(record[j]);
            j = j + 1;
        }
        let pf = Proof {
            beta1: FiniteField::new(record[0], prime),
            beta2: FiniteField::new(record[1], prime),
            r1: FiniteField::new(record[2], prime),
            r2: FiniteField::new(record[3], prime),
            r11: FiniteField::new(record[4], prime),
            r22: FiniteField::new(record[5], prime),
            r33: FiniteField::new(record[6], prime),
            alpha: FiniteField::new(record[7], prime),
            t1: FiniteField::new(record[8], prime),
            t2: FiniteField::new(record[9], prime),
            t3: FiniteField::new(record[10], prime),
            t: FiniteField::new(record[11], prime),
            q: FiniteField::new(record[12], prime),
            s1: FiniteField::new(record[13], prime),
            s2: FiniteField::new(record[14], prime),
            s3: FiniteField::new(record[15], prime),
            c: FiniteField::new(record[16], prime),
            z: DenseVector::from_vec(entries),
        };
        Some(pf)
    }
}

/// Writing a transcript as a record and reading it back in the same field
/// gives back every value of the transcript.
pub proof fn lemma_record_round_trip(pf: &Proof, record: Seq<i32>, back: &Proof, p: int)
    requires
        p > 1,
        pf.scalars_in(p),
        pf.z@.len() == 8,
        record.len() == RECORD_SCALARS + 8,
        forall|i: int| 0 <= i < RECORD_SCALARS ==> #[trigger] record[i] == pf.scalars()[i].val(),
        forall|j: int| 0 <= j < 8 ==> #[trigger] record[RECORD_SCALARS + j] == pf.z@[j],
        forall|i: int| 0 <= i < RECORD_SCALARS ==> #[trigger] back.scalars()[i].val() == (record[i] as int) % p,
        back.z@ == record.subrange(RECORD_SCALARS as int, RECORD_SCALARS + 8),
    ensures
        forall|i: int| 0 <= i < RECORD_SCALARS ==> #[trigger] back.scalars()[i].val() == pf.scalars()[i].val(),
        back.z@ == pf.z@,
{
    assert forall|i: int| 0 <= i < RECORD_SCALARS implies #[trigger] back.scalars()[i].val()
        == pf.scalars()[i].val() by {
        crate::field::lemma_canonical(pf.scalars()[i]);
    }
    assert forall|j: int| 0 <= j < 8 implies #[trigger] back.z@[j] == pf.z@[j] by {
        assert(back.z@[j] == record[RECORD_SCALARS + j]);
    }
    assert(back.z@ =~= pf.z@);
}

/// `pf` is what an honest prover sends for the witness `z` under the
/// challenges `ch`.
pub open spec fn is_honest_proof(c: &Ccs, z: Seq<i32>, ch: Challenges, pf: &Proof) -> bool {
    let p = c.prime as int;
    let al = ch.alpha.val();
    let rp = (ch.r1.val(), ch.r2.val());
    let (r11, r22, r33) = (ch.r11.val(), ch.r22.val(), ch.r33.val());
    let t1 = ti_of(c.m1@, z, rp);
    let t2 = ti_of(c.m2@, z, rp);
    let t3 = ti_of(c.m3@, z, rp);
    &&& pf.wf_for(c)
    &&& pf.challenges() == ch
    &&& pf.z@ == z
    &&& pf.q.val() == (g_of(c, z) * eqx_of(
        ch.beta1.val(),
        ch.beta2.val(),
        mi_z_prod_of(c.m1@, z) % p,
        mi_z_prod_of(c.m2@, z) % p,
    )) % p
    &&& pf.t1.val() == t1 % p
    &&& pf.t2.val() == t2 % p
    &&& pf.t3.val() == t3 % p
    &&& pf.t.val() == (t1 + al * t2 + al * al * t3) % p
    &&& pf.s1.val() == (q1_of(c, z, rp, al, 0) + q1_of(c, z, rp, al, 1)) % p
    &&& pf.s2.val() == (q2_of(c, z, rp, al, r11, 0) + q2_of(c, z, rp, al, r11, 1)) % p
    &&& pf.s3.val() == (q3_of(c, z, rp, al, r11, r22, 0) + q3_of(c, z, rp, al, r11, r22, 1)) % p
    &&& pf.c.val() == q3_of(c, z, rp, al, r11, r22, r33) % p
}

/// The honest transcript for the witness `z1` under the challenges `ch`;
/// refused when `z1` does not hold 8 entries.
pub fn prove_with_challenges(ccs: &Ccs, z1: DenseVector, ch: &Challenges) -> (r: Result<
    Proof,
    ProtocolError,
>)
    requires
        ccs.wf(),
        ch.wf_for(ccs),
    ensures
        r is Err <==> z1@.len() != 8,
        r matches Ok(pf) ==> is_honest_proof(ccs, z1@, *ch, &pf),
{
    if z1.len() != 8 {
        return Err(ProtocolError::MalformedInstance);
    }
    let p = ccs.prime;
    let ghost pp = p as int;
    let ghost z = z1@;
    let zero = FiniteField::new(0, p);
    let one = FiniteField::new(1, p);
    proof {
        vstd::arithmetic::div_mod::lemma_small_mod(0, p as nat);
        vstd::arithmetic::div_mod::lemma_small_mod(1, p as nat);
    }

    // The outer claim Q = g * eq(beta, (M1 z, M2 z)).
    let mz1 = mi_z_prod(&ccs.m1, &z1, p);
    let mz2 = mi_z_prod(&ccs.m2, &z1, p);
    let g = compute_g(ccs, &z1);
    let e = eqx(ch.beta1, ch.beta2, mz1, mz2);
    let q = g.mul(&e);
    proof {
        let ev = eqx_of(ch.beta1.val(), ch.beta2.val(), mz1.val(), mz2.val());
        lemma_mul_congruent(g.val(), e.val(), g_of(ccs, z), ev, pp);
    }

    // The per-matrix values at the row point and their combination T.
    let t1 = ti_generator(&ccs.m1, &z1, ch.r1, ch.r2);
    let t2 = ti_generator(&ccs.m2, &z1, ch.r1, ch.r2);
    let t3 = ti_generator(&ccs.m3, &z1, ch.r1, ch.r2);
    let alpha_squared = ch.alpha.mul(&ch.alpha);
    let at2 = ch.alpha.mul(&t2);
    let aat3 = alpha_squared.mul(&t3);
    let t12 = t1.add(&at2);
    let t = t12.add(&aat3);
    proof {
        let rp = (ch.r1.val(), ch.r2.val());
        let al = ch.alpha.val();
        let (v1, v2, v3) = (ti_of(ccs.m1@, z, rp), ti_of(ccs.m2@, z, rp), ti_of(ccs.m3@, z, rp));
        lemma_canonical(ch.alpha);
        lemma_mul_congruent(ch.alpha.val(), ch.alpha.val(), al, al, pp);
        lemma_mul_congruent(ch.alpha.val(), t2.val(), al, v2, pp);
        lemma_mul_congruent(alpha_squared.val(), t3.val(), al * al, v3, pp);
        lemma_add_congruent(t1.val(), at2.val(), v1, al * v2, pp);
        lemma_add_congruent(t12.val(), aat3.val(), v1 + al * v2, al * al * v3, pp);
    }

    // Round 1: q1(0) + q1(1).
    let q1_0 = compute_q1(ccs, zero, ch.r1, ch.r2, ch.alpha, &z1);
    let q1_1 = compute_q1(ccs, one, ch.r1, ch.r2, ch.alpha, &z1);
    let s1 = q1_0.add(&q1_1);

    // Round 2: q2(0) + q2(1), with r11 bound.
    let q2_0 = compute_q2(ccs, zero, ch.r1, ch.r2, ch.r11, ch.alpha, &z1);
    let q2_1 = compute_q2(ccs, one, ch.r1, ch.r2, ch.r11, ch.alpha, &z1);
    let s2 = q2_0.add(&q2_1);

    // Round 3: q3(0) + q3(1), with r11 and r22 bound.
    let q3_0 = compute_q3(ccs, zero, ch.r1, ch.r2, ch.r11, ch.r22, ch.alpha, &z1);
    let q3_1 = compute_q3(ccs, one, ch.r1, ch.r2, ch.r11, ch.r22, ch.alpha, &z1);
    let s3 = q3_0.add(&q3_1);

    // The final opening at (r11, r22, r33).
    let c = compute_q3(ccs, ch.r33, ch.r1, ch.r2, ch.r11, ch.r22, ch.alpha, &z1);
    proof {
        let rp = (ch.r1.val(), ch.r2.val());
        let al = ch.alpha.val();
        let (r11, r22) = (ch.r11.val(), ch.r22.val());
        lemma_add_congruent(q1_0.val(), q1_1.val(), q1_of(ccs, z, rp, al, 0), q1_of(ccs, z, rp, al, 1), pp);
        lemma_add_congruent(q2_0.val(), q2_1.val(), q2_of(ccs, z, rp, al, r11, 0), q2_of(ccs, z, rp, al, r11, 1), pp);
        lemma_add_congruent(q3_0.val(), q3_1.val(), q3_of(ccs, z, rp, al, r11, r22, 0), q3_of(ccs, z, rp, al, r11, r22, 1), pp);
    }
    Ok(Proof {
        alpha: ch.alpha,
        beta1: ch.beta1,
        beta2: ch.beta2,
        r1: ch.r1,
        r2: ch.r2,
        r11: ch.r11,
        r22: ch.r22,
        r33: ch.r33,
        z: z1,
        q,
        s1,
        s2,
        s3,
        t,
        t1,
        t2,
        t3,
        c,
    })
}

/// Relies on rand's `thread_rng` and `Rng::gen_range`: a value drawn from
/// `0..bound` (which panics on an empty range).
#[verifier::external_body]
fn random_below(bound: i32) -> (r: i32)
    requires
        bound > 0,
    ensures
        0 <= r < bound,
{
    rand::thread_rng().gen_range(0..bound)
}

/// A field element drawn at random.
fn random_element(p: i32) -> (r: FiniteField)
    requires
        p > 1,
    ensures
        r.wf(),
        r.modulus() == p,
{
    FiniteField::new(random_below(p), p)
}

/// The honest transcript for the witness `z1` under fresh random challenges;
/// the row point `(r1, r2)` is fixed to `(1, 0)`. Refused when `z1` does not
/// hold 8 entries.
pub fn prove(ccs: &Ccs, z1: DenseVector) -> (r: Result<Proof, ProtocolError>)
    requires
        ccs.wf(),
    ensures
        r is Err <==> z1@.len() != 8,
        r matches Ok(pf) ==> is_honest_proof(ccs, z1@, pf.challenges(), &pf) && pf.r1.val() == 1
            && pf.r2.val() == 0,
{
    let p = ccs.prime;
    proof {
        vstd::arithmetic::div_mod::lemma_small_mod(0, p as nat);
        vstd::arithmetic::div_mod::lemma_small_mod(1, p as nat);
    }
    let ch = Challenges {
        alpha: random_element(p),
        beta1: random_element(p),
        beta2: random_element(p),
        r1: FiniteField::new(1, p),
        r2: FiniteField::new(0, p),
        r11: random_element(p),
        r22: random_element(p),
        r33: random_element(p),
    };
    prove_with_challenges(ccs, z1, &ch)
}

} // verus!
