use vstd::prelude::*;
use crate::dense::has_shape;
use crate::field::{lemma_add_congruent, lemma_mul_congruent, lemma_sub_congruent, FiniteField};
use crate::mle::{
    col_of, col_point, eqx, eqx_at, eqx_of, is_bit, lemma_mi_linear_on_hypercube,
    lemma_z_linear_on_hypercube, matrix_mle, row_bits, row_of, row_point, vector_mle,
};
use crate::prover::{
    combo_of, compute_q1, compute_q2, compute_q3, dot_sum, g_of, h_sum, in_field, is_honest_proof,
    mi_z_prod_of, q1_of, q2_of, q3_of, row_satisfied, row_times, satisfies, ti_of, ti_sum, ti_term,
    Ccs, Challenges, Proof,
};

verus! {

/// The outcome of one check: the value the verifier expected, the value it
/// was given, and whether the two agree.
#[derive(Clone, Copy, Debug)]
pub struct CheckResult {
    pub expected: FiniteField,
    pub actual: FiniteField,
    pub holds: bool,
}

/// The outcome of every check of a transcript.
#[derive(Clone, Copy, Debug)]
pub struct Verification {
    /// `Σ_x Q · eq(x, x) == 0` over the boolean row points.
    pub outer: CheckResult,
    /// `q1(0) + q1(1) == T`.
    pub round1: CheckResult,
    /// `s2 == q1(r11)`.
    pub round2: CheckResult,
    /// `s3 == q2(r22)`.
    pub round3: CheckResult,
    /// `c == q3(r33)`.
    pub final_c: CheckResult,
    /// `Q == (T1 · T2 − T3) · eq((beta1, beta2), (r1, r2))`.
    pub final_q: CheckResult,
}

impl Verification {
    /// The transcript is accepted: every check holds.
    pub open spec fn all_hold(&self) -> bool {
        &&& self.outer.holds
        &&& self.round1.holds
        &&& self.round2.holds
        &&& self.round3.holds
        &&& self.final_c.holds
        &&& self.final_q.holds
    }

    /// Whether every check holds.
    pub fn accepted(&self) -> (r: bool)
        ensures
            r == self.all_hold(),
    {
        self.outer.holds && self.round1.holds && self.round2.holds && self.round3.holds
            && self.final_c.holds && self.final_q.holds
    }
}

/// `r` compares `expected` with `actual`, two elements of the field of order `p`.
pub open spec fn compares(r: CheckResult, p: int, expected: int, actual: int) -> bool {
    &&& r.expected.wf() && r.expected.modulus() == p && r.expected.val() == expected
    &&& r.actual.wf() && r.actual.modulus() == p && r.actual.val() == actual
    &&& r.holds == (expected == actual)
}

/// The row point the transcript's inner sum-check runs at.
pub open spec fn row_challenge(pf: &Proof) -> (int, int) {
    (pf.r1.val(), pf.r2.val())
}

/// The value the outer check sums: `Σ_x Q · eq(x, x)`.
pub open spec fn outer_value(c: &Ccs, pf: &Proof) -> int {
    h_sum(pf.q.val(), 4) % (c.prime as int)
}

/// `q1(0) + q1(1)`, recomputed from the witness.
pub open spec fn round1_value(c: &Ccs, pf: &Proof) -> int {
    (q1_of(c, pf.z@, row_challenge(pf), pf.alpha.val(), 0) + q1_of(
        c,
        pf.z@,
        row_challenge(pf),
        pf.alpha.val(),
        1,
    )) % (c.prime as int)
}

/// `q1(r11)`, recomputed from the witness.
pub open spec fn round2_value(c: &Ccs, pf: &Proof) -> int {
    q1_of(c, pf.z@, row_challenge(pf), pf.alpha.val(), pf.r11.val()) % (c.prime as int)
}

/// `q2(r22)`, recomputed from the witness.
pub open spec fn round3_value(c: &Ccs, pf: &Proof) -> int {
    q2_of(c, pf.z@, row_challenge(pf), pf.alpha.val(), pf.r11.val(), pf.r22.val()) % (
    c.prime as int)
}

/// `q3(r33)`, recomputed from the witness.
pub open spec fn final_c_value(c: &Ccs, pf: &Proof) -> int {
    q3_of(c, pf.z@, row_challenge(pf), pf.alpha.val(), pf.r11.val(), pf.r22.val(), pf.r33.val())
        % (c.prime as int)
}

/// `(T1 · T2 − T3) · eq((beta1, beta2), (r1, r2))`, from the transcript's values.
pub open spec fn final_q_value(c: &Ccs, pf: &Proof) -> int {
    ((pf.t1.val() * pf.t2.val() - pf.t3.val()) * eqx_of(
        pf.beta1.val(),
        pf.beta2.val(),
        pf.r1.val(),
        pf.r2.val(),
    )) % (c.prime as int)
}

/// `v` is the outcome of checking `pf` against `c`.
pub open spec fn reports(c: &Ccs, pf: &Proof, v: Verification) -> bool {
    let p = c.prime as int;
    &&& compares(v.outer, p, 0, outer_value(c, pf))
    &&& compares(v.round1, p, pf.t.val(), round1_value(c, pf))
    &&& compares(v.round2, p, round2_value(c, pf), pf.s2.val())
    &&& compares(v.round3, p, round3_value(c, pf), pf.s3.val())
    &&& compares(v.final_c, p, final_c_value(c, pf), pf.c.val())
    &&& compares(v.final_q, p, final_q_value(c, pf), pf.q.val())
}

fn check(expected: FiniteField, actual: FiniteField) -> (r: CheckResult)
    ensures
        r.expected == expected,
        r.actual == actual,
        r.holds == (expected.val() == actual.val()),
{
    let holds = expected.get_value() == actual.get_value();
    CheckResult { expected, actual, holds }
}

/// Replays the transcript `proof`: recomputes every round polynomial from the
/// witness it carries and reports each check, expected against actual.
pub fn verify(ccs: &Ccs, proof: &Proof) -> (r: Verification)
    requires
        ccs.wf(),
        proof.wf_for(ccs),
    ensures
        reports(ccs, proof, r),
{
    let p = ccs.prime;
    let ghost pp = p as int;
    let zero = FiniteField::new(0, p);
    let one = FiniteField::new(1, p);
    proof {
        vstd::arithmetic::div_mod::lemma_small_mod(0, p as nat);
        vstd::arithmetic::div_mod::lemma_small_mod(1, p as nat);
    }

    // Outer check: Σ_x Q · eq(x, x) over the boolean row points.
    let mut sum_q = zero;
    let mut i: usize = 0;
    while i < 4
        invariant
            0 <= i <= 4,
            pp == p,
            pp > 1,
            p == ccs.prime,
            in_field(ccs, proof.q),
            in_field(ccs, sum_q),
            sum_q.val() == h_sum(proof.q.val(), i as int) % pp,
        decreases 4 - i,
    {
        let (x1, x2) = row_bits(i, p);
        let e = eqx(x1, x2, x1, x2);
        let t = proof.q.mul(&e);
        proof {
            let ev = eqx_at(row_point(i as int), row_point(i as int));
            vstd::arithmetic::div_mod::lemma_small_mod(proof.q.val() as nat, pp as nat);
            lemma_mul_congruent(proof.q.val(), e.val(), proof.q.val(), ev, pp);
            lemma_add_congruent(sum_q.val(), t.val(), h_sum(proof.q.val(), i as int), proof.q.val() * ev, pp);
        }
        sum_q = sum_q.add(&t);
        i = i + 1;
    }
    let outer = check(zero, sum_q);

    // Round 1: q1(0) + q1(1) against T.
    let q1_0 = compute_q1(ccs, zero, proof.r1, proof.r2, proof.alpha, &proof.z);
    let q1_1 = compute_q1(ccs, one, proof.r1, proof.r2, proof.alpha, &proof.z);
    let q1_sum = q1_0.add(&q1_1);
    proof {
        let (rp, al) = (row_challenge(proof), proof.alpha.val());
        lemma_add_congruent(q1_0.val(), q1_1.val(), q1_of(ccs, proof.z@, rp, al, 0), q1_of(ccs, proof.z@, rp, al, 1), pp);
    }
    let round1 = check(proof.t, q1_sum);

    // Round 2: s2 against q1(r11).
    let q1_r11 = compute_q1(ccs, proof.r11, proof.r1, proof.r2, proof.alpha, &proof.z);
    let round2 = check(q1_r11, proof.s2);

    // Round 3: s3 against q2(r22).
    let q2_r22 = compute_q2(ccs, proof.r22, proof.r1, proof.r2, proof.r11, proof.alpha, &proof.z);
    let round3 = check(q2_r22, proof.s3);

    // Final: c against q3(r33), and Q against (T1 T2 - T3) eq(beta, r).
    let q3_r33 = compute_q3(
        ccs,
        proof.r33,
        proof.r1,
        proof.r2,
        proof.r11,
        proof.r22,
        proof.alpha,
        &proof.z,
    );
    let final_c = check(q3_r33, proof.c);
    let e = eqx(proof.beta1, proof.beta2, proof.r1, proof.r2);
    let t12 = proof.t1.mul(&proof.t2);
    let diff = t12.sub(&proof.t3);
    let t_product = diff.mul(&e);
    proof {
        let (a, b, c) = (proof.t1.val(), proof.t2.val(), proof.t3.val());
        let ev = eqx_of(proof.beta1.val(), proof.beta2.val(), proof.r1.val(), proof.r2.val());
        vstd::arithmetic::div_mod::lemma_small_mod(a as nat, pp as nat);
        vstd::arithmetic::div_mod::lemma_small_mod(b as nat, pp as nat);
        vstd::arithmetic::div_mod::lemma_small_mod(c as nat, pp as nat);
        lemma_mul_congruent(a, b, a, b, pp);
        lemma_sub_congruent(t12.val(), c, a * b, c, pp);
        lemma_mul_congruent(diff.val(), e.val(), a * b - c, ev, pp);
    }
    let final_q = check(t_product, proof.q);
    Verification { outer, round1, round2, round3, final_c, final_q }
}

proof fn lemma_combo_split(c: &Ccs, z: Seq<i32>, rp: (int, int), alpha: int, y: (int, int, int))
    ensures
        combo_of(c, z, rp, alpha, y) == matrix_mle(c.m1@, rp, y) * vector_mle(z, y) + alpha * (
        matrix_mle(c.m2@, rp, y) * vector_mle(z, y)) + alpha * alpha * (matrix_mle(c.m3@, rp, y)
            * vector_mle(z, y)),
{
    let (x1, x2, x3, zz) = (
        matrix_mle(c.m1@, rp, y),
        matrix_mle(c.m2@, rp, y),
        matrix_mle(c.m3@, rp, y),
        vector_mle(z, y),
    );
    assert(alpha * x2 * zz == alpha * (x2 * zz)) by (nonlinear_arith);
    assert(alpha * alpha * x3 * zz == alpha * alpha * (x3 * zz)) by (nonlinear_arith);
}

proof fn lemma_sum8_distributes(a: Seq<int>, b: Seq<int>, c: Seq<int>, alpha: int)
    requires
        a.len() == 8,
        b.len() == 8,
        c.len() == 8,
    ensures
        (a[0] + alpha * b[0] + alpha * alpha * c[0]) + (a[1] + alpha * b[1] + alpha * alpha * c[1])
            + (a[2] + alpha * b[2] + alpha * alpha * c[2]) + (a[3] + alpha * b[3] + alpha * alpha
            * c[3]) + (a[4] + alpha * b[4] + alpha * alpha * c[4]) + (a[5] + alpha * b[5] + alpha
            * alpha * c[5]) + (a[6] + alpha * b[6] + alpha * alpha * c[6]) + (a[7] + alpha * b[7]
            + alpha * alpha * c[7]) == (a[0] + a[1] + a[2] + a[3] + a[4] + a[5] + a[6] + a[7])
            + alpha * (b[0] + b[1] + b[2] + b[3] + b[4] + b[5] + b[6] + b[7]) + alpha * alpha * (
        c[0] + c[1] + c[2] + c[3] + c[4] + c[5] + c[6] + c[7]),
{
    let aa = alpha * alpha;
    vstd::arithmetic::mul::lemma_mul_is_distributive_add(alpha, b[0] + b[1] + b[2] + b[3], b[4] + b[5] + b[6] + b[7]);
    vstd::arithmetic::mul::lemma_mul_is_distributive_add(alpha, b[0] + b[1], b[2] + b[3]);
    vstd::arithmetic::mul::lemma_mul_is_distributive_add(alpha, b[4] + b[5], b[6] + b[7]);
    vstd::arithmetic::mul::lemma_mul_is_distributive_add(alpha, b[0], b[1]);
    vstd::arithmetic::mul::lemma_mul_is_distributive_add(alpha, b[2], b[3]);
    vstd::arithmetic::mul::lemma_mul_is_distributive_add(alpha, b[4], b[5]);
    vstd::arithmetic::mul::lemma_mul_is_distributive_add(alpha, b[6], b[7]);
    vstd::arithmetic::mul::lemma_mul_is_distributive_add(aa, c[0] + c[1] + c[2] + c[3], c[4] + c[5] + c[6] + c[7]);
    vstd::arithmetic::mul::lemma_mul_is_distributive_add(aa, c[0] + c[1], c[2] + c[3]);
    vstd::arithmetic::mul::lemma_mul_is_distributive_add(aa, c[4] + c[5], c[6] + c[7]);
    vstd::arithmetic::mul::lemma_mul_is_distributive_add(aa, c[0], c[1]);
    vstd::arithmetic::mul::lemma_mul_is_distributive_add(aa, c[2], c[3]);
    vstd::arithmetic::mul::lemma_mul_is_distributive_add(aa, c[4], c[5]);
    vstd::arithmetic::mul::lemma_mul_is_distributive_add(aa, c[6], c[7]);
}

/// The round sums of the inner sum-check agree, for every instance, witness,
/// row point and challenge: `q1(0) + q1(1) == T1 + alpha T2 + alpha^2 T3`,
/// `q2(0) + q2(1) == q1(r11)` and `q3(0) + q3(1) == q2(r22)`.
pub proof fn lemma_round_sums(c: &Ccs, z: Seq<i32>, rp: (int, int), alpha: int, r11: int, r22: int)
    ensures
        q1_of(c, z, rp, alpha, 0) + q1_of(c, z, rp, alpha, 1) == ti_of(c.m1@, z, rp) + alpha * ti_of(
            c.m2@,
            z,
            rp,
        ) + alpha * alpha * ti_of(c.m3@, z, rp),
        q2_of(c, z, rp, alpha, r11, 0) + q2_of(c, z, rp, alpha, r11, 1) == q1_of(c, z, rp, alpha, r11),
        q3_of(c, z, rp, alpha, r11, r22, 0) + q3_of(c, z, rp, alpha, r11, r22, 1) == q2_of(
            c,
            z,
            rp,
            alpha,
            r11,
            r22,
        ),
{
    let pts = seq![
        col_point(0),
        col_point(1),
        col_point(2),
        col_point(3),
        col_point(4),
        col_point(5),
        col_point(6),
        col_point(7),
    ];
    assert(pts[0] == (0int, 0int, 0int) && pts[1] == (1int, 0int, 0int) && pts[2] == (0int, 1int, 0int)
        && pts[3] == (1int, 1int, 0int) && pts[4] == (0int, 0int, 1int) && pts[5] == (1int, 0int, 1int)
        && pts[6] == (0int, 1int, 1int) && pts[7] == (1int, 1int, 1int));
    let a = Seq::new(8, |k: int| ti_term(c.m1@, z, rp, k));
    let b = Seq::new(8, |k: int| ti_term(c.m2@, z, rp, k));
    let d = Seq::new(8, |k: int| ti_term(c.m3@, z, rp, k));
    assert forall|k: int| 0 <= k < 8 implies #[trigger] combo_of(c, z, rp, alpha, pts[k]) == a[k]
        + alpha * b[k] + alpha * alpha * d[k] by {
        lemma_combo_split(c, z, rp, alpha, pts[k]);
    }
    lemma_sum8_distributes(a, b, d, alpha);
    assert(ti_of(c.m1@, z, rp) == a[0] + a[1] + a[2] + a[3] + a[4] + a[5] + a[6] + a[7]) by {
        reveal_with_fuel(ti_sum, 9);
    }
    assert(ti_of(c.m2@, z, rp) == b[0] + b[1] + b[2] + b[3] + b[4] + b[5] + b[6] + b[7]) by {
        reveal_with_fuel(ti_sum, 9);
    }
    assert(ti_of(c.m3@, z, rp) == d[0] + d[1] + d[2] + d[3] + d[4] + d[5] + d[6] + d[7]) by {
        reveal_with_fuel(ti_sum, 9);
    }
    assert(q1_of(c, z, rp, alpha, 0) + q1_of(c, z, rp, alpha, 1) == combo_of(c, z, rp, alpha, pts[0])
        + combo_of(c, z, rp, alpha, pts[1]) + combo_of(c, z, rp, alpha, pts[2]) + combo_of(c, z, rp, alpha, pts[3])
        + combo_of(c, z, rp, alpha, pts[4]) + combo_of(c, z, rp, alpha, pts[5]) + combo_of(c, z, rp, alpha, pts[6])
        + combo_of(c, z, rp, alpha, pts[7]));
}

/// An honest transcript passes the three round checks and the check of the
/// final opening `c == q3(r33)`, whatever the witness and the challenges.
pub proof fn lemma_honest_proof_passes_rounds(c: &Ccs, z: Seq<i32>, ch: Challenges, pf: &Proof, v: Verification)
    requires
        c.wf(),
        is_honest_proof(c, z, ch, pf),
        reports(c, pf, v),
    ensures
        v.round1.holds,
        v.round2.holds,
        v.round3.holds,
        v.final_c.holds,
{
    lemma_round_sums(c, z, (ch.r1.val(), ch.r2.val()), ch.alpha.val(), ch.r11.val(), ch.r22.val());
}

/// At a boolean row point, the per-matrix value `T` of `ti_generator` is the
/// corresponding row of `M z`.
proof fn lemma_ti_on_boolean_row(m: Seq<Seq<i32>>, z: Seq<i32>, rp: (int, int), n: int)
    requires
        has_shape(m, 4, 8),
        z.len() == 8,
        is_bit(rp.0),
        is_bit(rp.1),
        0 <= n <= 8,
    ensures
        ti_sum(m, z, rp, n) == dot_sum(m[row_of(rp.0, rp.1)], z, n),
    decreases n,
{
    if n > 0 {
        lemma_ti_on_boolean_row(m, z, rp, n - 1);
        let b = col_point(n - 1);
        assert(col_of(b.0, b.1, b.2) == n - 1);
        lemma_mi_linear_on_hypercube(m, rp.0, rp.1, b.0, b.1, b.2);
        lemma_z_linear_on_hypercube(z, b.0, b.1, b.2);
    }
}

/// An honest transcript of a witness that satisfies the relation, at a
/// boolean row point `(r1, r2)`, passes the final identity
/// `Q == (T1 · T2 − T3) · eq((beta1, beta2), (r1, r2))` whenever
/// `compute_g` is zero for that witness.
pub proof fn lemma_honest_proof_final_q(c: &Ccs, z: Seq<i32>, ch: Challenges, pf: &Proof, v: Verification)
    requires
        c.wf(),
        is_honest_proof(c, z, ch, pf),
        reports(c, pf, v),
        satisfies(c, z),
        is_bit(ch.r1.val()),
        is_bit(ch.r2.val()),
        g_of(c, z) % (c.prime as int) == 0,
    ensures
        v.final_q.holds,
{
    let p = c.prime as int;
    let rp = (ch.r1.val(), ch.r2.val());
    let row = row_of(rp.0, rp.1);
    lemma_ti_on_boolean_row(c.m1@, z, rp, 8);
    lemma_ti_on_boolean_row(c.m2@, z, rp, 8);
    lemma_ti_on_boolean_row(c.m3@, z, rp, 8);
    assert(row_satisfied(c, z, row));
    let (t1, t2, t3) = (row_times(c.m1@, z, row), row_times(c.m2@, z, row), row_times(c.m3@, z, row));
    lemma_mul_congruent(pf.t1.val(), pf.t2.val(), t1, t2, p);
    lemma_sub_congruent((pf.t1.val() * pf.t2.val()) % p, pf.t3.val(), t1 * t2, t3, p);
    let diff = pf.t1.val() * pf.t2.val() - pf.t3.val();
    crate::field::lemma_canonical(pf.t3);
    vstd::arithmetic::div_mod::lemma_sub_mod_noop(pf.t1.val() * pf.t2.val(), pf.t3.val(), p);
    assert(diff % p == 0);
    let e = eqx_of(ch.beta1.val(), ch.beta2.val(), ch.r1.val(), ch.r2.val());
    vstd::arithmetic::div_mod::lemma_mul_mod_noop_left(diff, e, p);
    let e2 = eqx_of(ch.beta1.val(), ch.beta2.val(), mi_z_prod_of(c.m1@, z) % p, mi_z_prod_of(c.m2@, z) % p);
    vstd::arithmetic::div_mod::lemma_mul_mod_noop_left(g_of(c, z), e2, p);
    assert(final_q_value(c, pf) == 0);
    assert(pf.q.val() == 0);
}

/// Checking a transcript has no hidden state: two checks of the same
/// transcript against the same instance report the same outcome for every
/// check.
pub proof fn lemma_verification_deterministic(c: &Ccs, pf: &Proof, v1: Verification, v2: Verification)
    requires
        reports(c, pf, v1),
        reports(c, pf, v2),
    ensures
        v1.outer.holds == v2.outer.holds,
        v1.round1.holds == v2.round1.holds,
        v1.round2.holds == v2.round2.holds,
        v1.round3.holds == v2.round3.holds,
        v1.final_c.holds == v2.final_c.holds,
        v1.final_q.holds == v2.final_q.holds,
        v1.all_hold() == v2.all_hold(),
{
}

} // verus!
