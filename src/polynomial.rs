use vstd::prelude::*;
use vstd::arithmetic::power::pow;
use crate::field::{lemma_add_congruent, lemma_canonical, lemma_mul_congruent, FiniteField};

verus! {

/// Every coefficient is an element of the field of order `p`.
pub open spec fn coeffs_in_field(s: Seq<FiniteField>, p: int) -> bool {
    forall|i: int| 0 <= i < s.len() ==> (#[trigger] s[i]).wf() && s[i].modulus() == p
}

/// Coefficient `i` as an integer, zero past the end.
pub open spec fn coeff_val(s: Seq<FiniteField>, i: int) -> int {
    if 0 <= i < s.len() {
        s[i].val()
    } else {
        0
    }
}

/// The summand `a_i * b_(k - i)` of coefficient `k` of a product, zero when
/// `b` has no coefficient `k - i`.
pub open spec fn conv_term(a: Seq<FiniteField>, b: Seq<FiniteField>, i: int, k: int) -> int {
    if 0 <= k - i < b.len() {
        a[i].val() * b[k - i].val()
    } else {
        0
    }
}

/// `Σ_(i < n) a_i * b_(k - i)`.
pub open spec fn conv_sum(a: Seq<FiniteField>, b: Seq<FiniteField>, k: int, n: int) -> int
    decreases n,
{
    if n <= 0 {
        0
    } else {
        conv_sum(a, b, k, n - 1) + conv_term(a, b, n - 1, k)
    }
}

/// `Σ_(i < n) a_i * x^i`.
pub open spec fn eval_sum(a: Seq<FiniteField>, x: int, n: int) -> int
    decreases n,
{
    if n <= 0 {
        0
    } else {
        eval_sum(a, x, n - 1) + a[n - 1].val() * pow(x, (n - 1) as nat)
    }
}

/// A polynomial in one variable over a prime field, by its coefficients,
/// lowest degree first.
pub struct Polynomial {
    coeffs: Vec<FiniteField>,
}

impl View for Polynomial {
    type V = Seq<FiniteField>;

    closed spec fn view(&self) -> Seq<FiniteField> {
        self.coeffs@
    }
}

impl Polynomial {
    /// The field every coefficient lives in: that of the first one.
    pub open spec fn modulus(&self) -> int {
        self@[0].modulus()
    }

    /// At least one coefficient, all in one field.
    pub open spec fn wf(&self) -> bool {
        self@.len() > 0 && coeffs_in_field(self@, self.modulus())
    }

    pub fn new(coeffs: Vec<FiniteField>) -> (r: Polynomial)
        ensures
            r@ == coeffs@,
    {
        Polynomial { coeffs }
    }

    /// The coefficients, lowest degree first.
    pub fn coefficients(&self) -> (r: &Vec<FiniteField>)
        ensures
            r@ == self@,
    {
        &self.coeffs
    }

    /// The coefficient-wise sum.
    pub fn add(&self, other: &Self) -> (r: Polynomial)
        requires
            self.wf(),
            coeffs_in_field(other@, self.modulus()),
        ensures
            r@.len() == if self@.len() >= other@.len() { self@.len() } else { other@.len() },
            coeffs_in_field(r@, self.modulus()),
            forall|i: int|
                0 <= i < r@.len() ==> #[trigger] r@[i].val() == (coeff_val(self@, i) + coeff_val(
                    other@,
                    i,
                )) % self.modulus(),
    {
        let p = self.coeffs[0].prime();
        let la = self.coeffs.len();
        let lb = other.coeffs.len();
        let max_len = if la >= lb { la } else { lb };
        let zero = FiniteField::new(0, p);
        let mut result: Vec<FiniteField> = Vec::new();
        let mut i: usize = 0;
        while i < max_len
            invariant
                self.wf(),
                p == self.modulus(),
                la == self@.len(),
                lb == other@.len(),
                max_len == if la >= lb { la } else { lb },
                coeffs_in_field(other@, p as int),
                zero.wf() && zero.modulus() == p && zero.val() == 0,
                0 <= i <= max_len,
                result@.len() == i,
                coeffs_in_field(result@, p as int),
                forall|k: int|
                    0 <= k < i ==> #[trigger] result@[k].val() == (coeff_val(self@, k) + coeff_val(
                        other@,
                        k,
                    )) % (p as int),
            decreases max_len - i,
        {
            let a = if i < la { self.coeffs[i] } else { zero };
            proof {
                assert(a.wf() && a.modulus() == p);
                lemma_canonical(a);
            }
            let v = if i < lb { a.add(&other.coeffs[i]) } else { a };
            result.push(v);
            i = i + 1;
        }
        Polynomial { coeffs: result }
    }

    /// The coefficient-wise difference.
    pub fn sub(&self, other: &Self) -> (r: Polynomial)
        requires
            self.wf(),
            coeffs_in_field(other@, self.modulus()),
        ensures
            r@.len() == if self@.len() >= other@.len() { self@.len() } else { other@.len() },
            coeffs_in_field(r@, self.modulus()),
            forall|i: int|
                0 <= i < r@.len() ==> #[trigger] r@[i].val() == (coeff_val(self@, i) - coeff_val(
                    other@,
                    i,
                )) % self.modulus(),
    {
        let p = self.coeffs[0].prime();
        let la = self.coeffs.len();
        let lb = other.coeffs.len();
        let max_len = if la >= lb { la } else { lb };
        let zero = FiniteField::new(0, p);
        let mut result: Vec<FiniteField> = Vec::new();
        let mut i: usize = 0;
        while i < max_len
            invariant
                self.wf(),
                p == self.modulus(),
                la == self@.len(),
                lb == other@.len(),
                max_len == if la >= lb { la } else { lb },
                coeffs_in_field(other@, p as int),
                zero.wf() && zero.modulus() == p && zero.val() == 0,
                0 <= i <= max_len,
                result@.len() == i,
                coeffs_in_field(result@, p as int),
                forall|k: int|
                    0 <= k < i ==> #[trigger] result@[k].val() == (coeff_val(self@, k) - coeff_val(
                        other@,
                        k,
                    )) % (p as int),
            decreases max_len - i,
        {
            let a = if i < la { self.coeffs[i] } else { zero };
            proof {
                assert(a.wf() && a.modulus() == p);
                lemma_canonical(a);
            }
            let v = if i < lb { a.sub(&other.coeffs[i]) } else { a };
            result.push(v);
            i = i + 1;
        }
        Polynomial { coeffs: result }
    }

    /// The product: coefficient `k` is `Σ_i a_i * b_(k - i)`.
    pub fn mul(&self, other: &Self) -> (r: Polynomial)
        requires
            self.wf(),
            other@.len() > 0,
            self@.len() + other@.len() <= usize::MAX,
            coeffs_in_field(other@, self.modulus()),
        ensures
            r@.len() == self@.len() + other@.len() - 1,
            coeffs_in_field(r@, self.modulus()),
            forall|k: int|
                0 <= k < r@.len() ==> #[trigger] r@[k].val() == conv_sum(self@, other@, k, self@.len() as int)
                    % self.modulus(),
    {
        let p = self.coeffs[0].prime();
        let ghost pp = p as int;
        let ghost a = self@;
        let ghost b = other@;
        let la = self.coeffs.len();
        let lb = other.coeffs.len();
        let n = la + lb - 1;
        let zero = FiniteField::new(0, p);
        proof {
            vstd::arithmetic::div_mod::lemma_small_mod(0, pp as nat);
        }
        let mut result: Vec<FiniteField> = Vec::new();
        let mut k: usize = 0;
        while k < n
            invariant
                0 <= k <= n,
                zero.wf() && zero.modulus() == p && zero.val() == 0,
                result@.len() == k,
                forall|m: int| 0 <= m < k ==> #[trigger] result@[m] == zero,
            decreases n - k,
        {
            result.push(zero);
            k = k + 1;
        }
        let mut i: usize = 0;
        while i < la
            invariant
                a == self@,
                b == other@,
                la == a.len(),
                lb == b.len(),
                la > 0,
                lb > 0,
                n == la + lb - 1,
                pp == p,
                pp > 0,
                p == self.modulus(),
                coeffs_in_field(a, pp),
                coeffs_in_field(b, pp),
                0 <= i <= la,
                result@.len() == n,
                coeffs_in_field(result@, pp),
                forall|m: int| 0 <= m < n ==> #[trigger] result@[m].val() == conv_sum(a, b, m, i as int) % pp,
            decreases la - i,
        {
            let mut j: usize = 0;
            while j < lb
                invariant
                    a == self@,
                    b == other@,
                    la == a.len(),
                    lb == b.len(),
                    n == la + lb - 1,
                    pp == p,
                    pp > 0,
                    coeffs_in_field(a, pp),
                    coeffs_in_field(b, pp),
                    0 <= i < la,
                    0 <= j <= lb,
                    result@.len() == n,
                    coeffs_in_field(result@, pp),
                    forall|m: int|
                        0 <= m < n ==> #[trigger] result@[m].val() == (conv_sum(a, b, m, i as int) + (
                        if i <= m < i + j {
                            a[i as int].val() * b[m - i].val()
                        } else {
                            0
                        })) % pp,
                decreases lb - j,
            {
                let t = self.coeffs[i].mul(&other.coeffs[j]);
                let old_v = result[i + j];
                let v = old_v.add(&t);
                proof {
                    let m = (i + j) as int;
                    let before = conv_sum(a, b, m, i as int) + (if i <= m < i + j {
                        a[i as int].val() * b[m - i].val()
                    } else {
                        0
                    });
                    lemma_add_congruent(old_v.val(), t.val(), before, a[i as int].val() * b[j as int].val(), pp);
                }
                result.set(i + j, v);
                j = j + 1;
            }
            proof {
                assert forall|m: int| 0 <= m < n implies #[trigger] result@[m].val() == conv_sum(
                    a,
                    b,
                    m,
                    i + 1,
                ) % pp by {
                    assert(conv_sum(a, b, m, i + 1) == conv_sum(a, b, m, i as int) + conv_term(a, b, i as int, m));
                }
            }
            i = i + 1;
        }
        Polynomial { coeffs: result }
    }

    /// The value at `x`: `Σ_i c_i * x^i`.
    pub fn evaluate(&self, x: &FiniteField) -> (r: FiniteField)
        requires
            self.wf(),
            x.wf(),
            x.modulus() == self.modulus(),
        ensures
            r.wf(),
            r.modulus() == self.modulus(),
            r.val() == eval_sum(self@, x.val(), self@.len() as int) % self.modulus(),
    {
        let p = self.coeffs[0].prime();
        let ghost pp = p as int;
        let ghost a = self@;
        let mut result = FiniteField::new(0, p);
        let mut power = FiniteField::new(1, p);
        proof {
            vstd::arithmetic::div_mod::lemma_small_mod(0, pp as nat);
            assert(pow(x.val(), 0) == 1) by {
                vstd::arithmetic::power::lemma_pow0(x.val());
            }
        }
        let mut i: usize = 0;
        while i < self.coeffs.len()
            invariant
                a == self@,
                pp == p,
                pp > 0,
                p == self.modulus(),
                coeffs_in_field(a, pp),
                x.wf(),
                x.modulus() == pp,
                0 <= i <= a.len(),
                result.wf() && result.modulus() == pp,
                power.wf() && power.modulus() == pp,
                result.val() == eval_sum(a, x.val(), i as int) % pp,
                power.val() == pow(x.val(), i as nat) % pp,
            decreases a.len() - i,
        {
            let c = self.coeffs[i];
            let t = c.mul(&power);
            proof {
                lemma_canonical(c);
                lemma_mul_congruent(c.val(), power.val(), c.val(), pow(x.val(), i as nat), pp);
                lemma_add_congruent(result.val(), t.val(), eval_sum(a, x.val(), i as int), c.val() * pow(x.val(), i as nat), pp);
            }
            result = result.add(&t);
            let next = power.mul(x);
            proof {
                lemma_canonical(*x);
                lemma_mul_congruent(power.val(), x.val(), pow(x.val(), i as nat), x.val(), pp);
                vstd::arithmetic::power::lemma_pow_adds(x.val(), i as nat, 1);
                vstd::arithmetic::power::lemma_pow1(x.val());
            }
            power = next;
            i = i + 1;
        }
        result
    }
}

/// The pieces of `s` between the separators `", "`.
pub uninterp spec fn split_on_comma_space(s: Seq<char>) -> Seq<Seq<char>>;

/// Relies on `str::split` with the separator `", "`: the pieces depend on the
/// text alone.
#[verifier::external_body]
fn split_names(s: &str) -> (r: Vec<String>)
    ensures
        r@.len() == split_on_comma_space(s@).len(),
        forall|i: int| 0 <= i < r@.len() ==> #[trigger] r@[i]@ == split_on_comma_space(s@)[i],
{
    s.split(", ").map(|piece| piece.to_string()).collect()
}

/// The position of `name` among the names of `m`, or -1.
pub open spec fn find_name(m: Seq<(Seq<char>, int)>, name: Seq<char>, n: int) -> int
    decreases n,
{
    if n <= 0 {
        -1
    } else if m[n - 1].0 == name {
        n - 1
    } else {
        find_name(m, name, n - 1)
    }
}

/// `m` with `name` bound to `source`: in place when `name` is there already,
/// appended otherwise.
pub open spec fn bind_name(m: Seq<(Seq<char>, int)>, name: Seq<char>, source: int) -> Seq<(Seq<char>, int)> {
    let f = find_name(m, name, m.len() as int);
    if f >= 0 {
        m.update(f, (name, source))
    } else {
        m.push((name, source))
    }
}

/// The variables named by the first `n` pieces, each with the position of
/// the last piece that named it.
pub open spec fn names_bound(pieces: Seq<Seq<char>>, n: int) -> Seq<(Seq<char>, int)>
    decreases n,
{
    if n <= 0 {
        seq![]
    } else {
        bind_name(names_bound(pieces, n - 1), pieces[n - 1], n - 1)
    }
}

/// `s` holds `count` coefficients, 1 at `index` and 0 elsewhere, in the
/// field of order `p`.
pub open spec fn is_unit(s: Seq<FiniteField>, count: int, index: int, p: int) -> bool {
    &&& s.len() == count
    &&& coeffs_in_field(s, p)
    &&& forall|k: int| 0 <= k < count ==> #[trigger] s[k].val() == (if k == index { 1int } else { 0int }) % p
}

/// Named variables, each a polynomial of its own.
pub struct PolynomialRing {
    variables: Vec<(String, Polynomial)>,
}

impl PolynomialRing {
    /// Each variable's name and polynomial, in the order of first naming.
    pub closed spec fn entries(&self) -> Seq<(Seq<char>, Seq<FiniteField>)> {
        self.variables@.map_values(|e: (String, Polynomial)| (e.0@, e.1@))
    }

    /// The ring with one variable for each name in `variable_names` (separated
    /// by `", "`); the variable named at position `i` has `variable_count`
    /// coefficients, 1 at `i` and 0 elsewhere. A name given twice keeps its
    /// place and takes its last position.
    pub fn new(prime: i32, variable_count: usize, variable_names: &str) -> (r: PolynomialRing)
        requires
            prime > 0,
        ensures
            ({
                let bound = names_bound(
                    split_on_comma_space(variable_names@),
                    split_on_comma_space(variable_names@).len() as int,
                );
                &&& r.entries().len() == bound.len()
                &&& forall|i: int|
                    0 <= i < bound.len() ==> #[trigger] r.entries()[i].0 == bound[i].0 && is_unit(
                        r.entries()[i].1,
                        variable_count as int,
                        bound[i].1,
                        prime as int,
                    )
            }),
    {
        let names = split_names(variable_names);
        let ghost pieces = split_on_comma_space(variable_names@);
        let mut variables: Vec<(String, Polynomial)> = Vec::new();
        let mut index: usize = 0;
        while index < names.len()
            invariant
                prime > 0,
                names@.len() == pieces.len(),
                forall|i: int| 0 <= i < names@.len() ==> #[trigger] names@[i]@ == pieces[i],
                0 <= index <= names@.len(),
                variables@.len() == names_bound(pieces, index as int).len(),
                forall|i: int|
                    0 <= i < variables@.len() ==> #[trigger] variables@[i].0@ == names_bound(
                        pieces,
                        index as int,
                    )[i].0 && is_unit(
                        variables@[i].1@,
                        variable_count as int,
                        names_bound(pieces, index as int)[i].1,
                        prime as int,
                    ),
            decreases names@.len() - index,
        {
            let coeffs = unit_coeffs(prime, variable_count, index);
            let name = names[index].clone();
            let ghost before = names_bound(pieces, index as int);
            let mut found: usize = variables.len();
            let mut k: usize = variables.len();
            while k > 0
                invariant_except_break
                    found == variables@.len(),
                invariant
                    0 <= k <= variables@.len(),
                    variables@.len() == before.len(),
                    forall|i: int| 0 <= i < variables@.len() ==> #[trigger] variables@[i].0@ == before[i].0,
                    find_name(before, name@, before.len() as int) == find_name(before, name@, k as int),
                ensures
                    found < variables@.len() ==> found == find_name(before, name@, before.len() as int),
                    found >= variables@.len() ==> found == variables@.len() && find_name(
                        before,
                        name@,
                        before.len() as int,
                    ) == -1,
                decreases k,
            {
                if variables[k - 1].0 == name {
                    found = k - 1;
                    break;
                }
                k = k - 1;
            }
            let ghost after = bind_name(before, name@, index as int);
            proof {
                assert(names_bound(pieces, index + 1) == after);
            }
            if found < variables.len() {
                variables.set(found, (name, Polynomial::new(coeffs)));
            } else {
                variables.push((name, Polynomial::new(coeffs)));
            }
            proof {
                assert forall|i: int| 0 <= i < variables@.len() implies #[trigger] variables@[i].0@
                    == after[i].0 && is_unit(
                    variables@[i].1@,
                    variable_count as int,
                    after[i].1,
                    prime as int,
                ) by {
                }
            }
            index = index + 1;
        }
        PolynomialRing { variables }
    }

    /// The variables' polynomials, in the order of first naming.
    pub fn gens(&self) -> (r: Vec<&Polynomial>)
        ensures
            r@.len() == self.entries().len(),
            forall|i: int| 0 <= i < r@.len() ==> #[trigger] r@[i]@ == self.entries()[i].1,
    {
        let mut polys: Vec<&Polynomial> = Vec::new();
        let mut i: usize = 0;
        while i < self.variables.len()
            invariant
                0 <= i <= self.variables@.len(),
                polys@.len() == i,
                forall|k: int| 0 <= k < i ==> #[trigger] polys@[k]@ == self.entries()[k].1,
            decreases self.variables@.len() - i,
        {
            polys.push(&self.variables[i].1);
            i = i + 1;
        }
        polys
    }
}

/// `count` coefficients, 1 at `index` and 0 elsewhere.
fn unit_coeffs(prime: i32, count: usize, index: usize) -> (r: Vec<FiniteField>)
    requires
        prime > 0,
    ensures
        is_unit(r@, count as int, index as int, prime as int),
{
    let mut coeffs: Vec<FiniteField> = Vec::new();
    let mut k: usize = 0;
    while k < count
        invariant
            prime > 0,
            0 <= k <= count,
            coeffs@.len() == k,
            coeffs_in_field(coeffs@, prime as int),
            forall|m: int|
                0 <= m < k ==> #[trigger] coeffs@[m].val() == (if m == index { 1int } else { 0int })
                    % prime as int,
        decreases count - k,
    {
        let v = if k == index { FiniteField::new(1, prime) } else { FiniteField::new(0, prime) };
        coeffs.push(v);
        k = k + 1;
    }
    coeffs
}

} // verus!
