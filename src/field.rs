use vstd::prelude::*;
use vstd::arithmetic::div_mod::{
    lemma_fundamental_div_mod, lemma_mod_multiples_basic, lemma_mul_mod_noop_general,
    lemma_sub_mod_noop,
};

verus! {

/// Why a field operation could not produce a result.
#[derive(Clone, Copy, Debug, PartialEq, Eq, Structural)]
pub enum FieldError {
    /// The zero element has no inverse.
    DivisionByZero,
    /// The element shares a factor with a modulus that is not prime.
    NotInvertible,
}

/// `d` divides `n` (for a positive `d`).
pub open spec fn divides(d: int, n: int) -> bool {
    n % d == 0
}

/// `p` is a prime number.
pub open spec fn is_prime(p: int) -> bool {
    p > 1 && forall|d: int| 1 < d < p ==> !divides(d, p)
}

/// `a` has a multiplicative inverse modulo `m`.
pub open spec fn invertible(a: int, m: int) -> bool {
    exists|x: int| #[trigger] (a * x) % m == 1
}

/// An element of the integers modulo `prime`, kept as its canonical
/// representative in `[0, prime)`.
#[derive(Clone, Copy, Debug, PartialEq, Eq, Structural)]
pub struct FiniteField {
    value: i32,
    prime: i32,
}

impl FiniteField {
    /// The canonical representative.
    pub closed spec fn val(self) -> int {
        self.value as int
    }

    /// The modulus of the field the element lives in.
    pub closed spec fn modulus(self) -> int {
        self.prime as int
    }

    pub open spec fn wf(self) -> bool {
        self.modulus() > 0 && 0 <= self.val() < self.modulus()
    }

    /// Two well-formed elements of the same field.
    pub open spec fn same_field(self, other: FiniteField) -> bool {
        self.wf() && other.wf() && self.modulus() == other.modulus()
    }

    /// The element `value mod prime`.
    pub fn new(value: i32, prime: i32) -> (r: FiniteField)
        requires
            prime > 0,
        ensures
            r.wf(),
            r.modulus() == prime,
            r.val() == value as int % prime as int,
    {
        let p = prime as i64;
        let x = value as i64;
        let v: i64 = if x >= 0 {
            x % p
        } else {
            let m = (-x) % p;
            proof {
                lemma_fundamental_div_mod(-x, p as int);
                let q = (-x) / (p as int);
                assert(x == (-q) * p - m) by (nonlinear_arith)
                    requires
                        -x == p * q + m,
                ;
                assert((-q) * p - m == (-q - 1) * p + (p - m)) by (nonlinear_arith);
                if m == 0 {
                    vstd::arithmetic::div_mod::lemma_fundamental_div_mod_converse(
                        x as int,
                        p as int,
                        -q,
                        0,
                    );
                } else {
                    vstd::arithmetic::div_mod::lemma_fundamental_div_mod_converse(
                        x as int,
                        p as int,
                        -q - 1,
                        p - m,
                    );
                }
            }
            if m == 0 {
                0
            } else {
                p - m
            }
        };
        FiniteField { value: v as i32, prime }
    }

    pub fn get_value(&self) -> (r: i32)
        ensures
            r == self.val(),
    {
        self.value
    }

    /// The modulus of the element's field.
    pub fn prime(&self) -> (r: i32)
        ensures
            r == self.modulus(),
    {
        self.prime
    }

    pub fn add(&self, other: &Self) -> (r: FiniteField)
        requires
            self.same_field(*other),
        ensures
            r.wf(),
            r.modulus() == self.modulus(),
            r.val() == (self.val() + other.val()) % self.modulus(),
    {
        let s = self.value as i64 + other.value as i64;
        let p = self.prime as i64;
        let v = if s >= p { s - p } else { s };
        proof {
            if s >= p {
                lemma_small_mod_int(s - p, p as int);
                lemma_mod_sub_once(s as int, p as int);
            } else {
                lemma_small_mod_int(s as int, p as int);
            }
        }
        FiniteField { value: v as i32, prime: self.prime }
    }

    pub fn sub(&self, other: &Self) -> (r: FiniteField)
        requires
            self.same_field(*other),
        ensures
            r.wf(),
            r.modulus() == self.modulus(),
            r.val() == (self.val() - other.val()) % self.modulus(),
    {
        let d = self.value as i64 - other.value as i64;
        let p = self.prime as i64;
        let v = if d < 0 { d + p } else { d };
        proof {
            if d < 0 {
                lemma_small_mod_int(d + p, p as int);
                lemma_mod_sub_once(d + p, p as int);
            } else {
                lemma_small_mod_int(d as int, p as int);
            }
        }
        FiniteField { value: v as i32, prime: self.prime }
    }

    pub fn mul(&self, other: &Self) -> (r: FiniteField)
        requires
            self.same_field(*other),
        ensures
            r.wf(),
            r.modulus() == self.modulus(),
            r.val() == (self.val() * other.val()) % self.modulus(),
    {
        let a = self.value as i64;
        let b = other.value as i64;
        proof {
            assert(0 <= a * b <= 0x7fff_ffff * 0x7fff_ffff) by (nonlinear_arith)
                requires
                    0 <= a <= 0x7fff_ffff,
                    0 <= b <= 0x7fff_ffff,
            ;
        }
        let v = (a * b) % (self.prime as i64);
        FiniteField { value: v as i32, prime: self.prime }
    }

    /// The multiplicative inverse, by the extended Euclidean algorithm.
    pub fn inv(&self) -> (r: Result<FiniteField, FieldError>)
        requires
            self.wf(),
        ensures
            match r {
                Ok(x) => x.wf() && x.modulus() == self.modulus() && (self.val() * x.val())
                    % self.modulus() == 1,
                Err(FieldError::DivisionByZero) => self.val() == 0,
                Err(FieldError::NotInvertible) => self.val() != 0 && !invertible(
                    self.val(),
                    self.modulus(),
                ),
            },
            self.val() != 0 && invertible(self.val(), self.modulus()) ==> r is Ok,
            self.val() != 0 && is_prime(self.modulus()) ==> r is Ok,
    {
        if self.value == 0 {
            return Err(FieldError::DivisionByZero);
        }
        match mod_inv(self.value, self.prime) {
            Some(x) => Ok(FiniteField { value: x, prime: self.prime }),
            None => {
                proof {
                    let g = choose|g: int|
                        g > 1 && divides(g, self.val()) && divides(g, self.modulus());
                    lemma_prime_no_common_factor(g, self.val(), self.modulus());
                }
                Err(FieldError::NotInvertible)
            },
        }
    }

    /// `self / other`, that is `self` times the inverse of `other`.
    pub fn div(&self, other: &Self) -> (r: Result<FiniteField, FieldError>)
        requires
            self.same_field(*other),
        ensures
            match r {
                Ok(x) => x.wf() && x.modulus() == self.modulus() && (x.val() * other.val())
                    % self.modulus() == self.val(),
                Err(FieldError::DivisionByZero) => other.val() == 0,
                Err(FieldError::NotInvertible) => other.val() != 0 && !invertible(
                    other.val(),
                    self.modulus(),
                ),
            },
            other.val() != 0 && is_prime(self.modulus()) ==> r is Ok,
    {
        match other.inv() {
            Ok(i) => {
                let x = self.mul(&i);
                proof {
                    let p = self.modulus();
                    let (a, b, c) = (self.val(), other.val(), i.val());
                    // x * b == a * (c * b) == a * 1 (mod p)
                    lemma_mul_mod_noop_general(a * c, b, p);
                    assert((a * c) * b == a * (b * c)) by (nonlinear_arith);
                    lemma_mul_mod_noop_general(a, b * c, p);
                    lemma_small_mod_int(a, p);
                }
                Ok(x)
            },
            Err(e) => Err(e),
        }
    }
}

/// A canonical representative is its own remainder.
pub proof fn lemma_canonical(x: FiniteField)
    requires
        x.wf(),
    ensures
        x.val() % x.modulus() == x.val(),
{
    lemma_small_mod_int(x.val(), x.modulus());
}

/// Reduction modulo `p` commutes with `+`.
pub proof fn lemma_add_congruent(a: int, b: int, x: int, y: int, p: int)
    requires
        p > 0,
        a == x % p,
        b == y % p,
    ensures
        (a + b) % p == (x + y) % p,
{
    vstd::arithmetic::div_mod::lemma_add_mod_noop(x, y, p);
}

/// Reduction modulo `p` commutes with `-`.
pub proof fn lemma_sub_congruent(a: int, b: int, x: int, y: int, p: int)
    requires
        p > 0,
        a == x % p,
        b == y % p,
    ensures
        (a - b) % p == (x - y) % p,
{
    lemma_sub_mod_noop(x, y, p);
}

/// Reduction modulo `p` commutes with `*`.
pub proof fn lemma_mul_congruent(a: int, b: int, x: int, y: int, p: int)
    requires
        p > 0,
        a == x % p,
        b == y % p,
    ensures
        (a * b) % p == (x * y) % p,
{
    vstd::arithmetic::div_mod::lemma_mul_mod_noop(x, y, p);
}

proof fn lemma_small_mod_int(x: int, m: int)
    requires
        0 <= x < m,
    ensures
        x % m == x,
{
    vstd::arithmetic::div_mod::lemma_small_mod(x as nat, m as nat);
}

proof fn lemma_mod_sub_once(x: int, m: int)
    requires
        m > 0,
    ensures
        (x - m) % m == x % m,
{
    lemma_fundamental_div_mod(x, m);
    lemma_fundamental_div_mod(x - m, m);
    vstd::arithmetic::div_mod::lemma_mod_sub_multiples_vanish(x, m);
}

/// A common divisor of `v` and `r` divides `q * v + r`.
proof fn lemma_divides_combination(d: int, q: int, v: int, r: int)
    requires
        d > 0,
        divides(d, v),
        divides(d, r),
    ensures
        divides(d, q * v + r),
{
    lemma_fundamental_div_mod(v, d);
    lemma_fundamental_div_mod(r, d);
    assert(q * v + r == d * (q * (v / d) + r / d)) by (nonlinear_arith)
        requires
            v == d * (v / d),
            r == d * (r / d),
    ;
    lemma_mod_multiples_basic(q * (v / d) + r / d, d);
    assert((q * (v / d) + r / d) * d == d * (q * (v / d) + r / d)) by (nonlinear_arith);
}

/// A positive divisor `g` of both `a` and `m`, with `g > 1`, rules out an
/// inverse of `a` modulo `m`.
proof fn lemma_common_factor_not_invertible(g: int, a: int, m: int)
    requires
        g > 1,
        m > 1,
        divides(g, a),
        divides(g, m),
    ensures
        !invertible(a, m),
{
    if invertible(a, m) {
        let x = choose|x: int| #[trigger] (a * x) % m == 1;
        lemma_fundamental_div_mod(a * x, m);
        // a * x == m * k + 1
        let k = (a * x) / m;
        lemma_fundamental_div_mod(a, g);
        lemma_fundamental_div_mod(m, g);
        assert(a * x - m * k == g * ((a / g) * x - (m / g) * k)) by (nonlinear_arith)
            requires
                a == g * (a / g),
                m == g * (m / g),
        ;
        assert(g * ((a / g) * x - (m / g) * k) == 1);
        assert(false) by (nonlinear_arith)
            requires
                g > 1,
                g * ((a / g) * x - (m / g) * k) == 1,
        ;
    }
}

/// Modulo a prime, no factor `g > 1` divides both the modulus and a
/// non-zero residue.
proof fn lemma_prime_no_common_factor(g: int, a: int, m: int)
    requires
        0 < a < m,
        g > 1,
        divides(g, a),
        divides(g, m),
    ensures
        !is_prime(m),
{
    lemma_divisor_le(g, m);
    if g == m {
        lemma_small_mod_int(a, m);
    }
}

proof fn lemma_divisor_le(d: int, n: int)
    requires
        d > 0,
        n > 0,
        divides(d, n),
    ensures
        d <= n,
{
    lemma_fundamental_div_mod(n, d);
    assert(d <= n) by (nonlinear_arith)
        requires
            n == d * (n / d),
            d > 0,
            n > 0,
    ;
}

/// Congruences modulo `m` survive `x - q * y`.
proof fn lemma_congruent_step(u: int, v: int, x: int, y: int, q: int, m: int)
    requires
        m > 0,
        u % m == x % m,
        v % m == y % m,
    ensures
        (u - q * v) % m == (x - q * y) % m,
{
    lemma_sub_mod_noop(u, q * v, m);
    lemma_sub_mod_noop(x, q * y, m);
    lemma_mul_mod_noop_general(q, v, m);
    lemma_mul_mod_noop_general(q, y, m);
}

/// The inverse of `a` modulo `m`, when there is one, by the extended
/// Euclidean algorithm with the coefficients kept reduced modulo `m`.
pub fn mod_inv(a: i32, m: i32) -> (r: Option<i32>)
    requires
        0 < a < m,
    ensures
        match r {
            Some(x) => 0 <= x < m && (a * x) % (m as int) == 1,
            None => !invertible(a as int, m as int) && exists|g: int|
                g > 1 && divides(g, a as int) && divides(g, m as int),
        },
{
    let mm = m as i64;
    // (u, v) walks the remainder sequence; (s, t) are their coefficients of `a`.
    let mut u: i64 = mm;
    let mut v: i64 = a as i64;
    let mut s: i64 = 0;
    let mut t: i64 = 1;
    proof {
        lemma_small_mod_int(a as int, m as int);
        lemma_small_mod_int(0, m as int);
    }
    while v != 0
        invariant
            0 < a < m,
            mm == m,
            0 <= v < u <= mm || (v == 0 && 0 < u <= mm),
            0 <= s < mm,
            0 <= t < mm,
            (u as int) % (mm as int) == (s * a) % (mm as int),
            (v as int) % (mm as int) == (t * a) % (mm as int),
            forall|d: int| #![trigger divides(d, u as int), divides(d, v as int)]
                d > 0 && divides(d, u as int) && divides(d, v as int) ==> divides(d, a as int)
                    && divides(d, m as int),
        decreases v,
    {
        let q = u / v;
        let rem = u % v;
        proof {
            lemma_fundamental_div_mod(u as int, v as int);
            assert(0 <= q <= u) by (nonlinear_arith)
                requires
                    u == v * q + rem,
                    0 <= rem < v,
                    u >= 0,
            ;
            assert(0 <= q * t <= mm * mm) by (nonlinear_arith)
                requires
                    0 <= q <= mm,
                    0 <= t < mm,
            ;
            assert(mm * mm <= 0x7fff_ffff * 0x7fff_ffff) by (nonlinear_arith)
                requires
                    0 < mm <= 0x7fff_ffff,
            ;
        }
        let qt = (q * t) % mm;
        let mut nt = s - qt;
        if nt < 0 {
            nt = nt + mm;
        }
        proof {
            lemma_fundamental_div_mod(u as int, v as int);
            assert forall|d: int|
                d > 0 && divides(d, v as int) && divides(d, rem as int) implies divides(
                d,
                a as int,
            ) && divides(d, m as int) by {
                lemma_divides_combination(d, q as int, v as int, rem as int);
                assert(divides(d, u as int));
            }
            // rem == u - q * v == (s - q * t) * a == nt * a (mod m)
            lemma_congruent_step(u as int, v as int, s * a, t * a, q as int, mm as int);
            assert(s * a - q * (t * a) == (s - q * t) * a) by (nonlinear_arith);
            vstd::arithmetic::div_mod::lemma_sub_mod_noop_right(s as int, q * t, mm as int);
            if s - qt < 0 {
                lemma_mod_sub_once(nt as int, mm as int);
            }
            lemma_mul_mod_noop_general(s - q * t, a as int, mm as int);
            lemma_mul_mod_noop_general(nt as int, a as int, mm as int);
        }
        u = v;
        v = rem;
        s = t;
        t = nt;
    }
    if u == 1 {
        proof {
            lemma_small_mod_int(1, m as int);
            assert(a * s == s * a);
        }
        Some(s as i32)
    } else {
        proof {
            assert(divides(u as int, u as int));
            assert(divides(u as int, 0));
            assert(divides(u as int, a as int) && divides(u as int, m as int));
            lemma_common_factor_not_invertible(u as int, a as int, m as int);
        }
        None
    }
}

} // verus!
