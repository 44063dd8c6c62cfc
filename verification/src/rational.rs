//! Exact rational numbers in canonical form (lowest terms, positive
//! denominator). These are the exponents of the dimensional type algebra:
//! exact structural equality of canonical forms is what makes dimension
//! equality decidable, with no numeric tolerance.

use vstd::prelude::*;
use vstd::arithmetic::div_mod::{
    lemma_div_multiples_vanish, lemma_fundamental_div_mod, lemma_truncate_middle,
};

verus! {

/// Absolute value of an integer, as a natural number.
pub open spec fn nat_abs(x: int) -> nat {
    if x < 0 {
        (-x) as nat
    } else {
        x as nat
    }
}

/// Greatest common divisor, by the Euclidean recursion. `gcd(a, 0) == a`.
pub open spec fn gcd(a: nat, b: nat) -> nat
    decreases b,
{
    if b == 0 {
        a
    } else {
        gcd(b, a % b)
    }
}

/// `d` divides `a`.
pub open spec fn divides(d: int, a: int) -> bool {
    exists|k: int| a == #[trigger] (k * d)
}

proof fn lemma_divides_witness(d: int, k: int)
    ensures
        divides(d, k * d),
{
    assert(k * d == k * d);
}

/// The gcd divides both of its arguments.
proof fn lemma_gcd_divides(a: nat, b: nat)
    ensures
        divides(gcd(a, b) as int, a as int),
        divides(gcd(a, b) as int, b as int),
    decreases b,
{
    if b == 0 {
        lemma_divides_witness(a as int, 1);
        lemma_divides_witness(a as int, 0);
    } else {
        lemma_gcd_divides(b, a % b);
        let g = gcd(b, a % b) as int;
        let k1 = choose|k: int| b as int == #[trigger] (k * g);
        let k2 = choose|k: int| (a % b) as int == #[trigger] (k * g);
        lemma_fundamental_div_mod(a as int, b as int);
        let q = a as int / b as int;
        assert(a as int == (k1 * q + k2) * g) by (nonlinear_arith)
            requires
                b as int == k1 * g,
                (a % b) as int == k2 * g,
                a as int == (b as int) * q + (a % b) as int,
        ;
        lemma_divides_witness(g, k1 * q + k2);
    }
}

/// The gcd is positive as soon as one argument is.
proof fn lemma_gcd_pos(a: nat, b: nat)
    requires
        a > 0 || b > 0,
    ensures
        gcd(a, b) > 0,
    decreases b,
{
    if b == 0 {
    } else {
        lemma_gcd_pos(b, a % b);
    }
}

/// Every common divisor of `a` and `b` divides their gcd.
proof fn lemma_divides_gcd(d: int, a: nat, b: nat)
    requires
        divides(d, a as int),
        divides(d, b as int),
    ensures
        divides(d, gcd(a, b) as int),
    decreases b,
{
    if b == 0 {
    } else {
        let k1 = choose|k: int| a as int == #[trigger] (k * d);
        let k2 = choose|k: int| b as int == #[trigger] (k * d);
        lemma_fundamental_div_mod(a as int, b as int);
        let q = a as int / b as int;
        assert((a % b) as int == (k1 - q * k2) * d) by (nonlinear_arith)
            requires
                a as int == k1 * d,
                b as int == k2 * d,
                a as int == (b as int) * q + (a % b) as int,
        ;
        lemma_divides_witness(d, k1 - q * k2);
        lemma_divides_gcd(d, b, a % b);
    }
}

/// A positive divisor of a positive number is no larger than it.
proof fn lemma_divides_le(d: int, a: int)
    requires
        divides(d, a),
        a > 0,
        d > 0,
    ensures
        d <= a,
{
    let k = choose|k: int| a == #[trigger] (k * d);
    assert(d <= a) by (nonlinear_arith)
        requires
            a == k * d,
            a > 0,
            d > 0,
    ;
}

/// Exact division: if `d` divides `a` then `a == (a / d) * d`.
proof fn lemma_div_exact(d: int, a: int)
    requires
        divides(d, a),
        d > 0,
    ensures
        a == (a / d) * d,
{
    let k = choose|k: int| a == #[trigger] (k * d);
    lemma_div_multiples_vanish(k, d);
    assert(d * k == k * d) by (nonlinear_arith);
    assert(a / d == k);
}

/// The gcd scales: `gcd(a * c, b * c) == gcd(a, b) * c`.
proof fn lemma_gcd_mul(a: nat, b: nat, c: nat)
    ensures
        gcd(a * c, b * c) == gcd(a, b) * c,
    decreases b,
{
    if b == 0 {
        assert(b * c == 0);
    } else if c == 0 {
        assert(a * c == 0 && b * c == 0);
    } else {
        broadcast use vstd::arithmetic::mul::lemma_mul_is_commutative;

        let ai = a as int;
        let bi = b as int;
        let ci = c as int;
        lemma_truncate_middle(ai, ci, bi);
        assert((a % b) as int == ai % bi);
        assert(((a % b) * c) as int == ci * (ai % bi));
        assert(((a * c) % (b * c)) as int == ((a * c) as int) % ((b * c) as int));
        assert((a * c) % (b * c) == (a % b) * c);
        lemma_gcd_mul(b, a % b, c);
        assert(b * c > 0) by (nonlinear_arith)
            requires
                b > 0,
                c > 0,
        ;
        assert(gcd(a * c, b * c) == gcd(b * c, (a * c) % (b * c)));
    }
}

/// Euclid's lemma, coprime form: if `gcd(a, b) == 1` and `b` divides
/// `a * c`, then `b` divides `c`.
proof fn lemma_coprime_divides(a: nat, b: nat, c: nat)
    requires
        gcd(a, b) == 1,
        b > 0,
        divides(b as int, (a * c) as int),
    ensures
        divides(b as int, c as int),
{
    assert((b * c) as int == (c as int) * (b as int)) by (nonlinear_arith);
    lemma_divides_witness(b as int, c as int);
    lemma_divides_gcd(b as int, a * c, b * c);
    lemma_gcd_mul(a, b, c);
    assert(gcd(a * c, b * c) == 1 * c);
    assert(1 * c == c);
}

/// Dividing two numbers by their gcd leaves them coprime.
proof fn lemma_gcd_div_coprime(a: nat, b: nat, ka: nat, kb: nat)
    requires
        b > 0,
        a == ka * gcd(a, b),
        b == kb * gcd(a, b),
    ensures
        gcd(ka, kb) == 1,
{
    let g = gcd(a, b);
    lemma_gcd_pos(a, b);
    assert(kb > 0) by (nonlinear_arith)
        requires
            b == kb * g,
            b > 0,
            g > 0,
    ;
    let g2 = gcd(ka, kb);
    lemma_gcd_pos(ka, kb);
    lemma_gcd_divides(ka, kb);
    let k3 = choose|k: int| ka as int == #[trigger] (k * (g2 as int));
    let k4 = choose|k: int| kb as int == #[trigger] (k * (g2 as int));
    assert(a as int == k3 * ((g2 * g) as int)) by (nonlinear_arith)
        requires
            a == ka * g,
            ka as int == k3 * (g2 as int),
    ;
    assert(b as int == k4 * ((g2 * g) as int)) by (nonlinear_arith)
        requires
            b == kb * g,
            kb as int == k4 * (g2 as int),
    ;
    lemma_divides_witness((g2 * g) as int, k3);
    lemma_divides_witness((g2 * g) as int, k4);
    lemma_divides_gcd((g2 * g) as int, a, b);
    assert((g2 * g) as int > 0) by (nonlinear_arith)
        requires
            g2 > 0,
            g > 0,
    ;
    lemma_divides_le((g2 * g) as int, g as int);
    assert(g2 == 1) by (nonlinear_arith)
        requires
            g2 * g <= g,
            g > 0,
            g2 > 0,
    ;
}

/// Canonical forms are unique: two reduced fractions with the same value
/// are componentwise equal.
pub proof fn lemma_canonical_unique(xn: int, xd: int, yn: int, yd: int)
    requires
        xd > 0,
        yd > 0,
        gcd(nat_abs(xn), xd as nat) == 1,
        gcd(nat_abs(yn), yd as nat) == 1,
        xn * yd == yn * xd,
    ensures
        xn == yn,
        xd == yd,
{
    let an = nat_abs(xn) as int;
    let bn = nat_abs(yn) as int;
    assert(an == if xn < 0 { -xn } else { xn });
    assert(bn == if yn < 0 { -yn } else { yn });
    assert(an * yd == bn * xd) by (nonlinear_arith)
        requires
            xn * yd == yn * xd,
            xd > 0,
            yd > 0,
            an == if xn < 0 { -xn } else { xn },
            bn == if yn < 0 { -yn } else { yn },
    ;
    assert((nat_abs(xn) * (yd as nat)) as int == bn * xd);
    lemma_divides_witness(xd, bn);
    lemma_coprime_divides(nat_abs(xn), xd as nat, yd as nat);
    assert((nat_abs(yn) * (xd as nat)) as int == an * yd);
    lemma_divides_witness(yd, an);
    lemma_coprime_divides(nat_abs(yn), yd as nat, xd as nat);
    lemma_divides_le(xd, yd);
    lemma_divides_le(yd, xd);
    assert(xd == yd);
    assert(xn == yn) by (nonlinear_arith)
        requires
            xn * yd == yn * xd,
            xd == yd,
            xd > 0,
    ;
}

/// Numerator of the canonical form of `n / d`, for `d > 0`.
pub open spec fn norm_num(n: int, d: int) -> int {
    n / (gcd(nat_abs(n), d as nat) as int)
}

/// Denominator of the canonical form of `n / d`, for `d > 0`.
pub open spec fn norm_den(n: int, d: int) -> int {
    d / (gcd(nat_abs(n), d as nat) as int)
}

/// Normalisation yields a reduced, value-equal fraction, no larger than
/// the input in either component.
pub proof fn lemma_norm(n: int, d: int)
    requires
        d > 0,
    ensures
        norm_den(n, d) > 0,
        norm_den(n, d) <= d,
        gcd(nat_abs(norm_num(n, d)), norm_den(n, d) as nat) == 1,
        norm_num(n, d) * d == n * norm_den(n, d),
        nat_abs(norm_num(n, d)) <= nat_abs(n),
        n == 0 ==> norm_num(n, d) == 0 && norm_den(n, d) == 1,
{
    let g = gcd(nat_abs(n), d as nat);
    lemma_gcd_pos(nat_abs(n), d as nat);
    lemma_gcd_divides(nat_abs(n), d as nat);
    let gi = g as int;
    // g divides |n|, hence g divides n.
    let ka = choose|k: int| nat_abs(n) as int == #[trigger] (k * gi);
    assert(ka >= 0) by (nonlinear_arith)
        requires
            nat_abs(n) as int == ka * gi,
            nat_abs(n) as int >= 0,
            gi > 0,
    ;
    let kn: int = if n < 0 {
        -ka
    } else {
        ka
    };
    assert(n == kn * gi) by (nonlinear_arith)
        requires
            nat_abs(n) as int == ka * gi,
            nat_abs(n) as int == if n < 0 { -n } else { n },
            kn == if n < 0 { -ka } else { ka },
    ;
    let kd = choose|k: int| d == #[trigger] (k * gi);
    lemma_div_exact(gi, n);
    lemma_div_exact(gi, d);
    lemma_div_multiples_vanish(kn, gi);
    lemma_div_multiples_vanish(kd, gi);
    assert(gi * kn == kn * gi) by (nonlinear_arith);
    assert(gi * kd == kd * gi) by (nonlinear_arith);
    assert(norm_num(n, d) == kn);
    assert(norm_den(n, d) == kd);
    assert(kd > 0) by (nonlinear_arith)
        requires
            d == kd * gi,
            d > 0,
            gi > 0,
    ;
    assert(kn * d == n * kd) by (nonlinear_arith)
        requires
            n == kn * gi,
            d == kd * gi,
    ;
    // |kn| * g == |n|, so gcd(|kn|, kd) == 1 by the coprimality lemma.
    assert(nat_abs(kn) == ka);
    assert(nat_abs(n) == nat_abs(kn) * g) by (nonlinear_arith)
        requires
            nat_abs(n) as int == ka * gi,
            nat_abs(kn) == ka,
            gi == g as int,
    ;
    assert(d as nat == (kd as nat) * g) by (nonlinear_arith)
        requires
            d == kd * gi,
            kd > 0,
            gi == g as int,
    ;
    lemma_gcd_div_coprime(nat_abs(n), d as nat, nat_abs(kn), kd as nat);
    assert(nat_abs(kn) <= nat_abs(n)) by (nonlinear_arith)
        requires
            nat_abs(n) == nat_abs(kn) * g,
            g > 0,
    ;
    if n == 0 {
        assert(nat_abs(0int) == 0);
        assert(ka * gi == 0);
        assert(ka == 0) by (nonlinear_arith)
            requires
                ka * gi == 0,
                gi > 0,
                ka >= 0,
        ;
        assert(gcd(0, d as nat) == gcd(d as nat, 0)) by {
            assert(0nat % (d as nat) == 0);
        }
        assert(g == d);
        assert(kd == 1) by (nonlinear_arith)
            requires
                d == kd * gi,
                gi == d,
                d > 0,
        ;
    }
}

/// An exact rational number. Well-formed values are canonical: positive
/// denominator, numerator and denominator coprime, and the numerator
/// strictly above `i64::MIN` so that negation never overflows.
#[derive(Debug, Clone, Copy, PartialEq, Eq, Structural)]
pub struct Rational {
    pub num: i64,
    pub den: i64,
}

impl Rational {
    /// Canonical form: lowest terms, positive denominator.
    pub open spec fn wf(self) -> bool {
        &&& self.den > 0
        &&& self.num > i64::MIN
        &&& gcd(nat_abs(self.num as int), self.den as nat) == 1
    }

    pub open spec fn spec_zero() -> Rational {
        Rational { num: 0, den: 1 }
    }

    pub open spec fn spec_one() -> Rational {
        Rational { num: 1, den: 1 }
    }

    /// The rational zero.
    pub fn zero() -> (r: Rational)
        ensures
            r == Self::spec_zero(),
            r.wf(),
    {
        proof {
            lemma_zero_one_wf();
        }
        Rational { num: 0, den: 1 }
    }

    /// The rational one.
    pub fn one() -> (r: Rational)
        ensures
            r == Self::spec_one(),
            r.wf(),
    {
        proof {
            lemma_zero_one_wf();
        }
        Rational { num: 1, den: 1 }
    }

    /// The canonical form of `n / d`, or `None` when its components do
    /// not fit the machine representation.
    pub open spec fn spec_reduce(n: int, d: int) -> Option<Rational> {
        let n1 = if d < 0 {
            -n
        } else {
            n
        };
        let d1 = if d < 0 {
            -d
        } else {
            d
        };
        let n2 = norm_num(n1, d1);
        let d2 = norm_den(n1, d1);
        if -i64::MAX <= n2 <= i64::MAX && d2 <= i64::MAX {
            Some(Rational { num: n2 as i64, den: d2 as i64 })
        } else {
            None
        }
    }

    /// Canonical sum, `None` on machine overflow of the reduced result.
    pub open spec fn spec_add(self, other: Rational) -> Option<Rational> {
        Self::spec_reduce(
            self.num * other.den + other.num * self.den,
            self.den * other.den,
        )
    }

    /// Canonical difference, `None` on machine overflow of the reduced result.
    pub open spec fn spec_sub(self, other: Rational) -> Option<Rational> {
        Self::spec_reduce(
            self.num * other.den - other.num * self.den,
            self.den * other.den,
        )
    }

    /// Canonical product, `None` on machine overflow of the reduced result.
    pub open spec fn spec_mul(self, other: Rational) -> Option<Rational> {
        Self::spec_reduce(self.num * other.num, self.den * other.den)
    }

    /// Negation; total on well-formed values.
    pub open spec fn spec_neg(self) -> Rational {
        Rational { num: (-(self.num as int)) as i64, den: self.den }
    }

    /// Canonical quotient, `None` on machine overflow of the reduced
    /// result; meaningful only for a nonzero divisor.
    pub open spec fn spec_div(self, other: Rational) -> Option<Rational> {
        Self::spec_reduce(self.num * other.den, self.den * other.num)
    }

    /// The rational `n / 1`.
    pub fn from_int(n: i64) -> (r: Rational)
        requires
            n > i64::MIN,
        ensures
            r.wf(),
            r.num == n,
            r.den == 1,
    {
        proof {
            assert(nat_abs(n as int) % 1nat == 0);
            assert(gcd(nat_abs(n as int), 1nat) == gcd(1nat, 0nat));
        }
        Rational { num: n, den: 1 }
    }

    /// Divide.
    pub fn div(&self, other: &Rational) -> (r: Option<Rational>)
        requires
            self.wf(),
            other.wf(),
            other.num != 0,
        ensures
            r == self.spec_div(*other),
    {
        proof {
            lemma_i64_prod_bound(self.num as int, other.den as int);
            lemma_i64_prod_bound(self.den as int, other.num as int);
            assert(self.den * other.num != 0) by (nonlinear_arith)
                requires
                    self.den > 0,
                    other.num != 0,
            ;
        }
        let n: i128 = (self.num as i128) * (other.den as i128);
        let d: i128 = (self.den as i128) * (other.num as i128);
        reduce(n, d)
    }

    /// Whether this rational is zero.
    pub fn is_zero(&self) -> (r: bool)
        ensures
            r == (self.num == 0),
    {
        self.num == 0
    }

    /// Negate. Dimension inversion negates every exponent.
    pub fn neg(&self) -> (r: Rational)
        requires
            self.wf(),
        ensures
            r == self.spec_neg(),
            r.wf(),
            r.num as int == -(self.num as int),
            r.den == self.den,
    {
        proof {
            assert(nat_abs(-(self.num as int)) == nat_abs(self.num as int));
        }
        Rational { num: -self.num, den: self.den }
    }

    /// Add.
    pub fn add(&self, other: &Rational) -> (r: Option<Rational>)
        requires
            self.wf(),
            other.wf(),
        ensures
            r == self.spec_add(*other),
    {
        proof {
            lemma_i64_prod_bound(self.num as int, other.den as int);
            lemma_i64_prod_bound(other.num as int, self.den as int);
            lemma_i64_prod_bound(self.den as int, other.den as int);
        }
        let n: i128 = (self.num as i128) * (other.den as i128)
            + (other.num as i128) * (self.den as i128);
        let d: i128 = (self.den as i128) * (other.den as i128);
        reduce(n, d)
    }

    /// Subtract.
    pub fn sub(&self, other: &Rational) -> (r: Option<Rational>)
        requires
            self.wf(),
            other.wf(),
        ensures
            r == self.spec_sub(*other),
    {
        proof {
            lemma_i64_prod_bound(self.num as int, other.den as int);
            lemma_i64_prod_bound(other.num as int, self.den as int);
            lemma_i64_prod_bound(self.den as int, other.den as int);
        }
        let n: i128 = (self.num as i128) * (other.den as i128)
            - (other.num as i128) * (self.den as i128);
        let d: i128 = (self.den as i128) * (other.den as i128);
        reduce(n, d)
    }

    /// Multiply.
    pub fn mul(&self, other: &Rational) -> (r: Option<Rational>)
        requires
            self.wf(),
            other.wf(),
        ensures
            r == self.spec_mul(*other),
    {
        proof {
            lemma_i64_prod_bound(self.num as int, other.num as int);
            lemma_i64_prod_bound(self.den as int, other.den as int);
        }
        let n: i128 = (self.num as i128) * (other.num as i128);
        let d: i128 = (self.den as i128) * (other.den as i128);
        reduce(n, d)
    }
}

/// Bound on a product of two values in the symmetric `i64` range: it fits
/// comfortably inside an `i128`.
proof fn lemma_i64_prod_bound(a: int, b: int)
    requires
        -0x7fff_ffff_ffff_ffff <= a <= 0x7fff_ffff_ffff_ffff,
        -0x7fff_ffff_ffff_ffff <= b <= 0x7fff_ffff_ffff_ffff,
    ensures
        -(0x7fff_ffff_ffff_ffff * 0x7fff_ffff_ffff_ffff) <= a * b <= 0x7fff_ffff_ffff_ffff
            * 0x7fff_ffff_ffff_ffff,
        a >= 1 && b >= 1 ==> a * b >= 1,
{
    let m: int = 0x7fff_ffff_ffff_ffff;
    assert(-(m * m) <= a * b <= m * m) by (nonlinear_arith)
        requires
            -m <= a <= m,
            -m <= b <= m,
    ;
    if a >= 1 && b >= 1 {
        assert(a * b >= 1) by (nonlinear_arith)
            requires
                a >= 1,
                b >= 1,
        ;
    }
}

pub proof fn lemma_zero_one_wf()
    ensures
        Rational::spec_zero().wf(),
        Rational::spec_one().wf(),
{
    assert(gcd(nat_abs(0int), 1nat) == gcd(1nat, 0nat)) by {
        assert(0nat % 1nat == 0);
    }
    assert(gcd(nat_abs(1int), 1nat) == gcd(1nat, 0nat)) by {
        assert(1nat % 1nat == 0);
    }
}

/// Euclid's algorithm, iteratively.
fn gcd_exec(a: u128, b: u128) -> (r: u128)
    ensures
        r == gcd(a as nat, b as nat),
{
    let mut x: u128 = a;
    let mut y: u128 = b;
    while y != 0
        invariant
            gcd(x as nat, y as nat) == gcd(a as nat, b as nat),
        decreases y,
    {
        let t: u128 = x % y;
        x = y;
        y = t;
    }
    x
}

/// Reduce `n / d` to canonical form, or report that the reduced
/// components do not fit in an `i64`.
pub fn reduce(n: i128, d: i128) -> (r: Option<Rational>)
    requires
        d != 0,
        n > i128::MIN,
        d > i128::MIN,
    ensures
        r == Rational::spec_reduce(n as int, d as int),
        r is Some ==> r->Some_0.wf(),
        r is Some ==> (r->Some_0.num as int) * (d as int) == (n as int) * (r->Some_0.den as int),
{
    let (n1, d1): (i128, i128) = if d < 0 {
        (-n, -d)
    } else {
        (n, d)
    };
    let mag: u128 = if n1 < 0 {
        (-n1) as u128
    } else {
        n1 as u128
    };
    proof {
        assert(mag as nat == nat_abs(n1 as int));
    }
    let g: u128 = gcd_exec(mag, d1 as u128);
    proof {
        lemma_gcd_pos(mag as nat, d1 as nat);
        lemma_gcd_divides(mag as nat, d1 as nat);
        lemma_div_exact(g as int, mag as int);
        lemma_div_exact(g as int, d1 as int);
    }
    let mag2: u128 = mag / g;
    let d2: u128 = (d1 as u128) / g;
    proof {
        // Euclidean division of the signed value agrees with the unsigned
        // division of the magnitude, because the division is exact.
        let gi = g as int;
        let km = mag as int / gi;
        let kd = d1 as int / gi;
        if n1 < 0 {
            assert((n1 as int) == (-km) * gi) by (nonlinear_arith)
                requires
                    mag as int == km * gi,
                    n1 as int == -(mag as int),
            ;
            lemma_div_multiples_vanish(-km, gi);
            assert(gi * (-km) == (-km) * gi) by (nonlinear_arith);
            assert(norm_num(n1 as int, d1 as int) == -km);
        } else {
            assert(norm_num(n1 as int, d1 as int) == km);
        }
        assert(norm_den(n1 as int, d1 as int) == kd);
        lemma_norm(n1 as int, d1 as int);
    }
    if mag2 <= (i64::MAX as u128) && d2 <= (i64::MAX as u128) {
        let num: i64 = if n1 < 0 {
            -(mag2 as i64)
        } else {
            mag2 as i64
        };
        let den: i64 = d2 as i64;
        proof {
            let res = Rational { num, den };
            assert(res.num as int == norm_num(n1 as int, d1 as int));
            assert(res.den as int == norm_den(n1 as int, d1 as int));
            assert(nat_abs(res.num as int) == mag2 as nat);
            assert((res.num as int) * (d as int) == (n as int) * (res.den as int))
                by (nonlinear_arith)
                requires
                    (res.num as int) * (d1 as int) == (n1 as int) * (res.den as int),
                    (n1 as int == if d < 0 { -(n as int) } else { n as int }),
                    (d1 as int == if d < 0 { -(d as int) } else { d as int }),
            ;
        }
        Some(Rational { num, den })
    } else {
        None
    }
}

/// Well-formedness and value of a successful reduction, stated of the
/// specification function so that proofs can reuse it.
pub proof fn lemma_reduce_props(n: int, d: int)
    requires
        d != 0,
    ensures
        Rational::spec_reduce(n, d) is Some ==> {
            let r = Rational::spec_reduce(n, d)->Some_0;
            &&& r.wf()
            &&& r.num * d == n * r.den
        },
{
    let n1 = if d < 0 {
        -n
    } else {
        n
    };
    let d1 = if d < 0 {
        -d
    } else {
        d
    };
    lemma_norm(n1, d1);
    if Rational::spec_reduce(n, d) is Some {
        let r = Rational::spec_reduce(n, d)->Some_0;
        assert(r.num * d == n * r.den) by (nonlinear_arith)
            requires
                (r.num as int) * d1 == n1 * (r.den as int),
                n1 == if d < 0 { -n } else { n },
                d1 == if d < 0 { -d } else { d },
        ;
    }
}

/// Reduction is determined by the value: any well-formed rational equal in
/// value to `n / d` is exactly what reduction returns.
pub proof fn lemma_reduce_value_unique(n: int, d: int, x: Rational)
    requires
        d > 0,
        x.wf(),
        x.num * d == n * x.den,
    ensures
        Rational::spec_reduce(n, d) == Some(x),
{
    lemma_norm(n, d);
    let n2 = norm_num(n, d);
    let d2 = norm_den(n, d);
    assert(x.num * d2 == n2 * x.den) by (nonlinear_arith)
        requires
            x.num * d == n * x.den,
            n2 * d == n * d2,
            d > 0,
            d2 > 0,
            x.den > 0,
    ;
    lemma_canonical_unique(x.num as int, x.den as int, n2, d2);
}

/// A well-formed rational reduces to itself.
pub proof fn lemma_reduce_canonical(x: Rational)
    requires
        x.wf(),
    ensures
        Rational::spec_reduce(x.num as int, x.den as int) == Some(x),
{
    lemma_reduce_value_unique(x.num as int, x.den as int, x);
}

/// Adding and then subtracting the same rational returns the original:
/// the group-inverse law at the exponent level.
pub proof fn lemma_add_sub_roundtrip(x: Rational, y: Rational)
    requires
        x.wf(),
        y.wf(),
        x.spec_add(y) is Some,
    ensures
        x.spec_add(y)->Some_0.spec_sub(y) == Some(x),
{
    let z = x.spec_add(y)->Some_0;
    assert(x.den * y.den > 0) by (nonlinear_arith)
        requires
            x.den > 0,
            y.den > 0,
    ;
    lemma_reduce_props(x.num * y.den + y.num * x.den, x.den * y.den);
    assert((z.num * y.den - y.num * z.den) * (x.den as int) == (x.num as int) * (z.den
        * y.den)) by (nonlinear_arith)
        requires
            z.num * (x.den * y.den) == (x.num * y.den + y.num * x.den) * z.den,
            x.den > 0,
            y.den > 0,
            z.den > 0,
    ;
    assert(z.den * y.den > 0) by (nonlinear_arith)
        requires
            z.den > 0,
            y.den > 0,
    ;
    lemma_reduce_value_unique(z.num * y.den - y.num * z.den, z.den * y.den, x);
}

} // verus!
