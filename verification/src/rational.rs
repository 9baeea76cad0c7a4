//! Exact rational and complex-rational arithmetic.
//!
//! Impedance values are complex numbers whose real and imaginary parts are
//! rationals with `i64` numerator and positive `i64` denominator. Results of
//! arithmetic are brought to lowest terms; an operation whose reduced result
//! does not fit the machine representation reports that, rather than silently
//! losing precision.

use vstd::prelude::*;

verus! {

use vstd::arithmetic::div_mod::lemma_fundamental_div_mod;
use vstd::arithmetic::div_mod::lemma_mod_multiples_vanish;
use vstd::arithmetic::div_mod::lemma_mod_self_0;
use vstd::arithmetic::div_mod::lemma_small_mod;
use vstd::arithmetic::div_mod::lemma_div_multiples_vanish;
use vstd::arithmetic::mul::lemma_mul_is_associative;
use vstd::arithmetic::mul::lemma_mul_is_commutative;
use vstd::arithmetic::mul::lemma_mul_strictly_positive;

/// Mathematical model of a rational number: an unbounded numerator and
/// denominator. A `Rat` denotes `n / d`; it is meaningful when `d > 0`.
pub struct Rat {
    pub n: int,
    pub d: int,
}

/// A model rational is well formed when its denominator is positive.
pub open spec fn rat_wf(a: Rat) -> bool {
    a.d > 0
}

/// Two model rationals denote the same number (cross multiplication).
pub open spec fn rat_eq(a: Rat, b: Rat) -> bool {
    a.n * b.d == b.n * a.d
}

/// Exact sum of two model rationals.
pub open spec fn rat_add(a: Rat, b: Rat) -> Rat {
    Rat { n: a.n * b.d + b.n * a.d, d: a.d * b.d }
}

/// Exact product of two model rationals.
pub open spec fn rat_mul(a: Rat, b: Rat) -> Rat {
    Rat { n: a.n * b.n, d: a.d * b.d }
}

/// Exact negation of a model rational.
pub open spec fn rat_neg(a: Rat) -> Rat {
    Rat { n: -a.n, d: a.d }
}

/// Exact reciprocal of a model rational, with the sign kept in the
/// numerator. Meaningful when `a.n != 0`.
pub open spec fn rat_inv(a: Rat) -> Rat {
    if a.n < 0 {
        Rat { n: -a.d, d: -a.n }
    } else {
        Rat { n: a.d, d: a.n }
    }
}

/// The model rational denotes zero.
pub open spec fn rat_is_zero(a: Rat) -> bool {
    a.n == 0
}

/// The model rational is `>= 0` (assuming `rat_wf`).
pub open spec fn rat_nonneg(a: Rat) -> bool {
    a.n >= 0
}

/// The model rational is `> 0` (assuming `rat_wf`).
pub open spec fn rat_is_pos(a: Rat) -> bool {
    a.n > 0
}

/// `a < b` for model rationals (assuming both are well formed).
pub open spec fn rat_lt(a: Rat, b: Rat) -> bool {
    a.n * b.d < b.n * a.d
}

/// Absolute value of a model rational.
pub open spec fn rat_abs(a: Rat) -> Rat {
    if a.n < 0 {
        rat_neg(a)
    } else {
        a
    }
}

/// Absolute value of an integer, as a natural number.
pub open spec fn nat_abs(n: int) -> nat {
    if n < 0 {
        (-n) as nat
    } else {
        n as nat
    }
}

/// Greatest common divisor, by Euclid's algorithm.
pub open spec fn gcd_nat(a: nat, b: nat) -> nat
    decreases b,
{
    if b == 0 {
        a
    } else {
        gcd_nat(b, a % b)
    }
}

/// A rational brought to lowest terms: numerator and denominator divided by
/// their greatest common divisor. Meaningful when `rat_wf(x)`.
pub open spec fn rat_reduced(x: Rat) -> Rat {
    let g = gcd_nat(nat_abs(x.n), x.d as nat) as int;
    Rat { n: x.n / g, d: x.d / g }
}

/// Whether the lowest-terms form of `x` fits the machine representation
/// (`i64` numerator above `i64::MIN`, `i64` denominator).
pub open spec fn reduced_fits(x: Rat) -> bool {
    let r = rat_reduced(x);
    -0x7fff_ffff_ffff_ffff <= r.n <= 0x7fff_ffff_ffff_ffff && r.d <= 0x7fff_ffff_ffff_ffff
}

/// Sum of two model rationals, in lowest terms.
pub open spec fn rat_add_r(a: Rat, b: Rat) -> Rat {
    rat_reduced(rat_add(a, b))
}

/// Product of two model rationals, in lowest terms.
pub open spec fn rat_mul_r(a: Rat, b: Rat) -> Rat {
    rat_reduced(rat_mul(a, b))
}

/// Euclid's algorithm yields a positive common divisor of both arguments.
pub proof fn lemma_gcd_divides(a: nat, b: nat)
    requires
        a > 0 || b > 0,
    ensures
        gcd_nat(a, b) >= 1,
        a % gcd_nat(a, b) == 0,
        b % gcd_nat(a, b) == 0,
    decreases b,
{
    let g = gcd_nat(a, b);
    if b == 0 {
        lemma_mod_self_0(a as int);
        assert(0int % (a as int) == 0) by {
            lemma_small_mod(0, a);
        };
    } else {
        lemma_gcd_divides(b, a % b);
        // g >= 1, b % g == 0, (a % b) % g == 0
        lemma_fundamental_div_mod(a as int, b as int);
        lemma_fundamental_div_mod(b as int, g as int);
        // b == g * (b / g), so b * (a / b) == g * ((b / g) * (a / b))
        let k = (b as int) / (g as int);
        let q = (a as int) / (b as int);
        assert((b as int) * q == (g as int) * (k * q)) by {
            lemma_mul_is_associative(g as int, k, q);
        };
        assert(a as int == (g as int) * (k * q) + (a as int % b as int));
        lemma_mod_multiples_vanish(k * q, a as int % b as int, g as int);
    }
}

/// Exact greatest common divisor of two machine integers.
fn gcd_u128(a: u128, b: u128) -> (g: u128)
    requires
        a > 0 || b > 0,
    ensures
        g as nat == gcd_nat(a as nat, b as nat),
        g >= 1,
    decreases b,
{
    if b == 0 {
        a
    } else {
        gcd_u128(b, a % b)
    }
}

/// Dividing numerator and denominator by a common divisor keeps the value
/// and the sign of the numerator.
pub proof fn lemma_rat_reduced_eq(x: Rat)
    requires
        rat_wf(x),
    ensures
        rat_wf(rat_reduced(x)),
        rat_eq(rat_reduced(x), x),
        rat_reduced(x).n >= 0 <==> x.n >= 0,
        rat_reduced(x).n == 0 <==> x.n == 0,
{
    let g = gcd_nat(nat_abs(x.n), x.d as nat) as int;
    lemma_gcd_divides(nat_abs(x.n), x.d as nat);
    // x.d == g * (x.d / g) and nat_abs(x.n) == g * (nat_abs(x.n) / g)
    lemma_fundamental_div_mod(x.d, g);
    lemma_fundamental_div_mod(nat_abs(x.n) as int, g);
    let kd = x.d / g;
    let km = nat_abs(x.n) as int / g;
    assert(x.d == g * kd);
    assert(nat_abs(x.n) as int == g * km);
    // the signed numerator divides the same way
    let kn = x.n / g;
    if x.n < 0 {
        assert(x.n == g * (-km)) by {
            vstd::arithmetic::mul::lemma_mul_unary_negation(g, km);
        };
        assert(kn == -km) by {
            lemma_div_multiples_vanish(-km, g);
        };
    } else {
        assert(kn == km) by {
            lemma_div_multiples_vanish(km, g);
        };
    }
    assert(x.n == g * kn);
    // positive reduced denominator
    assert(kd > 0) by {
        if x.d < g {
            lemma_small_mod(x.d as nat, g as nat);
        }
        vstd::arithmetic::div_mod::lemma_div_non_zero(x.d, g);
        lemma_div_multiples_vanish(kd, g);
    };
    assert((x.n >= 0 <==> kn >= 0) && (x.n == 0 <==> kn == 0)) by (nonlinear_arith)
        requires
            x.n == g * kn,
            g >= 1,
    ;
    // value preserved: kn * x.d == x.n * kd
    assert(kn * (g * kd) == (g * kn) * kd) by {
        lemma_mul_is_associative(kn, g, kd);
        lemma_mul_is_associative(g, kn, kd);
        lemma_mul_is_commutative(kn, g);
    };
}

/// The product of two integers in `i64` range stays well inside `i128`
/// range.
pub proof fn lemma_prod_fits(a: int, b: int)
    requires
        -0x7fff_ffff_ffff_ffff <= a <= 0x7fff_ffff_ffff_ffff,
        -0x8000_0000_0000_0000 <= b <= 0x7fff_ffff_ffff_ffff,
    ensures
        -0x3fff_ffff_ffff_ffff_8000_0000_0000_0000 <= a * b
            <= 0x3fff_ffff_ffff_ffff_8000_0000_0000_0000,
{
    assert(-0x3fff_ffff_ffff_ffff_8000_0000_0000_0000 <= a * b
        <= 0x3fff_ffff_ffff_ffff_8000_0000_0000_0000) by (nonlinear_arith)
        requires
            -0x7fff_ffff_ffff_ffff <= a <= 0x7fff_ffff_ffff_ffff,
            -0x8000_0000_0000_0000 <= b <= 0x7fff_ffff_ffff_ffff,
    ;
}

/// `rat_eq` is transitive on well-formed rationals.
pub proof fn lemma_rat_eq_trans(a: Rat, b: Rat, c: Rat)
    requires
        rat_wf(a),
        rat_wf(b),
        rat_wf(c),
        rat_eq(a, b),
        rat_eq(b, c),
    ensures
        rat_eq(a, c),
{
    assert(rat_eq(a, c)) by (nonlinear_arith)
        requires
            a.d > 0,
            b.d > 0,
            c.d > 0,
            a.n * b.d == b.n * a.d,
            b.n * c.d == c.n * b.d,
    ;
}

/// Equal rationals have the same sign and the same zeroness.
pub proof fn lemma_rat_eq_sign(a: Rat, b: Rat)
    requires
        rat_wf(a),
        rat_wf(b),
        rat_eq(a, b),
    ensures
        rat_nonneg(a) <==> rat_nonneg(b),
        rat_is_zero(a) <==> rat_is_zero(b),
        rat_is_pos(a) <==> rat_is_pos(b),
{
    assert((a.n >= 0 <==> b.n >= 0) && (a.n == 0 <==> b.n == 0)) by (nonlinear_arith)
        requires
            a.d > 0,
            b.d > 0,
            a.n * b.d == b.n * a.d,
    ;
}

/// Addition respects `rat_eq`.
pub proof fn lemma_rat_add_congruence(a: Rat, b: Rat, a2: Rat, b2: Rat)
    requires
        rat_wf(a),
        rat_wf(b),
        rat_wf(a2),
        rat_wf(b2),
        rat_eq(a, a2),
        rat_eq(b, b2),
    ensures
        rat_wf(rat_add(a, b)),
        rat_eq(rat_add(a, b), rat_add(a2, b2)),
{
    lemma_mul_strictly_positive(a.d, b.d);
    assert((a.n * b.d) * (a2.d * b2.d) == (a.n * a2.d) * (b.d * b2.d)) by (nonlinear_arith);
    assert((a2.n * b2.d) * (a.d * b.d) == (a2.n * a.d) * (b.d * b2.d)) by (nonlinear_arith);
    assert((b.n * a.d) * (a2.d * b2.d) == (b.n * b2.d) * (a.d * a2.d)) by (nonlinear_arith);
    assert((b2.n * a2.d) * (a.d * b.d) == (b2.n * b.d) * (a.d * a2.d)) by (nonlinear_arith);
    vstd::arithmetic::mul::lemma_mul_is_distributive_add_other_way(
        a2.d * b2.d,
        a.n * b.d,
        b.n * a.d,
    );
    vstd::arithmetic::mul::lemma_mul_is_distributive_add_other_way(
        a.d * b.d,
        a2.n * b2.d,
        b2.n * a2.d,
    );
}

/// Multiplication respects `rat_eq`.
pub proof fn lemma_rat_mul_congruence(a: Rat, b: Rat, a2: Rat, b2: Rat)
    requires
        rat_wf(a),
        rat_wf(b),
        rat_wf(a2),
        rat_wf(b2),
        rat_eq(a, a2),
        rat_eq(b, b2),
    ensures
        rat_wf(rat_mul(a, b)),
        rat_eq(rat_mul(a, b), rat_mul(a2, b2)),
{
    lemma_mul_strictly_positive(a.d, b.d);
    assert((a.n * b.n) * (a2.d * b2.d) == (a2.n * b2.n) * (a.d * b.d)) by (nonlinear_arith)
        requires
            a.n * a2.d == a2.n * a.d,
            b.n * b2.d == b2.n * b.d,
    ;
}

/// The reciprocal of a well-formed non-zero rational is well formed, keeps
/// the sign, and respects `rat_eq`.
pub proof fn lemma_rat_inv(a: Rat)
    requires
        rat_wf(a),
        !rat_is_zero(a),
    ensures
        rat_wf(rat_inv(a)),
        !rat_is_zero(rat_inv(a)),
        rat_nonneg(rat_inv(a)) <==> rat_nonneg(a),
{
}

/// Negation respects `rat_eq`.
pub proof fn lemma_rat_neg_congruence(a: Rat, b: Rat)
    requires
        rat_eq(a, b),
    ensures
        rat_eq(rat_neg(a), rat_neg(b)),
{
    assert((-a.n) * b.d == (-b.n) * a.d) by (nonlinear_arith)
        requires
            a.n * b.d == b.n * a.d,
    ;
}

/// The reciprocal respects `rat_eq`.
pub proof fn lemma_rat_inv_congruence(a: Rat, b: Rat)
    requires
        rat_wf(a),
        rat_wf(b),
        !rat_is_zero(a),
        !rat_is_zero(b),
        rat_eq(a, b),
    ensures
        rat_eq(rat_inv(a), rat_inv(b)),
{
    lemma_rat_eq_sign(a, b);
    if a.n < 0 {
        assert((-a.d) * (-b.n) == (-b.d) * (-a.n)) by (nonlinear_arith)
            requires
                a.n * b.d == b.n * a.d,
        ;
    } else {
        assert(a.d * b.n == b.d * a.n) by (nonlinear_arith)
            requires
                a.n * b.d == b.n * a.d,
        ;
    }
}

/// The sum of two non-negative rationals is non-negative; the sum of a
/// positive and a non-negative one is positive.
pub proof fn lemma_rat_add_sign(a: Rat, b: Rat)
    requires
        rat_wf(a),
        rat_wf(b),
        rat_nonneg(a),
        rat_nonneg(b),
    ensures
        rat_wf(rat_add(a, b)),
        rat_nonneg(rat_add(a, b)),
        rat_is_pos(a) || rat_is_pos(b) ==> rat_is_pos(rat_add(a, b)),
{
    lemma_mul_strictly_positive(a.d, b.d);
    assert(a.n * b.d + b.n * a.d >= 0 && (a.n > 0 || b.n > 0 ==> a.n * b.d + b.n * a.d
        > 0)) by (nonlinear_arith)
        requires
            a.d > 0,
            b.d > 0,
            a.n >= 0,
            b.n >= 0,
    ;
}

/// An exact rational number: `num / den`.
///
/// Well-formed values (see [`Rational::wf`]) keep `den >= 1` and
/// `num > i64::MIN`, so negation and absolute value never overflow.
#[derive(Clone, Copy, Debug, PartialEq, Eq, Structural)]
pub struct Rational {
    pub num: i64,
    pub den: i64,
}

/// Normalizes an exact raw fraction `n_raw / d_raw` to lowest terms and
/// narrows it to the machine representation. `None` exactly when the
/// lowest-terms form does not fit.
pub(crate) fn rat_make(n_raw: i128, d_raw: i128) -> (r: Option<Rational>)
    requires
        1 <= d_raw,
        n_raw > i128::MIN,
    ensures
        r matches Some(v) ==> v.wf() && v@ == rat_reduced(Rat { n: n_raw as int, d: d_raw as int }),
        (r is Some) == reduced_fits(Rat { n: n_raw as int, d: d_raw as int }),
{
    let ghost x = Rat { n: n_raw as int, d: d_raw as int };
    let neg: bool = n_raw < 0;
    let mag: u128 = if neg {
        (-n_raw) as u128
    } else {
        n_raw as u128
    };
    let den: u128 = d_raw as u128;
    assert(mag as nat == nat_abs(x.n));
    let g: u128 = gcd_u128(mag, den);
    proof {
        lemma_gcd_divides(mag as nat, den as nat);
        lemma_rat_reduced_eq(x);
    }
    let mag_r: u128 = mag / g;
    let den_r: u128 = den / g;
    proof {
        // the reduced components computed on magnitudes agree with the model
        let gi = g as int;
        lemma_fundamental_div_mod(mag as int, gi);
        let km = mag as int / gi;
        assert(mag as int == gi * km);
        if neg {
            assert(x.n == gi * (-km)) by {
                vstd::arithmetic::mul::lemma_mul_unary_negation(gi, km);
            };
            assert(x.n / gi == -km) by {
                lemma_div_multiples_vanish(-km, gi);
            };
        }
        assert(rat_reduced(x).d == den_r as int);
        assert(nat_abs(rat_reduced(x).n) == mag_r as nat);
    }
    if mag_r <= 0x7fff_ffff_ffff_ffff && den_r <= 0x7fff_ffff_ffff_ffff {
        let num: i64 = if neg {
            -(mag_r as i64)
        } else {
            mag_r as i64
        };
        Some(Rational { num, den: den_r as i64 })
    } else {
        None
    }
}

impl View for Rational {
    type V = Rat;

    open spec fn view(&self) -> Rat {
        Rat { n: self.num as int, d: self.den as int }
    }
}

impl Rational {
    /// Machine representation invariant: positive denominator, and a
    /// numerator whose negation still fits.
    pub open spec fn wf(&self) -> bool {
        self.den >= 1 && self.num > i64::MIN
    }

    /// The rational `n / 1`.
    pub fn from_int(n: i64) -> (r: Rational)
        requires
            n > i64::MIN,
        ensures
            r.wf(),
            r@ == (Rat { n: n as int, d: 1 }),
    {
        Rational { num: n, den: 1 }
    }

    /// Whether this value is zero.
    pub fn is_zero(&self) -> (r: bool)
        requires
            self.wf(),
        ensures
            r == rat_is_zero(self@),
    {
        self.num == 0
    }

    /// Whether this value is `>= 0`.
    pub fn is_nonneg(&self) -> (r: bool)
        requires
            self.wf(),
        ensures
            r == rat_nonneg(self@),
    {
        self.num >= 0
    }

    /// Whether this value is `> 0`.
    pub fn is_pos(&self) -> (r: bool)
        requires
            self.wf(),
        ensures
            r == rat_is_pos(self@),
    {
        self.num > 0
    }

    /// Exact negation; total on well-formed values.
    pub fn neg(&self) -> (r: Rational)
        requires
            self.wf(),
        ensures
            r.wf(),
            r@ == rat_neg(self@),
    {
        Rational { num: -self.num, den: self.den }
    }

    /// Exact reciprocal; total on well-formed, non-zero values.
    pub fn inv(&self) -> (r: Rational)
        requires
            self.wf(),
            !rat_is_zero(self@),
        ensures
            r.wf(),
            r@ == rat_inv(self@),
    {
        if self.num < 0 {
            Rational { num: -self.den, den: -self.num }
        } else {
            Rational { num: self.den, den: self.num }
        }
    }

    /// Exact sum, in lowest terms. `None` exactly when the lowest-terms sum
    /// does not fit the machine representation.
    pub fn add(&self, other: &Rational) -> (r: Option<Rational>)
        requires
            self.wf(),
            other.wf(),
        ensures
            r matches Some(v) ==> v.wf() && v@ == rat_add_r(self@, other@),
            (r is Some) == reduced_fits(rat_add(self@, other@)),
    {
        proof {
            lemma_prod_fits(self.num as int, other.den as int);
            lemma_prod_fits(other.num as int, self.den as int);
            lemma_prod_fits(self.den as int, other.den as int);
            lemma_mul_strictly_positive(self.den as int, other.den as int);
        }
        let p1: i128 = (self.num as i128) * (other.den as i128);
        let p2: i128 = (other.num as i128) * (self.den as i128);
        let n_raw: i128 = p1 + p2;
        let d_raw: i128 = (self.den as i128) * (other.den as i128);
        rat_make(n_raw, d_raw)
    }

    /// Exact product, in lowest terms. `None` exactly when the lowest-terms
    /// product does not fit the machine representation.
    pub fn mul(&self, other: &Rational) -> (r: Option<Rational>)
        requires
            self.wf(),
            other.wf(),
        ensures
            r matches Some(v) ==> v.wf() && v@ == rat_mul_r(self@, other@),
            (r is Some) == reduced_fits(rat_mul(self@, other@)),
    {
        proof {
            lemma_prod_fits(self.num as int, other.num as int);
            lemma_prod_fits(self.den as int, other.den as int);
            lemma_mul_strictly_positive(self.den as int, other.den as int);
        }
        let n_raw: i128 = (self.num as i128) * (other.num as i128);
        let d_raw: i128 = (self.den as i128) * (other.den as i128);
        rat_make(n_raw, d_raw)
    }

    /// Exact equivalence test: `self` and `other` denote the same number.
    pub fn eqv(&self, other: &Rational) -> (r: bool)
        requires
            self.wf(),
            other.wf(),
        ensures
            r == rat_eq(self@, other@),
    {
        proof {
            lemma_prod_fits(self.num as int, other.den as int);
            lemma_prod_fits(other.num as int, self.den as int);
        }
        let left: i128 = (self.num as i128) * (other.den as i128);
        let right: i128 = (other.num as i128) * (self.den as i128);
        left == right
    }

    /// Exact order test: `self < other`.
    pub fn lt(&self, other: &Rational) -> (r: bool)
        requires
            self.wf(),
            other.wf(),
        ensures
            r == rat_lt(self@, other@),
    {
        proof {
            lemma_prod_fits(self.num as int, other.den as int);
            lemma_prod_fits(other.num as int, self.den as int);
        }
        let left: i128 = (self.num as i128) * (other.den as i128);
        let right: i128 = (other.num as i128) * (self.den as i128);
        left < right
    }
}

/// Mathematical model of a complex number with rational parts.
pub struct Cx {
    pub re: Rat,
    pub im: Rat,
}

/// Both parts are well formed.
pub open spec fn cx_wf(z: Cx) -> bool {
    rat_wf(z.re) && rat_wf(z.im)
}

/// Two model complex numbers denote the same number.
pub open spec fn cx_eq(a: Cx, b: Cx) -> bool {
    rat_eq(a.re, b.re) && rat_eq(a.im, b.im)
}

/// Exact complex sum.
pub open spec fn cx_add(a: Cx, b: Cx) -> Cx {
    Cx { re: rat_add(a.re, b.re), im: rat_add(a.im, b.im) }
}

/// The model complex number denotes zero.
pub open spec fn cx_is_zero(z: Cx) -> bool {
    rat_is_zero(z.re) && rat_is_zero(z.im)
}

/// Squared magnitude `re^2 + im^2`.
pub open spec fn cx_norm2(z: Cx) -> Rat {
    rat_add(rat_mul(z.re, z.re), rat_mul(z.im, z.im))
}

/// Exact complex reciprocal `conj(z) / |z|^2`. Meaningful when `z != 0`.
pub open spec fn cx_inv(z: Cx) -> Cx {
    Cx {
        re: rat_mul(z.re, rat_inv(cx_norm2(z))),
        im: rat_mul(rat_neg(z.im), rat_inv(cx_norm2(z))),
    }
}

/// Componentwise lowest-terms complex sum, as computed by `Complex::add`.
pub open spec fn cx_add_r(a: Cx, b: Cx) -> Cx {
    Cx { re: rat_add_r(a.re, b.re), im: rat_add_r(a.im, b.im) }
}

/// Whether `Complex::add` succeeds.
pub open spec fn cx_add_fits(a: Cx, b: Cx) -> bool {
    reduced_fits(rat_add(a.re, b.re)) && reduced_fits(rat_add(a.im, b.im))
}

/// The lowest-terms squared magnitude, as computed by `Complex::inv`.
pub open spec fn cx_inv_r_n2(z: Cx) -> Rat {
    rat_add_r(rat_mul_r(z.re, z.re), rat_mul_r(z.im, z.im))
}

/// The complex reciprocal as computed by `Complex::inv`, with each
/// intermediate result in lowest terms.
pub open spec fn cx_inv_r(z: Cx) -> Cx {
    let n2 = cx_inv_r_n2(z);
    Cx { re: rat_mul_r(z.re, rat_inv(n2)), im: rat_mul_r(rat_neg(z.im), rat_inv(n2)) }
}

/// Whether `Complex::inv` succeeds.
pub open spec fn cx_inv_fits(z: Cx) -> bool {
    let n2 = cx_inv_r_n2(z);
    &&& reduced_fits(rat_mul(z.re, z.re))
    &&& reduced_fits(rat_mul(z.im, z.im))
    &&& reduced_fits(rat_add(rat_mul_r(z.re, z.re), rat_mul_r(z.im, z.im)))
    &&& reduced_fits(rat_mul(z.re, rat_inv(n2)))
    &&& reduced_fits(rat_mul(rat_neg(z.im), rat_inv(n2)))
}

/// The squared magnitude of a non-zero complex number is positive.
pub proof fn lemma_cx_norm2_pos(z: Cx)
    requires
        cx_wf(z),
        !cx_is_zero(z),
    ensures
        rat_wf(cx_norm2(z)),
        rat_is_pos(cx_norm2(z)),
{
    lemma_mul_strictly_positive(z.re.d * z.re.d, z.im.d * z.im.d);
    lemma_mul_strictly_positive(z.re.d, z.re.d);
    lemma_mul_strictly_positive(z.im.d, z.im.d);
    assert((z.re.n * z.re.n) * (z.im.d * z.im.d) + (z.im.n * z.im.n) * (z.re.d * z.re.d)
        > 0) by (nonlinear_arith)
        requires
            z.re.d > 0,
            z.im.d > 0,
            z.re.n != 0 || z.im.n != 0,
    ;
}

/// Multiplying by a positive rational keeps the sign.
pub proof fn lemma_rat_mul_pos_sign(a: Rat, b: Rat)
    requires
        rat_wf(a),
        rat_wf(b),
        rat_is_pos(b),
    ensures
        rat_wf(rat_mul(a, b)),
        rat_nonneg(rat_mul(a, b)) <==> rat_nonneg(a),
        rat_is_zero(rat_mul(a, b)) <==> rat_is_zero(a),
{
    lemma_mul_strictly_positive(a.d, b.d);
    assert((a.n * b.n >= 0 <==> a.n >= 0) && (a.n * b.n == 0 <==> a.n == 0)) by (nonlinear_arith)
        requires
            b.n > 0,
    ;
}

/// The reciprocal of a non-zero complex number keeps the sign of the real
/// part, and is equivalent whichever equivalent representation it is
/// computed from.
pub proof fn lemma_cx_inv_r(z: Cx)
    requires
        cx_wf(z),
        !cx_is_zero(z),
    ensures
        cx_wf(cx_inv_r(z)),
        cx_wf(cx_inv(z)),
        cx_eq(cx_inv_r(z), cx_inv(z)),
        rat_wf(cx_inv_r_n2(z)),
        rat_is_pos(cx_inv_r_n2(z)),
        rat_nonneg(cx_inv(z).re) <==> rat_nonneg(z.re),
        rat_nonneg(cx_inv_r(z).re) <==> rat_nonneg(z.re),
        !cx_is_zero(cx_inv_r(z)),
        !cx_is_zero(cx_inv(z)),
{
    let n2 = cx_norm2(z);
    let n2r = cx_inv_r_n2(z);
    lemma_cx_norm2_pos(z);
    let mrr = rat_mul_r(z.re, z.re);
    let mii = rat_mul_r(z.im, z.im);
    // lowest-terms intermediates are equivalent to the exact ones
    lemma_rat_mul_congruence(z.re, z.re, z.re, z.re);
    lemma_rat_mul_congruence(z.im, z.im, z.im, z.im);
    lemma_rat_reduced_eq(rat_mul(z.re, z.re));
    lemma_rat_reduced_eq(rat_mul(z.im, z.im));
    lemma_rat_add_congruence(mrr, mii, rat_mul(z.re, z.re), rat_mul(z.im, z.im));
    lemma_rat_reduced_eq(rat_add(mrr, mii));
    lemma_rat_eq_trans(n2r, rat_add(mrr, mii), n2);
    lemma_rat_eq_sign(n2r, n2);
    // reciprocals of equivalent positives are equivalent
    lemma_rat_inv(n2);
    lemma_rat_inv(n2r);
    lemma_rat_inv_congruence(n2r, n2);
    assert(rat_wf(cx_inv(z).re)) by {
        lemma_mul_strictly_positive(z.re.d, rat_inv(n2).d);
    };
    assert(rat_wf(cx_inv(z).im)) by {
        lemma_mul_strictly_positive(rat_neg(z.im).d, rat_inv(n2).d);
    };
    // real part
    lemma_rat_mul_congruence(z.re, rat_inv(n2r), z.re, rat_inv(n2));
    lemma_rat_reduced_eq(rat_mul(z.re, rat_inv(n2r)));
    lemma_rat_eq_trans(cx_inv_r(z).re, rat_mul(z.re, rat_inv(n2r)), cx_inv(z).re);
    // imaginary part
    lemma_rat_mul_congruence(rat_neg(z.im), rat_inv(n2r), rat_neg(z.im), rat_inv(n2));
    lemma_rat_reduced_eq(rat_mul(rat_neg(z.im), rat_inv(n2r)));
    lemma_rat_eq_trans(cx_inv_r(z).im, rat_mul(rat_neg(z.im), rat_inv(n2r)), cx_inv(z).im);
    // sign of the real part
    lemma_rat_mul_pos_sign(z.re, rat_inv(n2));
    lemma_rat_mul_pos_sign(z.re, rat_inv(n2r));
    lemma_rat_reduced_eq(rat_mul(z.re, rat_inv(n2r)));
    // non-zeroness: if re(z) == 0 then im(z) != 0, so im(1/z) != 0
    lemma_rat_mul_pos_sign(rat_neg(z.im), rat_inv(n2));
    lemma_rat_mul_pos_sign(rat_neg(z.im), rat_inv(n2r));
    lemma_rat_reduced_eq(rat_mul(rat_neg(z.im), rat_inv(n2r)));
}

/// The model rational one.
pub open spec fn rat_one() -> Rat {
    Rat { n: 1, d: 1 }
}

/// Model rational multiplication is commutative, as values.
pub proof fn lemma_rat_mul_comm(a: Rat, b: Rat)
    ensures
        rat_mul(a, b) == rat_mul(b, a),
{
    lemma_mul_is_commutative(a.n, b.n);
    lemma_mul_is_commutative(a.d, b.d);
}

/// Model rational multiplication is associative, as values.
pub proof fn lemma_rat_mul_assoc(a: Rat, b: Rat, c: Rat)
    ensures
        rat_mul(a, rat_mul(b, c)) == rat_mul(rat_mul(a, b), c),
{
    lemma_mul_is_associative(a.n, b.n, c.n);
    lemma_mul_is_associative(a.d, b.d, c.d);
}

/// Multiplying by one changes nothing, structurally.
pub proof fn lemma_rat_mul_one_right(a: Rat)
    ensures
        rat_mul(a, rat_one()) == a,
        rat_mul(rat_one(), a) == a,
{
    vstd::arithmetic::mul::lemma_mul_basics(a.n);
    vstd::arithmetic::mul::lemma_mul_basics(a.d);
}

/// The reciprocal is an involution, structurally.
pub proof fn lemma_rat_inv_invol(a: Rat)
    requires
        rat_wf(a),
        !rat_is_zero(a),
    ensures
        rat_inv(rat_inv(a)) == a,
{
}

/// A non-zero rational times its reciprocal is one.
pub proof fn lemma_rat_mul_inv_one(a: Rat)
    requires
        rat_wf(a),
        !rat_is_zero(a),
    ensures
        rat_wf(rat_mul(a, rat_inv(a))),
        rat_eq(rat_mul(a, rat_inv(a)), rat_one()),
        rat_eq(rat_mul(rat_inv(a), a), rat_one()),
{
    lemma_rat_inv(a);
    lemma_mul_strictly_positive(a.d, rat_inv(a).d);
    if a.n < 0 {
        assert((a.n * (-a.d)) * 1 == 1 * (a.d * (-a.n))) by (nonlinear_arith);
        assert(((-a.d) * a.n) * 1 == 1 * ((-a.n) * a.d)) by (nonlinear_arith);
    } else {
        assert((a.n * a.d) * 1 == 1 * (a.d * a.n)) by (nonlinear_arith);
        assert((a.d * a.n) * 1 == 1 * (a.n * a.d)) by (nonlinear_arith);
    }
}

/// Squares of products regroup, structurally.
pub proof fn lemma_rat_mul_square_swap(a: Rat, t: Rat)
    ensures
        rat_mul(rat_mul(a, t), rat_mul(a, t)) == rat_mul(rat_mul(a, a), rat_mul(t, t)),
{
    assert((a.n * t.n) * (a.n * t.n) == (a.n * a.n) * (t.n * t.n)) by (nonlinear_arith);
    assert((a.d * t.d) * (a.d * t.d) == (a.d * a.d) * (t.d * t.d)) by (nonlinear_arith);
}

/// Negations cancel in a product, structurally.
pub proof fn lemma_rat_neg_mul_neg(a: Rat, b: Rat)
    ensures
        rat_mul(rat_neg(a), rat_neg(b)) == rat_mul(a, b),
        rat_neg(rat_mul(rat_neg(a), b)) == rat_mul(a, b),
{
    assert((-a.n) * (-b.n) == a.n * b.n) by (nonlinear_arith);
    assert(-((-a.n) * b.n) == a.n * b.n) by (nonlinear_arith);
}

/// Products regroup: `(p (a b)) g == (p a) (g b)`.
proof fn lemma_mul_shuffle(p: int, a: int, b: int, g: int)
    ensures
        (p * (a * b)) * g == (p * a) * (g * b),
{
    assert((p * (a * b)) * g == (p * a) * (g * b)) by (nonlinear_arith);
}

/// Multiplication distributes over addition, as values.
pub proof fn lemma_rat_mul_distrib(x: Rat, y: Rat, z: Rat)
    requires
        rat_wf(x),
        rat_wf(y),
        rat_wf(z),
    ensures
        rat_eq(rat_add(rat_mul(x, z), rat_mul(y, z)), rat_mul(rat_add(x, y), z)),
{
    let lhs = rat_add(rat_mul(x, z), rat_mul(y, z));
    let rhs = rat_mul(rat_add(x, y), z);
    vstd::arithmetic::mul::lemma_mul_is_distributive_add_other_way(
        rhs.d,
        (x.n * z.n) * (y.d * z.d),
        (y.n * z.n) * (x.d * z.d),
    );
    vstd::arithmetic::mul::lemma_mul_is_distributive_add_other_way(z.n, x.n * y.d, y.n * x.d);
    vstd::arithmetic::mul::lemma_mul_is_distributive_add_other_way(
        lhs.d,
        (x.n * y.d) * z.n,
        (y.n * x.d) * z.n,
    );
    let g = (x.d * y.d) * z.d;
    assert((x.d * z.d) * (y.d * z.d) == ((x.d * y.d) * z.d) * z.d) by (nonlinear_arith);
    assert((x.n * z.n) * (y.d * z.d) == (x.n * y.d) * (z.n * z.d)) by (nonlinear_arith);
    lemma_mul_shuffle(x.n * y.d, z.n, z.d, g);
    assert(((x.n * z.n) * (y.d * z.d)) * g == ((x.n * y.d) * z.n) * ((x.d * z.d) * (y.d
        * z.d)));
    assert((y.n * z.n) * (x.d * z.d) == (y.n * x.d) * (z.n * z.d)) by (nonlinear_arith);
    lemma_mul_shuffle(y.n * x.d, z.n, z.d, g);
    assert(((y.n * z.n) * (x.d * z.d)) * g == ((y.n * x.d) * z.n) * ((x.d * z.d) * (y.d
        * z.d)));
}

/// Adding a zero-valued rational changes nothing, as values.
pub proof fn lemma_rat_add_zero_val(p: Rat, q: Rat)
    requires
        rat_wf(p),
        rat_wf(q),
        rat_is_zero(q),
    ensures
        rat_eq(rat_add(p, q), p),
{
    assert((p.n * q.d + q.n * p.d) * p.d == p.n * (p.d * q.d)) by (nonlinear_arith)
        requires
            q.n == 0,
    ;
}

/// Two rationals that cancel the same value are equal.
pub proof fn lemma_rat_add_cancel_same(p: Rat, q: Rat, r: Rat)
    requires
        rat_wf(p),
        rat_wf(q),
        rat_wf(r),
        rat_is_zero(rat_add(p, q)),
        rat_is_zero(rat_add(r, q)),
    ensures
        rat_eq(p, r),
{
    assert(p.n * r.d == r.n * p.d) by (nonlinear_arith)
        requires
            p.n * q.d + q.n * p.d == 0,
            r.n * q.d + q.n * r.d == 0,
            q.d > 0,
    ;
}

/// Inverting twice returns the original complex value.
pub proof fn lemma_cx_inv_involution(q: Cx)
    requires
        cx_wf(q),
        !cx_is_zero(q),
    ensures
        cx_eq(cx_inv(cx_inv(q)), q),
{
    let n2 = cx_norm2(q);
    lemma_cx_norm2_pos(q);
    let t = rat_inv(n2);
    lemma_rat_inv(n2);
    lemma_cx_inv_r(q);
    let p = cx_inv(q);
    // squared magnitude of the reciprocal: |1/q|^2 == |q|^2 * t^2 == t
    let rr = rat_mul(q.re, q.re);
    let ii = rat_mul(q.im, q.im);
    let tt = rat_mul(t, t);
    lemma_mul_strictly_positive(q.re.d, q.re.d);
    lemma_mul_strictly_positive(q.im.d, q.im.d);
    lemma_mul_strictly_positive(t.d, t.d);
    lemma_rat_mul_square_swap(q.re, t);
    lemma_rat_mul_square_swap(rat_neg(q.im), t);
    lemma_rat_neg_mul_neg(q.im, q.im);
    assert(rat_mul(p.re, p.re) == rat_mul(rr, tt));
    assert(rat_mul(p.im, p.im) == rat_mul(ii, tt));
    lemma_rat_mul_congruence(rr, tt, rr, tt);
    lemma_rat_mul_congruence(ii, tt, ii, tt);
    lemma_mul_strictly_positive(n2.d, t.d);
    lemma_rat_mul_congruence(n2, tt, n2, tt);
    lemma_rat_mul_congruence(rat_mul(n2, t), t, rat_mul(n2, t), t);
    lemma_rat_mul_distrib(rr, ii, tt);
    let np = cx_norm2(p);
    assert(np == rat_add(rat_mul(rr, tt), rat_mul(ii, tt)));
    lemma_rat_mul_assoc(n2, t, t);
    // n2 * t == 1, so (n2 * t) * t == t
    lemma_rat_mul_inv_one(n2);
    lemma_rat_mul_congruence(rat_mul(n2, t), t, rat_one(), t);
    lemma_rat_mul_one_right(t);
    lemma_rat_add_congruence(rat_mul(rr, tt), rat_mul(ii, tt), rat_mul(rr, tt), rat_mul(ii, tt));
    lemma_rat_eq_trans(np, rat_mul(rat_add(rr, ii), tt), rat_mul(rat_mul(n2, t), t));
    lemma_rat_eq_trans(np, rat_mul(rat_mul(n2, t), t), t);
    // the reciprocal of |1/q|^2 is n2 again
    lemma_cx_norm2_pos(p);
    lemma_rat_eq_sign(np, t);
    lemma_rat_inv(np);
    lemma_rat_inv(t);
    lemma_rat_inv_congruence(np, t);
    lemma_rat_inv_invol(n2);
    assert(rat_eq(rat_inv(np), n2));
    // real part: (q.re * t) * inv(np) ~ q.re * (t * n2) ~ q.re
    let u = cx_inv(p);
    lemma_rat_mul_congruence(rat_mul(q.re, t), rat_inv(np), rat_mul(q.re, t), n2);
    lemma_rat_mul_assoc(q.re, t, n2);
    lemma_rat_mul_inv_one(n2);
    lemma_rat_mul_comm(t, n2);
    lemma_rat_mul_congruence(q.re, rat_mul(t, n2), q.re, rat_one());
    lemma_rat_mul_one_right(q.re);
    lemma_rat_eq_trans(u.re, rat_mul(rat_mul(q.re, t), n2), rat_mul(q.re, rat_mul(t, n2)));
    lemma_rat_eq_trans(u.re, rat_mul(q.re, rat_mul(t, n2)), q.re);
    // imaginary part: -((-q.im * t)) * inv(np) ~ q.im * (t * n2) ~ q.im
    lemma_rat_neg_mul_neg(q.im, t);
    assert(rat_neg(p.im) == rat_mul(q.im, t));
    lemma_rat_mul_congruence(rat_mul(q.im, t), rat_inv(np), rat_mul(q.im, t), n2);
    lemma_rat_mul_assoc(q.im, t, n2);
    lemma_rat_mul_congruence(q.im, rat_mul(t, n2), q.im, rat_one());
    lemma_rat_mul_one_right(q.im);
    lemma_rat_eq_trans(u.im, rat_mul(rat_mul(q.im, t), n2), rat_mul(q.im, rat_mul(t, n2)));
    lemma_rat_eq_trans(u.im, rat_mul(q.im, rat_mul(t, n2)), q.im);
}

/// An exact complex number with rational parts.
#[derive(Clone, Copy, Debug, PartialEq, Eq, Structural)]
pub struct Complex {
    pub re: Rational,
    pub im: Rational,
}

impl View for Complex {
    type V = Cx;

    open spec fn view(&self) -> Cx {
        Cx { re: self.re@, im: self.im@ }
    }
}

impl Complex {
    /// Machine representation invariant.
    pub open spec fn wf(&self) -> bool {
        self.re.wf() && self.im.wf()
    }

    /// The complex number `re + j im`.
    pub fn new(re: Rational, im: Rational) -> (r: Complex)
        ensures
            r@ == (Cx { re: re@, im: im@ }),
            re.wf() && im.wf() ==> r.wf(),
    {
        Complex { re, im }
    }

    /// Whether this value is zero.
    pub fn is_zero(&self) -> (r: bool)
        requires
            self.wf(),
        ensures
            r == cx_is_zero(self@),
    {
        self.re.is_zero() && self.im.is_zero()
    }

    /// Exact negation; total on well-formed values.
    pub fn neg(&self) -> (r: Complex)
        requires
            self.wf(),
        ensures
            r.wf(),
            r@ == (Cx { re: rat_neg(self@.re), im: rat_neg(self@.im) }),
    {
        Complex { re: self.re.neg(), im: self.im.neg() }
    }

    /// Exact sum, each part in lowest terms. `None` exactly when a part's
    /// lowest-terms form does not fit the machine representation.
    pub fn add(&self, other: &Complex) -> (r: Option<Complex>)
        requires
            self.wf(),
            other.wf(),
        ensures
            r matches Some(v) ==> v.wf() && v@ == cx_add_r(self@, other@),
            (r is Some) == cx_add_fits(self@, other@),
    {
        match self.re.add(&other.re) {
            None => None,
            Some(re) => match self.im.add(&other.im) {
                None => None,
                Some(im) => Some(Complex { re, im }),
            },
        }
    }

    /// Exact reciprocal, each intermediate in lowest terms. `None` exactly
    /// when an intermediate does not fit the machine representation.
    pub fn inv(&self) -> (r: Option<Complex>)
        requires
            self.wf(),
            !cx_is_zero(self@),
        ensures
            r matches Some(v) ==> v.wf() && v@ == cx_inv_r(self@),
            (r is Some) == cx_inv_fits(self@),
    {
        proof {
            lemma_cx_inv_r(self@);
        }
        match self.re.mul(&self.re) {
            None => None,
            Some(rr) => match self.im.mul(&self.im) {
                None => None,
                Some(ii) => match rr.add(&ii) {
                    None => None,
                    Some(n2) => {
                        let inv_n2 = n2.inv();
                        match self.re.mul(&inv_n2) {
                            None => None,
                            Some(re) => match self.im.neg().mul(&inv_n2) {
                                None => None,
                                Some(im) => Some(Complex { re, im }),
                            },
                        }
                    },
                },
            },
        }
    }
}

} // verus!
