//! Physical quantities and the extended impedance domain.
//!
//! `ImpedanceResult` extends the complex plane with `Short` (an ideal wire,
//! zero impedance) and `Open` (a broken branch, infinite impedance).
//! `combine_series` and `combine_parallel` are total on the extended domain,
//! up to arithmetic overflow, and their algebraic laws are proved below over
//! the mathematical model.

use vstd::prelude::*;

verus! {

use crate::errors::CircuitError;
use crate::rational::Complex;
use crate::rational::Cx;
use crate::rational::Rat;
use crate::rational::Rational;
use crate::rational::cx_add;
use crate::rational::cx_add_fits;
use crate::rational::cx_add_r;
use crate::rational::cx_eq;
use crate::rational::cx_inv;
use crate::rational::cx_inv_fits;
use crate::rational::cx_inv_r;
use crate::rational::cx_is_zero;
use crate::rational::cx_wf;
use crate::rational::rat_is_pos;
use crate::rational::rat_nonneg;
use crate::rational::rat_add;
use crate::rational::rat_wf;

/// An optional value: a concrete quantity, or a named symbolic placeholder.
#[derive(Debug, Clone, PartialEq, Hash)]
pub enum Value<T> {
    Known(T),
    Unknown(String),
}

impl<T> Value<T> {
    /// Wraps a concrete value.
    pub fn new(value: T) -> (r: Self)
        ensures
            r == Value::<T>::Known(value),
    {
        Value::Known(value)
    }

    /// A symbolic placeholder.
    pub fn unknown(name: String) -> (r: Self)
        ensures
            r == Value::<T>::Unknown(name),
    {
        Value::Unknown(name)
    }

    /// Whether this is a concrete value.
    pub fn is_known(&self) -> (r: bool)
        ensures
            r == (self is Known),
    {
        matches!(self, Value::Known(_))
    }

    /// Whether this is a symbolic placeholder.
    pub fn is_unknown(&self) -> (r: bool)
        ensures
            r == (self is Unknown),
    {
        matches!(self, Value::Unknown(_))
    }

    /// The wrapped concrete value. Callers must know the value is concrete.
    pub fn unwrap_known(&self) -> (r: &T)
        requires
            self is Known,
        ensures
            match self {
                Value::Known(v) => r == v,
                Value::Unknown(_) => false,
            },
    {
        match self {
            Value::Known(value) => value,
            Value::Unknown(_) => unreached(),
        }
    }
}

/// An angular frequency in radians per second; non-negative (DC is 0).
#[derive(Debug, Clone, Copy, PartialEq, Eq, Structural)]
pub struct AngularFrequency(Rational);

impl View for AngularFrequency {
    type V = Rat;

    closed spec fn view(&self) -> Rat {
        self.0@
    }
}

impl AngularFrequency {
    /// Representation invariant: well formed and non-negative.
    pub open spec fn wf(&self) -> bool {
        rat_wf(self@) && rat_nonneg(self@)
    }

    /// Validates an angular frequency: any non-negative value is accepted.
    pub fn new(omega: Rational) -> (r: Result<Self, CircuitError>)
        requires
            omega.wf(),
        ensures
            rat_nonneg(omega@) <==> r is Ok,
            r matches Ok(w) ==> w.wf() && w@ == omega@,
            r matches Err(e) ==> e == CircuitError::InvalidAngularFrequency(omega),
    {
        if omega.is_nonneg() {
            Ok(AngularFrequency(omega))
        } else {
            Err(CircuitError::InvalidAngularFrequency(omega))
        }
    }

    /// The value in radians per second.
    pub fn get(&self) -> (r: Rational)
        ensures
            r@ == self@,
            self.wf() ==> r.wf(),
    {
        self.0
    }
}

/// A resistance in ohms: positive when known.
#[derive(Debug, Clone, PartialEq)]
pub struct Resistance(pub Value<Rational>);

impl Resistance {
    /// Representation invariant: a known value is well formed and positive.
    pub open spec fn wf(&self) -> bool {
        match self.0 {
            Value::Known(r) => r.wf() && rat_is_pos(r@),
            Value::Unknown(_) => true,
        }
    }

    /// Validates a concrete resistance: only positive values are accepted.
    pub fn known(r: Rational) -> (res: Result<Self, CircuitError>)
        requires
            r.wf(),
        ensures
            rat_is_pos(r@) <==> res is Ok,
            res matches Ok(v) ==> v.wf() && v == Resistance(Value::Known(r)),
            res matches Err(e) ==> e == CircuitError::InvalidResistance(r),
    {
        if r.is_pos() {
            Ok(Resistance(Value::Known(r)))
        } else {
            Err(CircuitError::InvalidResistance(r))
        }
    }

    /// A symbolic resistance.
    pub fn unknown(name: String) -> (res: Self)
        ensures
            res == Resistance(Value::Unknown(name)),
            res.wf(),
    {
        Resistance(Value::Unknown(name))
    }

    /// Whether the value is concrete.
    pub fn is_known(&self) -> (r: bool)
        ensures
            r == (self.0 is Known),
    {
        self.0.is_known()
    }

    /// Whether the value is symbolic.
    pub fn is_unknown(&self) -> (r: bool)
        ensures
            r == (self.0 is Unknown),
    {
        self.0.is_unknown()
    }

    /// The concrete value, if any.
    pub fn value(&self) -> (r: Option<Rational>)
        ensures
            match self.0 {
                Value::Known(x) => r == Some(x),
                Value::Unknown(_) => r is None,
            },
    {
        match &self.0 {
            Value::Known(x) => Some(*x),
            Value::Unknown(_) => None,
        }
    }
}

/// An inductance in henries: positive when known.
#[derive(Debug, Clone, PartialEq)]
pub struct Inductance(pub Value<Rational>);

impl Inductance {
    /// Representation invariant: a known value is well formed and positive.
    pub open spec fn wf(&self) -> bool {
        match self.0 {
            Value::Known(l) => l.wf() && rat_is_pos(l@),
            Value::Unknown(_) => true,
        }
    }

    /// Validates a concrete inductance: only positive values are accepted.
    pub fn known(l: Rational) -> (res: Result<Self, CircuitError>)
        requires
            l.wf(),
        ensures
            rat_is_pos(l@) <==> res is Ok,
            res matches Ok(v) ==> v.wf() && v == Inductance(Value::Known(l)),
            res matches Err(e) ==> e == CircuitError::InvalidInductance(l),
    {
        if l.is_pos() {
            Ok(Inductance(Value::Known(l)))
        } else {
            Err(CircuitError::InvalidInductance(l))
        }
    }

    /// A symbolic inductance.
    pub fn unknown(name: String) -> (res: Self)
        ensures
            res == Inductance(Value::Unknown(name)),
            res.wf(),
    {
        Inductance(Value::Unknown(name))
    }

    /// Whether the value is concrete.
    pub fn is_known(&self) -> (r: bool)
        ensures
            r == (self.0 is Known),
    {
        self.0.is_known()
    }

    /// Whether the value is symbolic.
    pub fn is_unknown(&self) -> (r: bool)
        ensures
            r == (self.0 is Unknown),
    {
        self.0.is_unknown()
    }

    /// The concrete value, if any.
    pub fn value(&self) -> (r: Option<Rational>)
        ensures
            match self.0 {
                Value::Known(x) => r == Some(x),
                Value::Unknown(_) => r is None,
            },
    {
        match &self.0 {
            Value::Known(x) => Some(*x),
            Value::Unknown(_) => None,
        }
    }
}

/// A capacitance in farads: positive when known.
#[derive(Debug, Clone, PartialEq)]
pub struct Capacitance(pub Value<Rational>);

impl Capacitance {
    /// Representation invariant: a known value is well formed and positive.
    pub open spec fn wf(&self) -> bool {
        match self.0 {
            Value::Known(c) => c.wf() && rat_is_pos(c@),
            Value::Unknown(_) => true,
        }
    }

    /// Validates a concrete capacitance: only positive values are accepted.
    pub fn known(c: Rational) -> (res: Result<Self, CircuitError>)
        requires
            c.wf(),
        ensures
            rat_is_pos(c@) <==> res is Ok,
            res matches Ok(v) ==> v.wf() && v == Capacitance(Value::Known(c)),
            res matches Err(e) ==> e == CircuitError::InvalidCapacitance(c),
    {
        if c.is_pos() {
            Ok(Capacitance(Value::Known(c)))
        } else {
            Err(CircuitError::InvalidCapacitance(c))
        }
    }

    /// A symbolic capacitance.
    pub fn unknown(name: String) -> (res: Self)
        ensures
            res == Capacitance(Value::Unknown(name)),
            res.wf(),
    {
        Capacitance(Value::Unknown(name))
    }

    /// Whether the value is concrete.
    pub fn is_known(&self) -> (r: bool)
        ensures
            r == (self.0 is Known),
    {
        self.0.is_known()
    }

    /// Whether the value is symbolic.
    pub fn is_unknown(&self) -> (r: bool)
        ensures
            r == (self.0 is Unknown),
    {
        self.0.is_unknown()
    }

    /// The concrete value, if any.
    pub fn value(&self) -> (r: Option<Rational>)
        ensures
            match self.0 {
                Value::Known(x) => r == Some(x),
                Value::Unknown(_) => r is None,
            },
    {
        match &self.0 {
            Value::Known(x) => Some(*x),
            Value::Unknown(_) => None,
        }
    }
}

/// A voltage phasor, in polar form: a signed amplitude in volts and a phase
/// in degrees. DC sources have phase 0.
#[derive(Debug, Clone, Copy, PartialEq, Eq, Structural)]
pub struct Voltage {
    pub mag: Rational,
    pub phase_deg: Rational,
}

impl Voltage {
    /// Representation invariant.
    pub open spec fn wf(&self) -> bool {
        self.mag.wf() && self.phase_deg.wf()
    }

    /// A DC (purely real) voltage.
    pub fn dc(volts: Rational) -> (r: Self)
        ensures
            r.mag == volts,
            r.phase_deg@ == (Rat { n: 0, d: 1 }),
            volts.wf() ==> r.wf(),
    {
        Voltage { mag: volts, phase_deg: Rational::from_int(0) }
    }

    /// An AC phasor of the given magnitude and phase in degrees.
    pub fn ac_phasor(magnitude: Rational, phase_degrees: Rational) -> (r: Self)
        ensures
            r == (Voltage { mag: magnitude, phase_deg: phase_degrees }),
    {
        Voltage { mag: magnitude, phase_deg: phase_degrees }
    }
}

/// A current phasor, in polar form: a signed amplitude in amperes and a
/// phase in degrees. DC sources have phase 0.
#[derive(Debug, Clone, Copy, PartialEq, Eq, Structural)]
pub struct Current {
    pub mag: Rational,
    pub phase_deg: Rational,
}

impl Current {
    /// Representation invariant.
    pub open spec fn wf(&self) -> bool {
        self.mag.wf() && self.phase_deg.wf()
    }

    /// A DC (purely real) current.
    pub fn dc(amps: Rational) -> (r: Self)
        ensures
            r.mag == amps,
            r.phase_deg@ == (Rat { n: 0, d: 1 }),
            amps.wf() ==> r.wf(),
    {
        Current { mag: amps, phase_deg: Rational::from_int(0) }
    }

    /// An AC phasor of the given magnitude and phase in degrees.
    pub fn ac_phasor(magnitude: Rational, phase_degrees: Rational) -> (r: Self)
        ensures
            r == (Current { mag: magnitude, phase_deg: phase_degrees }),
    {
        Current { mag: magnitude, phase_deg: phase_degrees }
    }
}

/// Extended impedance: a finite complex value, an ideal open circuit, or an
/// ideal short circuit. `Finite(0)` is not folded to `Short`: only the
/// combinators treat a finite zero specially.
#[derive(Debug, Clone, Copy, PartialEq, Eq, Structural)]
pub enum ImpedanceResult {
    Finite(Complex),
    Open,
    Short,
}

/// Mathematical model of an extended impedance.
pub enum Zx {
    Fin(Cx),
    Open,
    Short,
}

impl View for ImpedanceResult {
    type V = Zx;

    open spec fn view(&self) -> Zx {
        match self {
            ImpedanceResult::Finite(c) => Zx::Fin(c@),
            ImpedanceResult::Open => Zx::Open,
            ImpedanceResult::Short => Zx::Short,
        }
    }
}

impl ImpedanceResult {
    /// Representation invariant.
    pub open spec fn wf(&self) -> bool {
        match self {
            ImpedanceResult::Finite(c) => c.wf(),
            _ => true,
        }
    }

    /// Whether this is a finite impedance.
    pub fn is_finite(&self) -> (r: bool)
        ensures
            r == (self@ is Fin),
    {
        matches!(self, ImpedanceResult::Finite(..))
    }

    /// Whether this is an open circuit.
    pub fn is_open(&self) -> (r: bool)
        ensures
            r == (self@ is Open),
    {
        matches!(self, ImpedanceResult::Open)
    }

    /// Whether this is a short circuit.
    pub fn is_short(&self) -> (r: bool)
        ensures
            r == (self@ is Short),
    {
        matches!(self, ImpedanceResult::Short)
    }
}

/// A model impedance is well formed.
pub open spec fn zx_wf(z: Zx) -> bool {
    match z {
        Zx::Fin(c) => cx_wf(c),
        _ => true,
    }
}

/// Two model impedances denote the same extended value.
pub open spec fn zx_eq(a: Zx, b: Zx) -> bool {
    match (a, b) {
        (Zx::Fin(x), Zx::Fin(y)) => cx_eq(x, y),
        (Zx::Open, Zx::Open) => true,
        (Zx::Short, Zx::Short) => true,
        _ => false,
    }
}

/// A model impedance is passive: its real part is non-negative. `Open` and
/// `Short` are passive.
pub open spec fn zx_passive(z: Zx) -> bool {
    match z {
        Zx::Fin(c) => rat_nonneg(c.re),
        _ => true,
    }
}

/// Series combination on the model domain (addition of impedances):
/// `Open` absorbs, `Short` is the identity.
pub open spec fn zx_series(a: Zx, b: Zx) -> Zx {
    match (a, b) {
        (Zx::Open, _) => Zx::Open,
        (_, Zx::Open) => Zx::Open,
        (Zx::Fin(x), Zx::Short) => Zx::Fin(x),
        (Zx::Short, Zx::Fin(y)) => Zx::Fin(y),
        (Zx::Short, Zx::Short) => Zx::Short,
        (Zx::Fin(x), Zx::Fin(y)) => Zx::Fin(cx_add(x, y)),
    }
}

/// Parallel combination on the model domain (addition of admittances):
/// `Short` absorbs, `Open` is the identity. A finite zero in parallel with a
/// finite value is a short; a finite pair whose admittances cancel exactly
/// (series resonance) is an open circuit.
pub open spec fn zx_parallel(a: Zx, b: Zx) -> Zx {
    match (a, b) {
        (Zx::Short, _) => Zx::Short,
        (_, Zx::Short) => Zx::Short,
        (Zx::Fin(x), Zx::Open) => Zx::Fin(x),
        (Zx::Open, Zx::Fin(y)) => Zx::Fin(y),
        (Zx::Open, Zx::Open) => Zx::Open,
        (Zx::Fin(x), Zx::Fin(y)) => {
            if cx_is_zero(x) || cx_is_zero(y) {
                Zx::Short
            } else {
                let s = cx_add(cx_inv(x), cx_inv(y));
                if cx_is_zero(s) {
                    Zx::Open
                } else {
                    Zx::Fin(cx_inv(s))
                }
            }
        },
    }
}

/// Series combination as computed by [`combine_series`], with finite sums in
/// lowest terms.
pub open spec fn zx_series_r(a: Zx, b: Zx) -> Zx {
    match (a, b) {
        (Zx::Open, _) => Zx::Open,
        (_, Zx::Open) => Zx::Open,
        (Zx::Fin(x), Zx::Short) => Zx::Fin(x),
        (Zx::Short, Zx::Fin(y)) => Zx::Fin(y),
        (Zx::Short, Zx::Short) => Zx::Short,
        (Zx::Fin(x), Zx::Fin(y)) => Zx::Fin(cx_add_r(x, y)),
    }
}

/// Whether [`combine_series`] succeeds.
pub open spec fn zx_series_fits(a: Zx, b: Zx) -> bool {
    match (a, b) {
        (Zx::Fin(x), Zx::Fin(y)) => cx_add_fits(x, y),
        _ => true,
    }
}

/// Parallel combination as computed by [`combine_parallel`], with each
/// intermediate in lowest terms.
pub open spec fn zx_parallel_r(a: Zx, b: Zx) -> Zx {
    match (a, b) {
        (Zx::Short, _) => Zx::Short,
        (_, Zx::Short) => Zx::Short,
        (Zx::Fin(x), Zx::Open) => Zx::Fin(x),
        (Zx::Open, Zx::Fin(y)) => Zx::Fin(y),
        (Zx::Open, Zx::Open) => Zx::Open,
        (Zx::Fin(x), Zx::Fin(y)) => {
            if cx_is_zero(x) || cx_is_zero(y) {
                Zx::Short
            } else {
                let s = cx_add_r(cx_inv_r(x), cx_inv_r(y));
                if cx_is_zero(s) {
                    Zx::Open
                } else {
                    Zx::Fin(cx_inv_r(s))
                }
            }
        },
    }
}

/// Whether [`combine_parallel`] succeeds.
pub open spec fn zx_parallel_fits(a: Zx, b: Zx) -> bool {
    match (a, b) {
        (Zx::Fin(x), Zx::Fin(y)) => {
            if cx_is_zero(x) || cx_is_zero(y) {
                true
            } else {
                let s = cx_add_r(cx_inv_r(x), cx_inv_r(y));
                cx_inv_fits(x) && cx_inv_fits(y) && cx_add_fits(cx_inv_r(x), cx_inv_r(y)) && (
                cx_is_zero(s) || cx_inv_fits(s))
            }
        },
        _ => true,
    }
}

/// Complex addition respects `cx_eq`.
pub proof fn lemma_cx_add_congruence(a: Cx, b: Cx, a2: Cx, b2: Cx)
    requires
        cx_wf(a),
        cx_wf(b),
        cx_wf(a2),
        cx_wf(b2),
        cx_eq(a, a2),
        cx_eq(b, b2),
    ensures
        cx_wf(cx_add(a, b)),
        cx_eq(cx_add(a, b), cx_add(a2, b2)),
{
    crate::rational::lemma_rat_add_congruence(a.re, b.re, a2.re, b2.re);
    crate::rational::lemma_rat_add_congruence(a.im, b.im, a2.im, b2.im);
}

/// The computed complex sum is equivalent to the exact one.
pub proof fn lemma_cx_add_r_eq(a: Cx, b: Cx)
    requires
        cx_wf(a),
        cx_wf(b),
    ensures
        cx_wf(cx_add_r(a, b)),
        cx_wf(cx_add(a, b)),
        cx_eq(cx_add_r(a, b), cx_add(a, b)),
{
    crate::rational::lemma_rat_add_congruence(a.re, b.re, a.re, b.re);
    crate::rational::lemma_rat_add_congruence(a.im, b.im, a.im, b.im);
    crate::rational::lemma_rat_reduced_eq(crate::rational::rat_add(a.re, b.re));
    crate::rational::lemma_rat_reduced_eq(crate::rational::rat_add(a.im, b.im));
}

/// `cx_eq` is transitive on well-formed values.
pub proof fn lemma_cx_eq_trans(a: Cx, b: Cx, c: Cx)
    requires
        cx_wf(a),
        cx_wf(b),
        cx_wf(c),
        cx_eq(a, b),
        cx_eq(b, c),
    ensures
        cx_eq(a, c),
{
    crate::rational::lemma_rat_eq_trans(a.re, b.re, c.re);
    crate::rational::lemma_rat_eq_trans(a.im, b.im, c.im);
}

/// Equal complex numbers are zero together, and their real parts have the
/// same sign.
pub proof fn lemma_cx_eq_sign(a: Cx, b: Cx)
    requires
        cx_wf(a),
        cx_wf(b),
        cx_eq(a, b),
    ensures
        cx_is_zero(a) <==> cx_is_zero(b),
        rat_nonneg(a.re) <==> rat_nonneg(b.re),
{
    crate::rational::lemma_rat_eq_sign(a.re, b.re);
    crate::rational::lemma_rat_eq_sign(a.im, b.im);
}

/// The complex reciprocal respects `cx_eq`.
pub proof fn lemma_cx_inv_congruence(a: Cx, b: Cx)
    requires
        cx_wf(a),
        cx_wf(b),
        !cx_is_zero(a),
        !cx_is_zero(b),
        cx_eq(a, b),
    ensures
        cx_eq(cx_inv(a), cx_inv(b)),
{
    let na = crate::rational::cx_norm2(a);
    let nb = crate::rational::cx_norm2(b);
    crate::rational::lemma_cx_norm2_pos(a);
    crate::rational::lemma_cx_norm2_pos(b);
    crate::rational::lemma_rat_mul_congruence(a.re, a.re, b.re, b.re);
    crate::rational::lemma_rat_mul_congruence(a.im, a.im, b.im, b.im);
    crate::rational::lemma_rat_mul_congruence(b.re, b.re, a.re, a.re);
    crate::rational::lemma_rat_mul_congruence(b.im, b.im, a.im, a.im);
    crate::rational::lemma_rat_add_congruence(
        crate::rational::rat_mul(a.re, a.re),
        crate::rational::rat_mul(a.im, a.im),
        crate::rational::rat_mul(b.re, b.re),
        crate::rational::rat_mul(b.im, b.im),
    );
    crate::rational::lemma_rat_inv_congruence(na, nb);
    crate::rational::lemma_rat_inv(na);
    crate::rational::lemma_rat_inv(nb);
    crate::rational::lemma_rat_mul_congruence(
        a.re,
        crate::rational::rat_inv(na),
        b.re,
        crate::rational::rat_inv(nb),
    );
    crate::rational::lemma_rat_neg_congruence(a.im, b.im);
    crate::rational::lemma_rat_mul_congruence(
        crate::rational::rat_neg(a.im),
        crate::rational::rat_inv(na),
        crate::rational::rat_neg(b.im),
        crate::rational::rat_inv(nb),
    );
}

/// The computed series combination is equivalent to the exact one.
pub proof fn lemma_zx_series_r_eq(a: Zx, b: Zx)
    requires
        zx_wf(a),
        zx_wf(b),
    ensures
        zx_wf(zx_series_r(a, b)),
        zx_wf(zx_series(a, b)),
        zx_eq(zx_series_r(a, b), zx_series(a, b)),
{
    if a is Fin && b is Fin {
        lemma_cx_add_r_eq(a->Fin_0, b->Fin_0);
    }
}

/// The computed parallel combination is equivalent to the exact one.
pub proof fn lemma_zx_parallel_r_eq(a: Zx, b: Zx)
    requires
        zx_wf(a),
        zx_wf(b),
    ensures
        zx_wf(zx_parallel_r(a, b)),
        zx_wf(zx_parallel(a, b)),
        zx_eq(zx_parallel_r(a, b), zx_parallel(a, b)),
{
    if a is Fin && b is Fin {
        let x = a->Fin_0;
        let y = b->Fin_0;
        if !cx_is_zero(x) && !cx_is_zero(y) {
            crate::rational::lemma_cx_inv_r(x);
            crate::rational::lemma_cx_inv_r(y);
            let sr = cx_add_r(cx_inv_r(x), cx_inv_r(y));
            let s = cx_add(cx_inv(x), cx_inv(y));
            lemma_cx_add_r_eq(cx_inv_r(x), cx_inv_r(y));
            lemma_cx_add_r_eq(cx_inv(x), cx_inv(y));
            lemma_cx_add_congruence(cx_inv_r(x), cx_inv_r(y), cx_inv(x), cx_inv(y));
            lemma_cx_eq_trans(sr, cx_add(cx_inv_r(x), cx_inv_r(y)), s);
            lemma_cx_eq_sign(sr, s);
            if !cx_is_zero(sr) {
                crate::rational::lemma_cx_inv_r(sr);
                crate::rational::lemma_cx_inv_r(s);
                lemma_cx_inv_congruence(sr, s);
                lemma_cx_eq_trans(cx_inv_r(sr), cx_inv(sr), cx_inv(s));
            }
        }
    }
}

/// The model complex zero.
pub open spec fn cx_zero() -> Cx {
    Cx { re: Rat { n: 0, d: 1 }, im: Rat { n: 0, d: 1 } }
}

/// The views of a sequence of impedances.
pub open spec fn zx_views(s: Seq<ImpedanceResult>) -> Seq<Zx> {
    s.map_values(|z: ImpedanceResult| z@)
}

/// Every element of the sequence is well formed.
pub open spec fn seq_zx_wf(s: Seq<Zx>) -> bool {
    forall|i: int| 0 <= i < s.len() ==> zx_wf(#[trigger] s[i])
}

/// Some element is `Open`.
pub open spec fn zx_has_open(s: Seq<Zx>) -> bool {
    exists|i: int| 0 <= i < s.len() && #[trigger] s[i] is Open
}

/// Some element is finite.
pub open spec fn zx_has_fin(s: Seq<Zx>) -> bool {
    exists|i: int| 0 <= i < s.len() && #[trigger] s[i] is Fin
}

/// Some element is `Short`, or a finite zero.
pub open spec fn zx_has_short_or_zero(s: Seq<Zx>) -> bool {
    exists|i: int|
        0 <= i < s.len() && (#[trigger] s[i] is Short || (s[i] matches Zx::Fin(c) && cx_is_zero(
            c,
        )))
}

/// Exact sum of the finite elements (`Open` and `Short` contribute nothing).
pub open spec fn fin_sum(s: Seq<Zx>) -> Cx
    decreases s.len(),
{
    if s.len() == 0 {
        cx_zero()
    } else {
        match s.last() {
            Zx::Fin(c) => cx_add(fin_sum(s.drop_last()), c),
            _ => fin_sum(s.drop_last()),
        }
    }
}

/// The sum of the finite elements as computed, each step in lowest terms.
pub open spec fn fin_sum_r(s: Seq<Zx>) -> Cx
    decreases s.len(),
{
    if s.len() == 0 {
        cx_zero()
    } else {
        match s.last() {
            Zx::Fin(c) => cx_add_r(fin_sum_r(s.drop_last()), c),
            _ => fin_sum_r(s.drop_last()),
        }
    }
}

/// Whether the computed sum of the finite elements stays in range.
pub open spec fn fin_sum_fits(s: Seq<Zx>) -> bool
    decreases s.len(),
{
    if s.len() == 0 {
        true
    } else {
        fin_sum_fits(s.drop_last()) && match s.last() {
            Zx::Fin(c) => cx_add_fits(fin_sum_r(s.drop_last()), c),
            _ => true,
        }
    }
}

/// Exact sum of the admittances (reciprocals) of the finite elements.
/// Meaningful when no finite element is zero.
pub open spec fn adm_sum(s: Seq<Zx>) -> Cx
    decreases s.len(),
{
    if s.len() == 0 {
        cx_zero()
    } else {
        match s.last() {
            Zx::Fin(c) => cx_add(adm_sum(s.drop_last()), cx_inv(c)),
            _ => adm_sum(s.drop_last()),
        }
    }
}

/// The admittance sum as computed, each step in lowest terms.
pub open spec fn adm_sum_r(s: Seq<Zx>) -> Cx
    decreases s.len(),
{
    if s.len() == 0 {
        cx_zero()
    } else {
        match s.last() {
            Zx::Fin(c) => cx_add_r(adm_sum_r(s.drop_last()), cx_inv_r(c)),
            _ => adm_sum_r(s.drop_last()),
        }
    }
}

/// Whether the computed admittance sum stays in range.
pub open spec fn adm_sum_fits(s: Seq<Zx>) -> bool
    decreases s.len(),
{
    if s.len() == 0 {
        true
    } else {
        adm_sum_fits(s.drop_last()) && match s.last() {
            Zx::Fin(c) => cx_inv_fits(c) && cx_add_fits(adm_sum_r(s.drop_last()), cx_inv_r(c)),
            _ => true,
        }
    }
}

/// Series combination of a whole sequence: `Open` if any element is `Open`,
/// else the finite sum of the finite elements, else `Short` when only
/// `Short`s (or nothing) remain.
pub open spec fn zx_series_many(s: Seq<Zx>) -> Zx {
    if zx_has_open(s) {
        Zx::Open
    } else if !zx_has_fin(s) {
        Zx::Short
    } else {
        Zx::Fin(fin_sum(s))
    }
}

/// Series combination of a sequence as computed by [`combine_series_many`].
pub open spec fn zx_series_many_r(s: Seq<Zx>) -> Zx {
    if zx_has_open(s) {
        Zx::Open
    } else if !zx_has_fin(s) {
        Zx::Short
    } else {
        Zx::Fin(fin_sum_r(s))
    }
}

/// Whether [`combine_series_many`] succeeds.
pub open spec fn zx_series_many_fits(s: Seq<Zx>) -> bool {
    zx_has_open(s) || fin_sum_fits(s)
}

/// Parallel combination of a whole sequence: `Short` if any element is
/// `Short` or a finite zero, else `Open` if no finite element remains or the
/// admittances cancel exactly, else the reciprocal of the admittance sum.
pub open spec fn zx_parallel_many(s: Seq<Zx>) -> Zx {
    if zx_has_short_or_zero(s) {
        Zx::Short
    } else if !zx_has_fin(s) {
        Zx::Open
    } else {
        let y = adm_sum(s);
        if cx_is_zero(y) {
            Zx::Open
        } else {
            Zx::Fin(cx_inv(y))
        }
    }
}

/// Parallel combination of a sequence as computed by
/// [`combine_parallel_many`].
pub open spec fn zx_parallel_many_r(s: Seq<Zx>) -> Zx {
    if zx_has_short_or_zero(s) {
        Zx::Short
    } else if !zx_has_fin(s) {
        Zx::Open
    } else {
        let y = adm_sum_r(s);
        if cx_is_zero(y) {
            Zx::Open
        } else {
            Zx::Fin(cx_inv_r(y))
        }
    }
}

/// Whether [`combine_parallel_many`] succeeds.
pub open spec fn zx_parallel_many_fits(s: Seq<Zx>) -> bool {
    zx_has_short_or_zero(s) || (adm_sum_fits(s) && (cx_is_zero(adm_sum_r(s)) || cx_inv_fits(
        adm_sum_r(s),
    )))
}

/// The computed sum of finite elements is equivalent to the exact one.
pub proof fn lemma_fin_sum_r_eq(s: Seq<Zx>)
    requires
        seq_zx_wf(s),
    ensures
        cx_wf(fin_sum_r(s)),
        cx_wf(fin_sum(s)),
        cx_eq(fin_sum_r(s), fin_sum(s)),
    decreases s.len(),
{
    if s.len() == 0 {
    } else {
        assert(seq_zx_wf(s.drop_last())) by {
            assert forall|j: int| 0 <= j < s.drop_last().len() implies zx_wf(
                #[trigger] s.drop_last()[j],
            ) by {
                assert(s.drop_last()[j] == s[j]);
            };
        };
        lemma_fin_sum_r_eq(s.drop_last());
        if s.last() is Fin {
            let c = s.last()->Fin_0;
            assert(zx_wf(s[s.len() - 1]));
            lemma_cx_add_r_eq(fin_sum_r(s.drop_last()), c);
            lemma_cx_add_r_eq(fin_sum(s.drop_last()), c);
            lemma_cx_add_congruence(fin_sum_r(s.drop_last()), c, fin_sum(s.drop_last()), c);
            lemma_cx_eq_trans(
                fin_sum_r(s),
                cx_add(fin_sum_r(s.drop_last()), c),
                cx_add(fin_sum(s.drop_last()), c),
            );
        }
    }
}

/// No finite element of the sequence is zero.
pub open spec fn zx_no_zero_fin(s: Seq<Zx>) -> bool {
    forall|i: int|
        0 <= i < s.len() ==> !(#[trigger] s[i] matches Zx::Fin(c) && cx_is_zero(c))
}

/// The computed admittance sum is equivalent to the exact one.
pub proof fn lemma_adm_sum_r_eq(s: Seq<Zx>)
    requires
        seq_zx_wf(s),
        zx_no_zero_fin(s),
    ensures
        cx_wf(adm_sum_r(s)),
        cx_wf(adm_sum(s)),
        cx_eq(adm_sum_r(s), adm_sum(s)),
    decreases s.len(),
{
    if s.len() == 0 {
    } else {
        assert(seq_zx_wf(s.drop_last()) && zx_no_zero_fin(s.drop_last())) by {
            assert forall|j: int| 0 <= j < s.drop_last().len() implies zx_wf(
                #[trigger] s.drop_last()[j],
            ) && !(s.drop_last()[j] matches Zx::Fin(c) && cx_is_zero(c)) by {
                assert(s.drop_last()[j] == s[j]);
            };
        };
        lemma_adm_sum_r_eq(s.drop_last());
        if s.last() is Fin {
            let c = s.last()->Fin_0;
            assert(zx_wf(s[s.len() - 1]));
            assert(!(s[s.len() - 1] matches Zx::Fin(c0) && cx_is_zero(c0)));
            crate::rational::lemma_cx_inv_r(c);
            lemma_cx_add_r_eq(adm_sum_r(s.drop_last()), cx_inv_r(c));
            lemma_cx_add_r_eq(adm_sum(s.drop_last()), cx_inv(c));
            lemma_cx_add_congruence(
                adm_sum_r(s.drop_last()),
                cx_inv_r(c),
                adm_sum(s.drop_last()),
                cx_inv(c),
            );
            lemma_cx_eq_trans(
                adm_sum_r(s),
                cx_add(adm_sum_r(s.drop_last()), cx_inv_r(c)),
                cx_add(adm_sum(s.drop_last()), cx_inv(c)),
            );
        }
    }
}

/// A fitting computed sum also fits on every prefix (contrapositive: an
/// overflow in a prefix dooms the whole).
pub proof fn lemma_fin_sum_fits_prefix(s: Seq<Zx>, i: int)
    requires
        0 <= i <= s.len(),
        fin_sum_fits(s),
    ensures
        fin_sum_fits(s.subrange(0, i)),
    decreases s.len() - i,
{
    if i == s.len() {
        assert(s.subrange(0, i) =~= s);
    } else {
        lemma_fin_sum_fits_prefix(s.drop_last(), i);
        assert(s.drop_last().subrange(0, i) =~= s.subrange(0, i));
    }
}

/// A fitting computed admittance sum also fits on every prefix.
pub proof fn lemma_adm_sum_fits_prefix(s: Seq<Zx>, i: int)
    requires
        0 <= i <= s.len(),
        adm_sum_fits(s),
    ensures
        adm_sum_fits(s.subrange(0, i)),
    decreases s.len() - i,
{
    if i == s.len() {
        assert(s.subrange(0, i) =~= s);
    } else {
        lemma_adm_sum_fits_prefix(s.drop_last(), i);
        assert(s.drop_last().subrange(0, i) =~= s.subrange(0, i));
    }
}

/// Combines two impedances in series: addition in the impedance domain.
/// `Open` absorbs; `Short` is the identity. Fails only on arithmetic
/// overflow.
pub fn combine_series(z1: ImpedanceResult, z2: ImpedanceResult) -> (r: Result<
    ImpedanceResult,
    CircuitError,
>)
    requires
        z1.wf(),
        z2.wf(),
    ensures
        r matches Ok(z) ==> z.wf() && z@ == zx_series_r(z1@, z2@) && zx_eq(z@, zx_series(z1@, z2@)),
        (r is Ok) == zx_series_fits(z1@, z2@),
        r matches Err(e) ==> e == CircuitError::NumericOverflow,
{
    proof {
        lemma_zx_series_r_eq(z1@, z2@);
    }
    match (&z1, &z2) {
        (ImpedanceResult::Open, _) | (_, ImpedanceResult::Open) => Ok(ImpedanceResult::Open),
        (ImpedanceResult::Finite(z1_val), ImpedanceResult::Short) => Ok(
            ImpedanceResult::Finite(*z1_val),
        ),
        (ImpedanceResult::Short, ImpedanceResult::Finite(z2_val)) => Ok(
            ImpedanceResult::Finite(*z2_val),
        ),
        (ImpedanceResult::Short, ImpedanceResult::Short) => Ok(ImpedanceResult::Short),
        (ImpedanceResult::Finite(z1_val), ImpedanceResult::Finite(z2_val)) => {
            match z1_val.add(z2_val) {
                Some(sum) => Ok(ImpedanceResult::Finite(sum)),
                None => Err(CircuitError::NumericOverflow),
            }
        },
    }
}

/// Combines two impedances in parallel: addition in the admittance domain.
/// `Short` absorbs; `Open` is the identity; a finite zero is a short; a
/// finite pair whose admittances cancel exactly is an open circuit. Fails
/// only on arithmetic overflow.
pub fn combine_parallel(z1: ImpedanceResult, z2: ImpedanceResult) -> (r: Result<
    ImpedanceResult,
    CircuitError,
>)
    requires
        z1.wf(),
        z2.wf(),
    ensures
        r matches Ok(z) ==> z.wf() && z@ == zx_parallel_r(z1@, z2@) && zx_eq(
            z@,
            zx_parallel(z1@, z2@),
        ),
        (r is Ok) == zx_parallel_fits(z1@, z2@),
        r matches Err(e) ==> e == CircuitError::NumericOverflow,
{
    proof {
        lemma_zx_parallel_r_eq(z1@, z2@);
    }
    match (&z1, &z2) {
        (ImpedanceResult::Short, _) | (_, ImpedanceResult::Short) => Ok(ImpedanceResult::Short),
        (ImpedanceResult::Finite(z1_val), ImpedanceResult::Open) => Ok(
            ImpedanceResult::Finite(*z1_val),
        ),
        (ImpedanceResult::Open, ImpedanceResult::Finite(z2_val)) => Ok(
            ImpedanceResult::Finite(*z2_val),
        ),
        (ImpedanceResult::Open, ImpedanceResult::Open) => Ok(ImpedanceResult::Open),
        (ImpedanceResult::Finite(z1_val), ImpedanceResult::Finite(z2_val)) => {
            if z1_val.is_zero() || z2_val.is_zero() {
                Ok(ImpedanceResult::Short)
            } else {
                let y1 = match z1_val.inv() {
                    Some(y) => y,
                    None => {
                        return Err(CircuitError::NumericOverflow);
                    },
                };
                let y2 = match z2_val.inv() {
                    Some(y) => y,
                    None => {
                        return Err(CircuitError::NumericOverflow);
                    },
                };
                let s = match y1.add(&y2) {
                    Some(s) => s,
                    None => {
                        return Err(CircuitError::NumericOverflow);
                    },
                };
                if s.is_zero() {
                    Ok(ImpedanceResult::Open)
                } else {
                    match s.inv() {
                        Some(z) => Ok(ImpedanceResult::Finite(z)),
                        None => Err(CircuitError::NumericOverflow),
                    }
                }
            }
        },
    }
}

/// A well-formed impedance has a well-formed view.
pub proof fn lemma_views_wf(s: Seq<ImpedanceResult>)
    requires
        forall|i: int| 0 <= i < s.len() ==> (#[trigger] s[i]).wf(),
    ensures
        zx_views(s).len() == s.len(),
        seq_zx_wf(zx_views(s)),
        forall|i: int| 0 <= i < s.len() ==> zx_views(s)[i] == #[trigger] s[i]@,
{
    assert forall|i: int| 0 <= i < zx_views(s).len() implies zx_wf(#[trigger] zx_views(s)[i]) by {
        assert(s[i].wf());
    };
}

/// Combines a whole sequence of impedances in series: `Open` if any element
/// is `Open`, else the finite sum of the finite elements (`Short`s
/// contribute nothing), else `Short`. Fails only on arithmetic overflow.
pub fn combine_series_many(impedances: &[ImpedanceResult]) -> (r: Result<
    ImpedanceResult,
    CircuitError,
>)
    requires
        forall|i: int| 0 <= i < impedances@.len() ==> (#[trigger] impedances@[i]).wf(),
    ensures
        r matches Ok(z) ==> z.wf() && z@ == zx_series_many_r(zx_views(impedances@)) && zx_eq(
            z@,
            zx_series_many(zx_views(impedances@)),
        ),
        (r is Ok) == zx_series_many_fits(zx_views(impedances@)),
        r matches Err(e) ==> e == CircuitError::NumericOverflow,
{
    let ghost vs = zx_views(impedances@);
    proof {
        lemma_views_wf(impedances@);
    }
    let n = impedances.len();
    let mut i: usize = 0;
    while i < n
        invariant
            0 <= i <= n,
            n == impedances@.len(),
            vs == zx_views(impedances@),
            forall|j: int| 0 <= j < n ==> (#[trigger] impedances@[j]).wf(),
            forall|j: int| 0 <= j < n ==> vs[j] == #[trigger] impedances@[j]@,
            forall|j: int| 0 <= j < i ==> !(#[trigger] vs[j] is Open),
        decreases n - i,
    {
        if impedances[i].is_open() {
            assert(vs[i as int] is Open);
            return Ok(ImpedanceResult::Open);
        }
        i = i + 1;
    }
    assert(!zx_has_open(vs));
    let mut acc = Complex {
        re: Rational { num: 0, den: 1 },
        im: Rational { num: 0, den: 1 },
    };
    let mut got: bool = false;
    let mut i: usize = 0;
    while i < n
        invariant
            0 <= i <= n,
            n == impedances@.len(),
            vs == zx_views(impedances@),
            forall|j: int| 0 <= j < n ==> (#[trigger] impedances@[j]).wf(),
            forall|j: int| 0 <= j < n ==> vs[j] == #[trigger] impedances@[j]@,
            seq_zx_wf(vs),
            !zx_has_open(vs),
            acc.wf(),
            acc@ == fin_sum_r(vs.subrange(0, i as int)),
            got == zx_has_fin(vs.subrange(0, i as int)),
            fin_sum_fits(vs.subrange(0, i as int)),
        decreases n - i,
    {
        proof {
            assert(vs.subrange(0, i as int + 1).drop_last() =~= vs.subrange(0, i as int));
            assert(vs.subrange(0, i as int + 1).last() == vs[i as int]);
        }
        let ghost prev = vs.subrange(0, i as int);
        let ghost cur = vs.subrange(0, i as int + 1);
        match impedances[i] {
            ImpedanceResult::Finite(c) => {
                match acc.add(&c) {
                    Some(a2) => {
                        acc = a2;
                        got = true;
                        assert(zx_has_fin(cur)) by {
                            assert(cur[i as int] is Fin);
                        };
                    },
                    None => {
                        proof {
                            assert(!fin_sum_fits(cur));
                            if fin_sum_fits(vs) {
                                lemma_fin_sum_fits_prefix(vs, i as int + 1);
                            }
                        }
                        return Err(CircuitError::NumericOverflow);
                    },
                }
            },
            _ => {
                proof {
                    assert(got == zx_has_fin(cur)) by {
                        if zx_has_fin(cur) && !zx_has_fin(prev) {
                            let w = choose|k: int|
                                0 <= k < cur.len() && #[trigger] cur[k] is Fin;
                            assert(w == i as int);
                            assert(!(vs[i as int] is Fin));
                        }
                        if zx_has_fin(prev) {
                            let w = choose|k: int|
                                0 <= k < prev.len() && #[trigger] prev[k] is Fin;
                            assert(cur[w] is Fin);
                        }
                    };
                }
            },
        }
        i = i + 1;
    }
    proof {
        assert(vs.subrange(0, n as int) =~= vs);
        lemma_fin_sum_r_eq(vs);
    }
    if got {
        Ok(ImpedanceResult::Finite(acc))
    } else {
        Ok(ImpedanceResult::Short)
    }
}

/// With no finite element, the computed admittance sum is zero.
pub proof fn lemma_adm_sum_no_fin(s: Seq<Zx>)
    requires
        !zx_has_fin(s),
    ensures
        adm_sum_r(s) == cx_zero(),
    decreases s.len(),
{
    if s.len() != 0 {
        assert(!(s.last() is Fin)) by {
            if s.last() is Fin {
                assert(s[s.len() - 1] is Fin);
            }
        };
        assert(!zx_has_fin(s.drop_last())) by {
            if zx_has_fin(s.drop_last()) {
                let w = choose|k: int| 0 <= k < s.drop_last().len() && #[trigger] s.drop_last()[k] is Fin;
                assert(s[w] is Fin);
            }
        };
        lemma_adm_sum_no_fin(s.drop_last());
    }
}

/// Combines a whole sequence of impedances in parallel: `Short` if any
/// element is `Short` or a finite zero, else `Open` if no finite element
/// remains (or the admittances cancel exactly), else the reciprocal of the
/// admittance sum. Fails only on arithmetic overflow.
pub fn combine_parallel_many(impedances: &[ImpedanceResult]) -> (r: Result<
    ImpedanceResult,
    CircuitError,
>)
    requires
        forall|i: int| 0 <= i < impedances@.len() ==> (#[trigger] impedances@[i]).wf(),
    ensures
        r matches Ok(z) ==> z.wf() && z@ == zx_parallel_many_r(zx_views(impedances@)) && zx_eq(
            z@,
            zx_parallel_many(zx_views(impedances@)),
        ),
        (r is Ok) == zx_parallel_many_fits(zx_views(impedances@)),
        r matches Err(e) ==> e == CircuitError::NumericOverflow,
{
    let ghost vs = zx_views(impedances@);
    proof {
        lemma_views_wf(impedances@);
    }
    let n = impedances.len();
    let mut i: usize = 0;
    while i < n
        invariant
            0 <= i <= n,
            n == impedances@.len(),
            vs == zx_views(impedances@),
            forall|j: int| 0 <= j < n ==> (#[trigger] impedances@[j]).wf(),
            forall|j: int| 0 <= j < n ==> vs[j] == #[trigger] impedances@[j]@,
            forall|j: int|
                0 <= j < i ==> !(#[trigger] vs[j] is Short) && !(vs[j] matches Zx::Fin(c)
                    && cx_is_zero(c)),
        decreases n - i,
    {
        let short_here = match &impedances[i] {
            ImpedanceResult::Short => true,
            ImpedanceResult::Finite(c) => c.is_zero(),
            ImpedanceResult::Open => false,
        };
        if short_here {
            assert(zx_has_short_or_zero(vs)) by {
                assert((vs[i as int] is Short) || (vs[i as int] matches Zx::Fin(c) && cx_is_zero(
                    c,
                )));
            };
            return Ok(ImpedanceResult::Short);
        }
        i = i + 1;
    }
    assert(!zx_has_short_or_zero(vs));
    assert(zx_no_zero_fin(vs));
    let mut acc = Complex {
        re: Rational { num: 0, den: 1 },
        im: Rational { num: 0, den: 1 },
    };
    let mut got: bool = false;
    let mut i: usize = 0;
    while i < n
        invariant
            0 <= i <= n,
            n == impedances@.len(),
            vs == zx_views(impedances@),
            forall|j: int| 0 <= j < n ==> (#[trigger] impedances@[j]).wf(),
            forall|j: int| 0 <= j < n ==> vs[j] == #[trigger] impedances@[j]@,
            seq_zx_wf(vs),
            !zx_has_short_or_zero(vs),
            zx_no_zero_fin(vs),
            acc.wf(),
            acc@ == adm_sum_r(vs.subrange(0, i as int)),
            got == zx_has_fin(vs.subrange(0, i as int)),
            adm_sum_fits(vs.subrange(0, i as int)),
        decreases n - i,
    {
        proof {
            assert(vs.subrange(0, i as int + 1).drop_last() =~= vs.subrange(0, i as int));
            assert(vs.subrange(0, i as int + 1).last() == vs[i as int]);
        }
        let ghost prev = vs.subrange(0, i as int);
        let ghost cur = vs.subrange(0, i as int + 1);
        match impedances[i] {
            ImpedanceResult::Finite(c) => {
                assert(!(vs[i as int] matches Zx::Fin(c0) && cx_is_zero(c0)));
                let y = match c.inv() {
                    Some(y) => y,
                    None => {
                        proof {
                            assert(!adm_sum_fits(cur));
                            if adm_sum_fits(vs) {
                                lemma_adm_sum_fits_prefix(vs, i as int + 1);
                            }
                        }
                        return Err(CircuitError::NumericOverflow);
                    },
                };
                match acc.add(&y) {
                    Some(a2) => {
                        acc = a2;
                        got = true;
                        assert(zx_has_fin(cur)) by {
                            assert(cur[i as int] is Fin);
                        };
                    },
                    None => {
                        proof {
                            assert(!adm_sum_fits(cur));
                            if adm_sum_fits(vs) {
                                lemma_adm_sum_fits_prefix(vs, i as int + 1);
                            }
                        }
                        return Err(CircuitError::NumericOverflow);
                    },
                }
            },
            _ => {
                proof {
                    assert(got == zx_has_fin(cur)) by {
                        if zx_has_fin(cur) && !zx_has_fin(prev) {
                            let w = choose|k: int|
                                0 <= k < cur.len() && #[trigger] cur[k] is Fin;
                            assert(w == i as int);
                            assert(!(vs[i as int] is Fin));
                        }
                        if zx_has_fin(prev) {
                            let w = choose|k: int|
                                0 <= k < prev.len() && #[trigger] prev[k] is Fin;
                            assert(cur[w] is Fin);
                        }
                    };
                }
            },
        }
        i = i + 1;
    }
    proof {
        assert(vs.subrange(0, n as int) =~= vs);
        lemma_adm_sum_r_eq(vs);
    }
    if !got {
        proof {
            lemma_adm_sum_no_fin(vs);
        }
        return Ok(ImpedanceResult::Open);
    }
    if acc.is_zero() {
        proof {
            lemma_cx_eq_sign(adm_sum_r(vs), adm_sum(vs));
        }
        return Ok(ImpedanceResult::Open);
    }
    proof {
        lemma_cx_eq_sign(adm_sum_r(vs), adm_sum(vs));
        crate::rational::lemma_cx_inv_r(acc@);
        crate::rational::lemma_cx_inv_r(adm_sum(vs));
        lemma_cx_inv_congruence(adm_sum_r(vs), adm_sum(vs));
        lemma_cx_eq_trans(cx_inv_r(adm_sum_r(vs)), cx_inv(adm_sum_r(vs)), cx_inv(adm_sum(vs)));
    }
    match acc.inv() {
        Some(z) => Ok(ImpedanceResult::Finite(z)),
        None => Err(CircuitError::NumericOverflow),
    }
}

/// Model rational addition is commutative, as values.
pub proof fn lemma_rat_add_comm(a: Rat, b: Rat)
    ensures
        rat_add(a, b) == rat_add(b, a),
{
    vstd::arithmetic::mul::lemma_mul_is_commutative(a.d, b.d);
}

/// Model rational addition is associative, as values.
pub proof fn lemma_rat_add_assoc(a: Rat, b: Rat, c: Rat)
    ensures
        rat_add(a, rat_add(b, c)) == rat_add(rat_add(a, b), c),
{
    vstd::arithmetic::mul::lemma_mul_is_distributive_add_other_way(a.d, b.n * c.d, c.n * b.d);
    vstd::arithmetic::mul::lemma_mul_is_distributive_add_other_way(c.d, a.n * b.d, b.n * a.d);
    assert(a.n * (b.d * c.d) == (a.n * b.d) * c.d) by (nonlinear_arith);
    assert((b.n * c.d) * a.d == (b.n * a.d) * c.d) by (nonlinear_arith);
    assert((c.n * b.d) * a.d == c.n * (a.d * b.d)) by (nonlinear_arith);
    assert(a.d * (b.d * c.d) == (a.d * b.d) * c.d) by (nonlinear_arith);
}

/// Adding the complex zero changes nothing, structurally.
pub proof fn lemma_cx_add_zero(c: Cx)
    ensures
        cx_add(cx_zero(), c) == c,
{
    vstd::arithmetic::mul::lemma_mul_basics(c.re.n);
    vstd::arithmetic::mul::lemma_mul_basics(c.re.d);
    vstd::arithmetic::mul::lemma_mul_basics(c.im.n);
    vstd::arithmetic::mul::lemma_mul_basics(c.im.d);
}

/// Every impedance is its own `zx_eq` equal.
pub proof fn lemma_zx_eq_refl(a: Zx)
    ensures
        zx_eq(a, a),
{
}

/// Series combination is commutative.
///
/// Law: `series(a, b) = series(b, a)`, exactly.
pub proof fn lemma_series_commutative(a: Zx, b: Zx)
    requires
        zx_wf(a),
        zx_wf(b),
    ensures
        zx_eq(zx_series(a, b), zx_series(b, a)),
{
    if a is Fin && b is Fin {
        let x = a->Fin_0;
        let y = b->Fin_0;
        lemma_rat_add_comm(x.re, y.re);
        lemma_rat_add_comm(x.im, y.im);
    }
    lemma_zx_eq_refl(zx_series(a, b));
}

/// Parallel combination is commutative.
///
/// Law: `parallel(a, b) = parallel(b, a)`, exactly.
pub proof fn lemma_parallel_commutative(a: Zx, b: Zx)
    requires
        zx_wf(a),
        zx_wf(b),
    ensures
        zx_eq(zx_parallel(a, b), zx_parallel(b, a)),
{
    if a is Fin && b is Fin {
        let x = a->Fin_0;
        let y = b->Fin_0;
        if !cx_is_zero(x) && !cx_is_zero(y) {
            lemma_rat_add_comm(cx_inv(x).re, cx_inv(y).re);
            lemma_rat_add_comm(cx_inv(x).im, cx_inv(y).im);
            assert(cx_add(cx_inv(x), cx_inv(y)) == cx_add(cx_inv(y), cx_inv(x)));
        }
    }
    lemma_zx_eq_refl(zx_parallel(a, b));
}

/// Series combination is associative, exactly (no tolerance is needed: the
/// arithmetic is exact).
///
/// Law: `series(a, series(b, c)) = series(series(a, b), c)`.
pub proof fn lemma_series_associative(a: Zx, b: Zx, c: Zx)
    requires
        zx_wf(a),
        zx_wf(b),
        zx_wf(c),
    ensures
        zx_eq(zx_series(a, zx_series(b, c)), zx_series(zx_series(a, b), c)),
{
    if a is Fin && b is Fin && c is Fin {
        let x = a->Fin_0;
        let y = b->Fin_0;
        let z = c->Fin_0;
        lemma_rat_add_assoc(x.re, y.re, z.re);
        lemma_rat_add_assoc(x.im, y.im, z.im);
    }
    lemma_zx_eq_refl(zx_series(a, zx_series(b, c)));
}

/// Model complex addition is commutative, as values.
pub proof fn lemma_cx_add_comm(a: Cx, b: Cx)
    ensures
        cx_add(a, b) == cx_add(b, a),
{
    lemma_rat_add_comm(a.re, b.re);
    lemma_rat_add_comm(a.im, b.im);
}

/// Model complex addition is associative, as values.
pub proof fn lemma_cx_add_assoc(a: Cx, b: Cx, c: Cx)
    ensures
        cx_add(a, cx_add(b, c)) == cx_add(cx_add(a, b), c),
{
    lemma_rat_add_assoc(a.re, b.re, c.re);
    lemma_rat_add_assoc(a.im, b.im, c.im);
}

/// Adding a zero-valued complex number changes nothing, as values.
pub proof fn lemma_cx_add_zero_val(p: Cx, q: Cx)
    requires
        cx_wf(p),
        cx_wf(q),
        cx_is_zero(q),
    ensures
        cx_eq(cx_add(p, q), p),
{
    crate::rational::lemma_rat_add_zero_val(p.re, q.re);
    crate::rational::lemma_rat_add_zero_val(p.im, q.im);
}

/// Two complex numbers that cancel the same value are equal.
pub proof fn lemma_cx_add_cancel_same(p: Cx, q: Cx, r: Cx)
    requires
        cx_wf(p),
        cx_wf(q),
        cx_wf(r),
        cx_is_zero(cx_add(p, q)),
        cx_is_zero(cx_add(r, q)),
    ensures
        cx_eq(p, r),
{
    crate::rational::lemma_rat_add_cancel_same(p.re, q.re, r.re);
    crate::rational::lemma_rat_add_cancel_same(p.im, q.im, r.im);
}

/// Parallel combination is associative, exactly, on operands that are not
/// finite zeros.
///
/// Law: `parallel(a, parallel(b, c)) = parallel(parallel(a, b), c)`. The
/// restriction is necessary: with a finite zero the law fails, for example
/// on `Finite(0)`, `Finite(j)`, `Finite(-j)`, where one grouping is
/// `Finite(0)` and the other is `Short`.
pub proof fn lemma_parallel_associative(a: Zx, b: Zx, c: Zx)
    requires
        zx_wf(a),
        zx_wf(b),
        zx_wf(c),
        !(a matches Zx::Fin(x) && cx_is_zero(x)),
        !(b matches Zx::Fin(y) && cx_is_zero(y)),
        !(c matches Zx::Fin(z) && cx_is_zero(z)),
    ensures
        zx_eq(zx_parallel(a, zx_parallel(b, c)), zx_parallel(zx_parallel(a, b), c)),
{
    lemma_zx_eq_refl(zx_parallel(a, zx_parallel(b, c)));
    lemma_zx_eq_refl(zx_parallel(zx_parallel(a, b), c));
    if a is Fin && b is Fin && c is Fin {
        let x = a->Fin_0;
        let y = b->Fin_0;
        let z = c->Fin_0;
        crate::rational::lemma_cx_inv_r(x);
        crate::rational::lemma_cx_inv_r(y);
        crate::rational::lemma_cx_inv_r(z);
        let u = cx_inv(x);
        let v = cx_inv(y);
        let w = cx_inv(z);
        let sbc = cx_add(v, w);
        let sab = cx_add(u, v);
        lemma_cx_add_r_eq(v, w);
        lemma_cx_add_r_eq(u, v);
        lemma_cx_add_assoc(u, v, w);
        let t = cx_add(u, sbc);
        lemma_cx_add_r_eq(u, sbc);
        lemma_cx_add_r_eq(sab, w);
        assert(t == cx_add(sab, w));
        crate::rational::lemma_cx_inv_involution(x);
        crate::rational::lemma_cx_inv_involution(y);
        crate::rational::lemma_cx_inv_involution(z);
        if cx_is_zero(sbc) {
            assert(zx_parallel(b, c) == Zx::Open);
            assert(zx_parallel(a, zx_parallel(b, c)) == Zx::Fin(x));
            lemma_cx_add_zero_val(u, sbc);
            // t ~ u, which is non-zero
            lemma_cx_eq_sign(t, u);
            if cx_is_zero(sab) {
                // v cancels both u and w, so u ~ w and hence x ~ z
                lemma_cx_add_comm(v, w);
                assert(cx_is_zero(cx_add(w, v)));
                lemma_cx_add_cancel_same(u, v, w);
                crate::rational::lemma_cx_inv_r(u);
                crate::rational::lemma_cx_inv_r(w);
                lemma_cx_inv_congruence(u, w);
                lemma_cx_eq_trans(cx_inv(u), cx_inv(w), z);
                assert(cx_eq(x, cx_inv(u)));
                lemma_cx_eq_trans(x, cx_inv(u), z);
                assert(zx_parallel(zx_parallel(a, b), c) == Zx::Fin(z));
            } else {
                let iab = cx_inv(sab);
                crate::rational::lemma_cx_inv_r(sab);
                crate::rational::lemma_cx_inv_r(iab);
                crate::rational::lemma_cx_inv_involution(sab);
                let sr = cx_add(cx_inv(iab), w);
                lemma_cx_add_r_eq(cx_inv(iab), w);
                lemma_cx_add_congruence(cx_inv(iab), w, sab, w);
                lemma_cx_eq_trans(sr, cx_add(sab, w), u);
                lemma_cx_eq_sign(sr, u);
                assert(!cx_is_zero(sr));
                assert(zx_parallel(zx_parallel(a, b), c) == Zx::Fin(cx_inv(sr)));
                lemma_cx_inv_congruence(sr, u);
                crate::rational::lemma_cx_inv_r(sr);
                crate::rational::lemma_cx_inv_r(u);
                lemma_cx_eq_trans(cx_inv(sr), cx_inv(u), x);
                assert(cx_eq(x, cx_inv(sr)));
            }
        } else {
            let ibc = cx_inv(sbc);
            crate::rational::lemma_cx_inv_r(sbc);
            crate::rational::lemma_cx_inv_r(ibc);
            crate::rational::lemma_cx_inv_involution(sbc);
            assert(zx_parallel(b, c) == Zx::Fin(ibc));
            let sl = cx_add(u, cx_inv(ibc));
            lemma_cx_add_r_eq(u, cx_inv(ibc));
            lemma_cx_add_congruence(u, cx_inv(ibc), u, sbc);
            // sl ~ t
            assert(cx_eq(sl, t));
            if cx_is_zero(sab) {
                assert(zx_parallel(a, b) == Zx::Open);
                assert(zx_parallel(zx_parallel(a, b), c) == Zx::Fin(z));
                lemma_cx_add_comm(sab, w);
                lemma_cx_add_zero_val(w, sab);
                lemma_cx_eq_trans(sl, cx_add(sab, w), cx_add(w, sab));
                lemma_cx_eq_trans(sl, cx_add(w, sab), w);
                lemma_cx_eq_sign(sl, w);
                assert(!cx_is_zero(sl));
                assert(zx_parallel(a, zx_parallel(b, c)) == Zx::Fin(cx_inv(sl)));
                lemma_cx_inv_congruence(sl, w);
                crate::rational::lemma_cx_inv_r(sl);
                crate::rational::lemma_cx_inv_r(w);
                lemma_cx_eq_trans(cx_inv(sl), cx_inv(w), z);
            } else {
                let iab = cx_inv(sab);
                crate::rational::lemma_cx_inv_r(sab);
                crate::rational::lemma_cx_inv_r(iab);
                crate::rational::lemma_cx_inv_involution(sab);
                let sr = cx_add(cx_inv(iab), w);
                lemma_cx_add_r_eq(cx_inv(iab), w);
                lemma_cx_add_congruence(cx_inv(iab), w, sab, w);
                // sr ~ t ~ sl
                assert(cx_eq(sr, t));
                lemma_cx_eq_sign(sl, t);
                lemma_cx_eq_sign(sr, t);
                if cx_is_zero(t) {
                    assert(zx_parallel(a, zx_parallel(b, c)) == Zx::Open);
                    assert(zx_parallel(zx_parallel(a, b), c) == Zx::Open);
                } else {
                    assert(zx_parallel(a, zx_parallel(b, c)) == Zx::Fin(cx_inv(sl)));
                    assert(zx_parallel(zx_parallel(a, b), c) == Zx::Fin(cx_inv(sr)));
                    crate::rational::lemma_cx_inv_r(sl);
                    crate::rational::lemma_cx_inv_r(sr);
                    crate::rational::lemma_cx_inv_r(t);
                    lemma_cx_inv_congruence(sl, t);
                    lemma_cx_inv_congruence(sr, t);
                    lemma_cx_eq_trans(cx_inv(sl), cx_inv(t), cx_inv(sr));
                }
            }
        }
    }
}

/// `Short` is the two-sided identity of series combination.
///
/// Law: `series(a, Short) = a` and `series(Short, a) = a`, structurally.
pub proof fn lemma_series_identity(a: Zx)
    ensures
        zx_series(a, Zx::Short) == a,
        zx_series(Zx::Short, a) == a,
{
}

/// `Open` is the two-sided identity of parallel combination.
///
/// Law: `parallel(a, Open) = a` and `parallel(Open, a) = a`, structurally.
pub proof fn lemma_parallel_identity(a: Zx)
    ensures
        zx_parallel(a, Zx::Open) == a,
        zx_parallel(Zx::Open, a) == a,
{
}

/// `Open` is the two-sided absorber of series combination.
///
/// Law: `series(a, Open) = Open` and `series(Open, a) = Open`.
pub proof fn lemma_series_annihilator(a: Zx)
    ensures
        zx_series(a, Zx::Open) == Zx::Open,
        zx_series(Zx::Open, a) == Zx::Open,
{
}

/// `Short` is the two-sided absorber of parallel combination.
///
/// Law: `parallel(a, Short) = Short` and `parallel(Short, a) = Short`.
pub proof fn lemma_parallel_annihilator(a: Zx)
    ensures
        zx_parallel(a, Zx::Short) == Zx::Short,
        zx_parallel(Zx::Short, a) == Zx::Short,
{
}

/// A series combination of a sequence with any `Open` element is `Open`.
pub proof fn lemma_series_many_open(s: Seq<Zx>)
    requires
        zx_has_open(s),
    ensures
        zx_series_many(s) == Zx::Open,
        zx_series_many_r(s) == Zx::Open,
{
}

/// A parallel combination of a sequence with any `Short` element is `Short`.
pub proof fn lemma_parallel_many_short(s: Seq<Zx>, i: int)
    requires
        0 <= i < s.len(),
        s[i] is Short,
    ensures
        zx_parallel_many(s) == Zx::Short,
        zx_parallel_many_r(s) == Zx::Short,
{
    assert(zx_has_short_or_zero(s)) by {
        assert((s[i] is Short) || (s[i] matches Zx::Fin(c) && cx_is_zero(c)));
    };
}

/// Series combination preserves passivity: if both operands have a
/// non-negative real part (or are `Open`/`Short`), so does the result.
pub proof fn lemma_series_passive(a: Zx, b: Zx)
    requires
        zx_wf(a),
        zx_wf(b),
        zx_passive(a),
        zx_passive(b),
    ensures
        zx_passive(zx_series(a, b)),
{
    if a is Fin && b is Fin {
        crate::rational::lemma_rat_add_sign(a->Fin_0.re, b->Fin_0.re);
    }
}

/// Parallel combination preserves passivity.
pub proof fn lemma_parallel_passive(a: Zx, b: Zx)
    requires
        zx_wf(a),
        zx_wf(b),
        zx_passive(a),
        zx_passive(b),
    ensures
        zx_passive(zx_parallel(a, b)),
{
    if a is Fin && b is Fin {
        let x = a->Fin_0;
        let y = b->Fin_0;
        if !cx_is_zero(x) && !cx_is_zero(y) {
            crate::rational::lemma_cx_inv_r(x);
            crate::rational::lemma_cx_inv_r(y);
            crate::rational::lemma_rat_add_sign(cx_inv(x).re, cx_inv(y).re);
            lemma_cx_add_r_eq(cx_inv(x), cx_inv(y));
            let s = cx_add(cx_inv(x), cx_inv(y));
            if !cx_is_zero(s) {
                crate::rational::lemma_cx_inv_r(s);
            }
        }
    }
}

/// Every element of the sequence is passive.
pub open spec fn zx_all_passive(s: Seq<Zx>) -> bool {
    forall|i: int| 0 <= i < s.len() ==> zx_passive(#[trigger] s[i])
}

/// The sum of the finite elements of a passive sequence has a non-negative
/// real part.
pub proof fn lemma_fin_sum_passive(s: Seq<Zx>)
    requires
        seq_zx_wf(s),
        zx_all_passive(s),
    ensures
        cx_wf(fin_sum(s)),
        rat_nonneg(fin_sum(s).re),
    decreases s.len(),
{
    if s.len() != 0 {
        assert(seq_zx_wf(s.drop_last()) && zx_all_passive(s.drop_last())) by {
            assert forall|j: int| 0 <= j < s.drop_last().len() implies zx_wf(
                #[trigger] s.drop_last()[j],
            ) && zx_passive(s.drop_last()[j]) by {
                assert(s.drop_last()[j] == s[j]);
            };
        };
        lemma_fin_sum_passive(s.drop_last());
        if s.last() is Fin {
            assert(zx_wf(s[s.len() - 1]) && zx_passive(s[s.len() - 1]));
            crate::rational::lemma_rat_add_sign(fin_sum(s.drop_last()).re, s.last()->Fin_0.re);
            crate::rational::lemma_rat_add_congruence(
                fin_sum(s.drop_last()).im,
                s.last()->Fin_0.im,
                fin_sum(s.drop_last()).im,
                s.last()->Fin_0.im,
            );
        }
    }
}

/// The admittance sum of a passive sequence without zero finite elements
/// has a non-negative real part.
pub proof fn lemma_adm_sum_passive(s: Seq<Zx>)
    requires
        seq_zx_wf(s),
        zx_all_passive(s),
        zx_no_zero_fin(s),
    ensures
        cx_wf(adm_sum(s)),
        rat_nonneg(adm_sum(s).re),
    decreases s.len(),
{
    if s.len() != 0 {
        assert(seq_zx_wf(s.drop_last()) && zx_all_passive(s.drop_last()) && zx_no_zero_fin(
            s.drop_last(),
        )) by {
            assert forall|j: int| 0 <= j < s.drop_last().len() implies zx_wf(
                #[trigger] s.drop_last()[j],
            ) && zx_passive(s.drop_last()[j]) && !(s.drop_last()[j] matches Zx::Fin(c)
                && cx_is_zero(c)) by {
                assert(s.drop_last()[j] == s[j]);
            };
        };
        lemma_adm_sum_passive(s.drop_last());
        if s.last() is Fin {
            let c = s.last()->Fin_0;
            assert(zx_wf(s[s.len() - 1]) && zx_passive(s[s.len() - 1]));
            assert(!(s[s.len() - 1] matches Zx::Fin(c0) && cx_is_zero(c0)));
            crate::rational::lemma_cx_inv_r(c);
            crate::rational::lemma_rat_add_sign(adm_sum(s.drop_last()).re, cx_inv(c).re);
            crate::rational::lemma_rat_add_congruence(
                adm_sum(s.drop_last()).im,
                cx_inv(c).im,
                adm_sum(s.drop_last()).im,
                cx_inv(c).im,
            );
        }
    }
}

/// Series combination of a whole passive sequence is passive.
pub proof fn lemma_series_many_passive(s: Seq<Zx>)
    requires
        seq_zx_wf(s),
        zx_all_passive(s),
    ensures
        zx_wf(zx_series_many(s)),
        zx_passive(zx_series_many(s)),
{
    lemma_fin_sum_passive(s);
}

/// Parallel combination of a whole passive sequence is passive.
pub proof fn lemma_parallel_many_passive(s: Seq<Zx>)
    requires
        seq_zx_wf(s),
        zx_all_passive(s),
    ensures
        zx_wf(zx_parallel_many(s)),
        zx_passive(zx_parallel_many(s)),
{
    if !zx_has_short_or_zero(s) && zx_has_fin(s) {
        assert(zx_no_zero_fin(s)) by {
            assert forall|j: int|
                0 <= j < s.len() implies !(#[trigger] s[j] matches Zx::Fin(c) && cx_is_zero(
                c,
            )) by {
                if s[j] matches Zx::Fin(c) && cx_is_zero(c) {
                    assert(zx_has_short_or_zero(s));
                }
            };
        };
        lemma_adm_sum_passive(s);
        let y = adm_sum(s);
        if !cx_is_zero(y) {
            crate::rational::lemma_cx_inv_r(y);
        }
    }
}

/// Every element is a finite, purely real, positive impedance (the model of
/// a bank of resistors).
pub open spec fn zx_all_fin_pos_real(s: Seq<Zx>) -> bool {
    forall|i: int|
        0 <= i < s.len() ==> (#[trigger] s[i] matches Zx::Fin(c) && cx_wf(c)
            && crate::rational::rat_is_zero(c.im) && rat_is_pos(c.re))
}

/// A pure series chain of resistances reduces to one finite impedance: the
/// sum of the values, again purely real and positive.
pub proof fn lemma_series_chain_sum(s: Seq<Zx>)
    requires
        seq_zx_wf(s),
        zx_all_fin_pos_real(s),
        s.len() > 0,
    ensures
        zx_series_many(s) == Zx::Fin(fin_sum(s)),
        cx_wf(fin_sum(s)),
        crate::rational::rat_is_zero(fin_sum(s).im),
        rat_is_pos(fin_sum(s).re),
    decreases s.len(),
{
    assert(s[0] is Fin);
    assert(!zx_has_open(s)) by {
        if zx_has_open(s) {
            let w = choose|k: int| 0 <= k < s.len() && #[trigger] s[k] is Open;
            assert(s[w] is Fin);
        }
    };
    if s.len() == 1 {
        assert(s.drop_last().len() == 0);
        assert(zx_wf(s[0]) && (s[0] matches Zx::Fin(c) && crate::rational::rat_is_zero(c.im)
            && rat_is_pos(c.re)));
        lemma_cx_add_zero(s.last()->Fin_0);
        assert(fin_sum(s.drop_last()) == cx_zero());
        assert(fin_sum(s) == cx_add(cx_zero(), s.last()->Fin_0));
        assert(fin_sum(s) == s.last()->Fin_0);
        assert(cx_wf(fin_sum(s)));
        assert(crate::rational::rat_is_zero(fin_sum(s).im));
    } else {
        assert(seq_zx_wf(s.drop_last()) && zx_all_fin_pos_real(s.drop_last())) by {
            assert forall|j: int| 0 <= j < s.drop_last().len() implies zx_wf(
                #[trigger] s.drop_last()[j],
            ) && (s.drop_last()[j] matches Zx::Fin(c) && cx_wf(c) && crate::rational::rat_is_zero(
                c.im,
            ) && rat_is_pos(c.re)) by {
                assert(s.drop_last()[j] == s[j]);
            };
        };
        lemma_series_chain_sum(s.drop_last());
        let c = s.last()->Fin_0;
        assert(s[s.len() - 1] matches Zx::Fin(c0) && cx_wf(c0) && crate::rational::rat_is_zero(
            c0.im,
        ) && rat_is_pos(c0.re));
        crate::rational::lemma_rat_add_sign(fin_sum(s.drop_last()).re, c.re);
        vstd::arithmetic::mul::lemma_mul_strictly_positive(fin_sum(s.drop_last()).im.d, c.im.d);
        assert(rat_add(fin_sum(s.drop_last()).im, c.im).n == 0) by (nonlinear_arith)
            requires
                fin_sum(s.drop_last()).im.n == 0,
                c.im.n == 0,
        ;
    }
}

/// The admittance sum of a bank of positive real impedances is purely real
/// and positive.
pub proof fn lemma_adm_sum_pos_real(s: Seq<Zx>)
    requires
        seq_zx_wf(s),
        zx_all_fin_pos_real(s),
        s.len() > 0,
    ensures
        cx_wf(adm_sum(s)),
        crate::rational::rat_is_zero(adm_sum(s).im),
        rat_is_pos(adm_sum(s).re),
    decreases s.len(),
{
    let c = s.last()->Fin_0;
    assert(s[s.len() - 1] matches Zx::Fin(c0) && cx_wf(c0) && crate::rational::rat_is_zero(c0.im)
        && rat_is_pos(c0.re));
    assert(!cx_is_zero(c));
    crate::rational::lemma_cx_inv_r(c);
    let n2 = crate::rational::cx_norm2(c);
    crate::rational::lemma_cx_norm2_pos(c);
    crate::rational::lemma_rat_inv(n2);
    crate::rational::lemma_rat_mul_pos_sign(c.re, crate::rational::rat_inv(n2));
    crate::rational::lemma_rat_mul_pos_sign(
        crate::rational::rat_neg(c.im),
        crate::rational::rat_inv(n2),
    );
    assert(rat_is_pos(cx_inv(c).re));
    assert(crate::rational::rat_is_zero(cx_inv(c).im));
    if s.len() == 1 {
        assert(s.drop_last().len() == 0);
        lemma_cx_add_zero(cx_inv(c));
        assert(adm_sum(s.drop_last()) == cx_zero());
        assert(adm_sum(s) == cx_add(cx_zero(), cx_inv(c)));
        assert(adm_sum(s) == cx_inv(c));
    } else {
        assert(seq_zx_wf(s.drop_last()) && zx_all_fin_pos_real(s.drop_last())) by {
            assert forall|j: int| 0 <= j < s.drop_last().len() implies zx_wf(
                #[trigger] s.drop_last()[j],
            ) && (s.drop_last()[j] matches Zx::Fin(c1) && cx_wf(c1) && crate::rational::rat_is_zero(
                c1.im,
            ) && rat_is_pos(c1.re)) by {
                assert(s.drop_last()[j] == s[j]);
            };
        };
        lemma_adm_sum_pos_real(s.drop_last());
        crate::rational::lemma_rat_add_sign(adm_sum(s.drop_last()).re, cx_inv(c).re);
        vstd::arithmetic::mul::lemma_mul_strictly_positive(adm_sum(s.drop_last()).im.d, cx_inv(c).im.d);
        assert(rat_add(adm_sum(s.drop_last()).im, cx_inv(c).im).n == 0) by (nonlinear_arith)
            requires
                adm_sum(s.drop_last()).im.n == 0,
                cx_inv(c).im.n == 0,
        ;
    }
}

/// A pure parallel bank of resistances reduces to one finite impedance: the
/// reciprocal of the sum of the reciprocals, again purely real and positive.
pub proof fn lemma_parallel_bank_sum(s: Seq<Zx>)
    requires
        seq_zx_wf(s),
        zx_all_fin_pos_real(s),
        s.len() > 0,
    ensures
        zx_parallel_many(s) == Zx::Fin(cx_inv(adm_sum(s))),
        crate::rational::rat_is_zero(cx_inv(adm_sum(s)).im),
        rat_is_pos(cx_inv(adm_sum(s)).re),
{
    assert(s[0] is Fin);
    assert(!zx_has_short_or_zero(s)) by {
        if zx_has_short_or_zero(s) {
            let w = choose|k: int|
                0 <= k < s.len() && ((#[trigger] s[k] is Short) || (s[k] matches Zx::Fin(c)
                    && cx_is_zero(c)));
            assert(s[w] matches Zx::Fin(c) && cx_wf(c) && crate::rational::rat_is_zero(c.im)
                && rat_is_pos(c.re));
        }
    };
    lemma_adm_sum_pos_real(s);
    let y = adm_sum(s);
    assert(!cx_is_zero(y));
    crate::rational::lemma_cx_inv_r(y);
    let n2 = crate::rational::cx_norm2(y);
    crate::rational::lemma_cx_norm2_pos(y);
    crate::rational::lemma_rat_inv(n2);
    crate::rational::lemma_rat_mul_pos_sign(y.re, crate::rational::rat_inv(n2));
    crate::rational::lemma_rat_mul_pos_sign(
        crate::rational::rat_neg(y.im),
        crate::rational::rat_inv(n2),
    );
}

} // verus!
