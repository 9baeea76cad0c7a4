//! Circuit elements and their impedance at a given angular frequency.

use vstd::prelude::*;

verus! {

use crate::errors::CircuitError;
use crate::rational::Cx;
use crate::rational::Rat;
use crate::rational::Rational;
use crate::rational::rat_eq;
use crate::rational::rat_inv;
use crate::rational::rat_is_pos;
use crate::rational::rat_is_zero;
use crate::rational::rat_lt;
use crate::rational::rat_mul;
use crate::rational::rat_neg;
use crate::rational::rat_one;
use crate::rational::rat_wf;
use crate::rational::reduced_fits;
use crate::units::AngularFrequency;
use crate::units::Capacitance;
use crate::units::Current;
use crate::units::ImpedanceResult;
use crate::units::Inductance;
use crate::units::Resistance;
use crate::units::Value;
use crate::units::Voltage;
use crate::units::Zx;
use crate::units::zx_eq;

/// A two-terminal circuit element.
#[derive(Debug, Clone, PartialEq)]
pub enum ComponentKind {
    Resistor { r: Resistance },
    Inductor { l: Inductance },
    Capacitor { c: Capacitance },
    Impedance { z: ImpedanceResult },
    VoltageSource { v: Voltage },
    CurrentSource { i: Current },
}

/// The angular frequency below which a capacitor is treated as at DC:
/// `10^-12` radians per second.
pub open spec fn dc_threshold() -> Rat {
    Rat { n: 1, d: 0x000000e8d4a51000 }
}

/// The impedance of an element at angular frequency `omega`, on the model
/// domain. An element with a symbolic (unknown) value has no numeric
/// realization and is `Open`; ideal sources are zero-impedance branches
/// (`Short`) for topological reduction.
pub open spec fn spec_impedance(kind: ComponentKind, omega: Rat) -> Zx {
    match kind {
        ComponentKind::Resistor { r } => match r.0 {
            Value::Known(rv) => Zx::Fin(Cx { re: rv@, im: Rat { n: 0, d: 1 } }),
            Value::Unknown(_) => Zx::Open,
        },
        ComponentKind::Inductor { l } => match l.0 {
            Value::Known(lv) => {
                if rat_is_zero(omega) {
                    Zx::Short
                } else {
                    Zx::Fin(Cx { re: Rat { n: 0, d: 1 }, im: rat_mul(omega, lv@) })
                }
            },
            Value::Unknown(_) => Zx::Open,
        },
        ComponentKind::Capacitor { c } => match c.0 {
            Value::Known(cv) => {
                if rat_lt(omega, dc_threshold()) {
                    Zx::Open
                } else {
                    Zx::Fin(
                        Cx {
                            re: Rat { n: 0, d: 1 },
                            im: rat_neg(rat_inv(rat_mul(omega, cv@))),
                        },
                    )
                }
            },
            Value::Unknown(_) => Zx::Open,
        },
        ComponentKind::Impedance { z } => z@,
        ComponentKind::VoltageSource { .. } => Zx::Short,
        ComponentKind::CurrentSource { .. } => Zx::Short,
    }
}

/// Whether computing the impedance stays within the machine representation.
pub open spec fn spec_impedance_fits(kind: ComponentKind, omega: Rat) -> bool {
    match kind {
        ComponentKind::Inductor { l } => match l.0 {
            Value::Known(lv) => rat_is_zero(omega) || reduced_fits(rat_mul(omega, lv@)),
            Value::Unknown(_) => true,
        },
        ComponentKind::Capacitor { c } => match c.0 {
            Value::Known(cv) => rat_lt(omega, dc_threshold()) || reduced_fits(
                rat_mul(omega, cv@),
            ),
            Value::Unknown(_) => true,
        },
        _ => true,
    }
}

/// The element participates in reduction: resistors, inductors, capacitors,
/// and opaque impedances with a finite value. Sources are not passive.
pub open spec fn kind_is_passive(kind: ComponentKind) -> bool {
    match kind {
        ComponentKind::Resistor { .. } => true,
        ComponentKind::Inductor { .. } => true,
        ComponentKind::Capacitor { .. } => true,
        ComponentKind::Impedance { z } => z@ is Fin,
        ComponentKind::VoltageSource { .. } => false,
        ComponentKind::CurrentSource { .. } => false,
    }
}

impl ComponentKind {
    /// Representation invariant.
    pub open spec fn wf(&self) -> bool {
        match self {
            ComponentKind::Resistor { r } => r.wf(),
            ComponentKind::Inductor { l } => l.wf(),
            ComponentKind::Capacitor { c } => c.wf(),
            ComponentKind::Impedance { z } => z.wf(),
            ComponentKind::VoltageSource { v } => v.wf(),
            ComponentKind::CurrentSource { i } => i.wf(),
        }
    }

    /// The impedance of this element at `omega`. Fails only on arithmetic
    /// overflow.
    pub fn impedance(&self, omega: AngularFrequency) -> (res: Result<
        ImpedanceResult,
        CircuitError,
    >)
        requires
            self.wf(),
            omega.wf(),
        ensures
            res matches Ok(z) ==> z.wf() && zx_eq(z@, spec_impedance(*self, omega@)),
            (res is Ok) == spec_impedance_fits(*self, omega@),
            res matches Err(e) ==> e == CircuitError::NumericOverflow,
    {
        match self {
            ComponentKind::Resistor { r } => match r.value() {
                Some(r_val) => {
                    let z = ImpedanceResult::Finite(
                        crate::rational::Complex::new(r_val, Rational { num: 0, den: 1 }),
                    );
                    proof {
                        crate::units::lemma_zx_eq_refl(z@);
                    }
                    Ok(z)
                },
                None => Ok(ImpedanceResult::Open),
            },
            ComponentKind::Inductor { l } => match l.value() {
                Some(l_val) => {
                    let w = omega.get();
                    if w.is_zero() {
                        Ok(ImpedanceResult::Short)
                    } else {
                        match w.mul(&l_val) {
                            Some(im) => {
                                proof {
                                    vstd::arithmetic::mul::lemma_mul_strictly_positive(
                                        omega@.d,
                                        l_val@.d,
                                    );
                                    crate::rational::lemma_rat_reduced_eq(
                                        rat_mul(omega@, l_val@),
                                    );
                                }
                                Ok(
                                    ImpedanceResult::Finite(
                                        crate::rational::Complex::new(
                                            Rational { num: 0, den: 1 },
                                            im,
                                        ),
                                    ),
                                )
                            },
                            None => Err(CircuitError::NumericOverflow),
                        }
                    }
                },
                None => Ok(ImpedanceResult::Open),
            },
            ComponentKind::Capacitor { c } => match c.value() {
                Some(c_val) => {
                    let w = omega.get();
                    let threshold = Rational { num: 1, den: 1_000_000_000_000 };
                    if w.lt(&threshold) {
                        Ok(ImpedanceResult::Open)
                    } else {
                        match w.mul(&c_val) {
                            Some(m) => {
                                proof {
                                    let exact = rat_mul(omega@, c_val@);
                                    vstd::arithmetic::mul::lemma_mul_strictly_positive(
                                        omega@.d,
                                        c_val@.d,
                                    );
                                    crate::rational::lemma_rat_reduced_eq(exact);
                                    // `omega >= threshold > 0` and the capacitance is
                                    // positive, so the product is non-zero
                                    assert(rat_is_pos(omega@)) by (nonlinear_arith)
                                        requires
                                            !(omega@.n * dc_threshold().d < dc_threshold().n
                                                * omega@.d),
                                            omega@.d > 0,
                                            dc_threshold().d > 0,
                                            dc_threshold().n == 1,
                                    ;
                                    crate::rational::lemma_rat_mul_pos_sign(omega@, c_val@);
                                    crate::rational::lemma_rat_eq_sign(m@, exact);
                                    crate::rational::lemma_rat_inv(m@);
                                    crate::rational::lemma_rat_inv(exact);
                                    crate::rational::lemma_rat_inv_congruence(m@, exact);
                                    crate::rational::lemma_rat_neg_congruence(
                                        rat_inv(m@),
                                        rat_inv(exact),
                                    );
                                }
                                let im = m.inv().neg();
                                Ok(
                                    ImpedanceResult::Finite(
                                        crate::rational::Complex::new(
                                            Rational { num: 0, den: 1 },
                                            im,
                                        ),
                                    ),
                                )
                            },
                            None => Err(CircuitError::NumericOverflow),
                        }
                    }
                },
                None => Ok(ImpedanceResult::Open),
            },
            ComponentKind::Impedance { z } => {
                let out = *z;
                proof {
                    crate::units::lemma_zx_eq_refl(out@);
                }
                Ok(out)
            },
            ComponentKind::VoltageSource { .. } => Ok(ImpedanceResult::Short),
            ComponentKind::CurrentSource { .. } => Ok(ImpedanceResult::Short),
        }
    }

    /// Whether this element participates in reduction.
    pub fn is_passive(&self) -> (r: bool)
        ensures
            r == kind_is_passive(*self),
    {
        match self {
            ComponentKind::Resistor { .. } => true,
            ComponentKind::Inductor { .. } => true,
            ComponentKind::Capacitor { .. } => true,
            ComponentKind::Impedance { z } => z.is_finite(),
            ComponentKind::VoltageSource { .. } => false,
            ComponentKind::CurrentSource { .. } => false,
        }
    }

    /// Whether this element is an ideal source.
    pub fn is_source(&self) -> (r: bool)
        ensures
            r == (self matches ComponentKind::VoltageSource { .. } || self
                matches ComponentKind::CurrentSource { .. }),
    {
        matches!(self, ComponentKind::VoltageSource { .. } | ComponentKind::CurrentSource { .. })
    }
}

/// The imaginary part is within the folding band: less than `10^-12` in
/// magnitude, so the value counts as purely real for materialization.
pub open spec fn in_real_band(c: crate::rational::Cx) -> bool {
    rat_lt(crate::rational::rat_abs(c.im), dc_threshold())
}

/// Materialization fails exactly on a value in the real band with a
/// negative real part: no valid resistance exists for it.
pub open spec fn spec_materialize_fails(z: ImpedanceResult) -> bool {
    match z {
        ImpedanceResult::Finite(c) => in_real_band(c@) && !crate::rational::rat_nonneg(c@.re),
        _ => false,
    }
}

/// The element an impedance materializes to (meaningful when
/// materialization does not fail): a resistor for a value in the real band
/// with a positive real part, an opaque impedance element otherwise.
pub open spec fn spec_materialized_kind(z: ImpedanceResult) -> ComponentKind {
    match z {
        ImpedanceResult::Finite(c) => {
            if in_real_band(c@) && rat_is_pos(c@.re) {
                ComponentKind::Resistor { r: Resistance(Value::Known(c.re)) }
            } else {
                ComponentKind::Impedance { z }
            }
        },
        _ => ComponentKind::Impedance { z },
    }
}

/// Materializes an equivalent impedance as an element. A finite value whose
/// imaginary part is below `10^-12` in magnitude counts as purely real:
/// with a positive real part it becomes a resistor (the imaginary residue
/// is dropped), with a negative real part it is a rewrite error. Everything
/// else — including `Open`, `Short` and a finite zero — becomes an opaque
/// impedance element.
pub fn impedance_to_kind(z: ImpedanceResult) -> (res: Result<ComponentKind, CircuitError>)
    requires
        z.wf(),
    ensures
        (res is Err) == spec_materialize_fails(z),
        res matches Ok(k) ==> k == spec_materialized_kind(z) && k.wf(),
        res matches Err(e) ==> (z matches ImpedanceResult::Finite(c) && e
            == CircuitError::InvalidResistance(c.re)),
{
    match z {
        ImpedanceResult::Finite(c) => {
            let band = Rational { num: 1, den: 1_000_000_000_000 };
            let abs_im = if c.im.is_nonneg() {
                c.im
            } else {
                c.im.neg()
            };
            if abs_im.lt(&band) {
                if c.re.is_pos() {
                    Ok(ComponentKind::Resistor { r: Resistance(Value::Known(c.re)) })
                } else if c.re.is_zero() {
                    Ok(ComponentKind::Impedance { z })
                } else {
                    Err(CircuitError::InvalidResistance(c.re))
                }
            } else {
                Ok(ComponentKind::Impedance { z })
            }
        },
        ImpedanceResult::Open => Ok(ComponentKind::Impedance { z }),
        ImpedanceResult::Short => Ok(ComponentKind::Impedance { z }),
    }
}

/// A resistor's impedance does not depend on the frequency, and is purely
/// real: its value with a zero imaginary part.
pub proof fn lemma_resistor_frequency_invariant(r: Resistance, w1: Rat, w2: Rat)
    requires
        r.wf(),
    ensures
        spec_impedance(ComponentKind::Resistor { r }, w1) == spec_impedance(
            ComponentKind::Resistor { r },
            w2,
        ),
        r.0 matches Value::Known(rv) ==> spec_impedance(ComponentKind::Resistor { r }, w1)
            == Zx::Fin(Cx { re: rv@, im: Rat { n: 0, d: 1 } }),
{
}

/// An inductor's reactance scales linearly with the frequency: at `k * w`
/// it is exactly `k` times the reactance at `w`, and the real part is zero.
pub proof fn lemma_inductor_scales_linearly(l: Inductance, w: Rat, k: Rat)
    requires
        l.wf(),
        l.0 is Known,
        rat_wf(w),
        rat_wf(k),
        !rat_is_zero(w),
        !rat_is_zero(k),
    ensures
        spec_impedance(ComponentKind::Inductor { l }, w) matches Zx::Fin(c) && rat_is_zero(c.re),
        spec_impedance(ComponentKind::Inductor { l }, rat_mul(k, w)) matches Zx::Fin(ck)
            && spec_impedance(ComponentKind::Inductor { l }, w) matches Zx::Fin(c) && ck.im
            == rat_mul(k, c.im),
{
    let lv = l.0->Known_0;
    assert(!rat_is_zero(rat_mul(k, w))) by (nonlinear_arith)
        requires
            k.n != 0,
            w.n != 0,
    ;
    crate::rational::lemma_rat_mul_assoc(k, w, lv@);
}

/// A capacitor's reactance scales inversely with the frequency: away from
/// DC the impedance is `-j / (w c)`, that is, the product of the reactance
/// with `w c` is exactly `-1`, and the real part is zero.
pub proof fn lemma_capacitor_scales_inversely(c: Capacitance, w: Rat)
    requires
        c.wf(),
        c.0 is Known,
        rat_wf(w),
        !rat_lt(w, dc_threshold()),
    ensures
        spec_impedance(ComponentKind::Capacitor { c }, w) matches Zx::Fin(zc) && rat_is_zero(
            zc.re,
        ) && rat_eq(rat_mul(zc.im, rat_mul(w, c.0->Known_0@)), rat_neg(rat_one())),
{
    let cv = c.0->Known_0;
    let m = rat_mul(w, cv@);
    assert(rat_is_pos(w)) by (nonlinear_arith)
        requires
            !(w.n * dc_threshold().d < dc_threshold().n * w.d),
            w.d > 0,
            dc_threshold().d > 0,
            dc_threshold().n == 1,
    ;
    crate::rational::lemma_rat_mul_pos_sign(w, cv@);
    crate::rational::lemma_rat_mul_inv_one(m);
    // -(1/m) * m == -(1/m * m) ~ -1
    crate::rational::lemma_rat_neg_mul_neg(rat_inv(m), m);
    assert(rat_mul(rat_neg(rat_inv(m)), m) == rat_neg(rat_mul(rat_inv(m), m))) by {
        assert((-rat_inv(m).n) * m.n == -(rat_inv(m).n * m.n)) by (nonlinear_arith);
    };
    crate::rational::lemma_rat_neg_congruence(rat_mul(rat_inv(m), m), rat_one());
}

/// DC limits: at `w = 0` a resistor keeps its value, an inductor is a
/// short circuit, a capacitor is an open circuit.
pub proof fn lemma_dc_limits(r: Resistance, l: Inductance, c: Capacitance)
    requires
        r.wf(),
        l.wf(),
        c.wf(),
        r.0 is Known,
        l.0 is Known,
        c.0 is Known,
    ensures
        spec_impedance(ComponentKind::Resistor { r }, Rat { n: 0, d: 1 }) == Zx::Fin(
            Cx { re: r.0->Known_0@, im: Rat { n: 0, d: 1 } },
        ),
        spec_impedance(ComponentKind::Inductor { l }, Rat { n: 0, d: 1 }) == Zx::Short,
        spec_impedance(ComponentKind::Capacitor { c }, Rat { n: 0, d: 1 }) == Zx::Open,
{
}

} // verus!
