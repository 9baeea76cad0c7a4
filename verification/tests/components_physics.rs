use electro_solve::component::impedance_to_kind;
use electro_solve::component::ComponentKind;
use electro_solve::errors::CircuitError;
use electro_solve::rational::Complex;
use electro_solve::rational::Rational;
use electro_solve::units::AngularFrequency;
use electro_solve::units::Capacitance;
use electro_solve::units::ImpedanceResult;
use electro_solve::units::Inductance;
use electro_solve::units::Resistance;
use electro_solve::units::Value;

fn omega(rad_per_s: i64) -> AngularFrequency {
    AngularFrequency::new(Rational::from_int(rad_per_s)).unwrap()
}

fn rat(num: i64, den: i64) -> Rational {
    Rational { num, den }
}

fn fin(re: Rational, im: Rational) -> ImpedanceResult {
    ImpedanceResult::Finite(Complex::new(re, im))
}

#[test]
fn resistor_impedance_is_frequency_invariant() {
    let r = Resistance::known(Rational::from_int(470)).unwrap();
    let kind = ComponentKind::Resistor { r };
    let z1 = kind.impedance(omega(0)).unwrap();
    let z2 = kind.impedance(omega(1000)).unwrap();
    let z3 = kind.impedance(omega(1_000_000)).unwrap();
    assert_eq!(z1, z2);
    assert_eq!(z2, z3);
    assert_eq!(z1, fin(Rational::from_int(470), Rational::from_int(0)));
}

#[test]
fn inductor_reactance_scales_linearly() {
    // L = 1 mH: at 1000 rad/s the impedance is exactly j, at 2000 exactly 2j
    let l = Inductance::known(rat(1, 1000)).unwrap();
    let kind = ComponentKind::Inductor { l };
    let z1 = kind.impedance(omega(1000)).unwrap();
    let z2 = kind.impedance(omega(2000)).unwrap();
    assert_eq!(z1, fin(Rational::from_int(0), Rational::from_int(1)));
    assert_eq!(z2, fin(Rational::from_int(0), Rational::from_int(2)));
}

#[test]
fn capacitor_reactance_scales_inversely() {
    // C = 1 uF: Open at DC; -1000j at 1000 rad/s; -500j at 2000 rad/s
    let c = Capacitance::known(rat(1, 1_000_000)).unwrap();
    let kind = ComponentKind::Capacitor { c };
    assert!(matches!(kind.impedance(omega(0)).unwrap(), ImpedanceResult::Open));
    let z1 = kind.impedance(omega(1000)).unwrap();
    let z2 = kind.impedance(omega(2000)).unwrap();
    assert_eq!(z1, fin(Rational::from_int(0), Rational::from_int(-1000)));
    assert_eq!(z2, fin(Rational::from_int(0), Rational::from_int(-500)));
}

#[test]
fn dc_limits() {
    let r = Resistance::known(Rational::from_int(50)).unwrap();
    let l = Inductance::known(rat(1, 1000)).unwrap();
    let c = Capacitance::known(rat(1, 1_000_000)).unwrap();
    let w0 = omega(0);
    assert_eq!(
        ComponentKind::Resistor { r }.impedance(w0).unwrap(),
        fin(Rational::from_int(50), Rational::from_int(0))
    );
    assert!(matches!(
        ComponentKind::Inductor { l }.impedance(w0).unwrap(),
        ImpedanceResult::Short
    ));
    assert!(matches!(
        ComponentKind::Capacitor { c }.impedance(w0).unwrap(),
        ImpedanceResult::Open
    ));
}

#[test]
fn unknown_values_have_no_numeric_realization() {
    let r = Resistance::unknown("R_load".to_string());
    let kind = ComponentKind::Resistor { r };
    assert!(matches!(kind.impedance(omega(1000)).unwrap(), ImpedanceResult::Open));
    let l = Inductance::unknown("L1".to_string());
    assert!(matches!(
        ComponentKind::Inductor { l }.impedance(omega(1000)).unwrap(),
        ImpedanceResult::Open
    ));
}

#[test]
fn sources_are_shorts_and_not_passive() {
    let v = electro_solve::units::Voltage::dc(Rational::from_int(5));
    let kind = ComponentKind::VoltageSource { v };
    assert!(matches!(kind.impedance(omega(1000)).unwrap(), ImpedanceResult::Short));
    assert!(!kind.is_passive());
    assert!(kind.is_source());
    let i = electro_solve::units::Current::ac_phasor(Rational::from_int(2), Rational::from_int(90));
    let kind2 = ComponentKind::CurrentSource { i };
    assert!(matches!(kind2.impedance(omega(0)).unwrap(), ImpedanceResult::Short));
    assert!(!kind2.is_passive());
    assert!(kind2.is_source());
}

#[test]
fn impedance_to_kind_materializes_resistors() {
    let z = fin(Rational::from_int(600), Rational::from_int(0));
    match impedance_to_kind(z).unwrap() {
        ComponentKind::Resistor { r } => {
            assert_eq!(r.0, Value::Known(Rational::from_int(600)));
        }
        _ => panic!("expected a resistor"),
    }
}

#[test]
fn impedance_to_kind_keeps_complex_values_opaque() {
    let z = fin(Rational::from_int(1), Rational::from_int(1));
    assert!(matches!(
        impedance_to_kind(z).unwrap(),
        ComponentKind::Impedance { .. }
    ));
    assert!(matches!(
        impedance_to_kind(ImpedanceResult::Open).unwrap(),
        ComponentKind::Impedance { z: ImpedanceResult::Open }
    ));
    assert!(matches!(
        impedance_to_kind(ImpedanceResult::Short).unwrap(),
        ComponentKind::Impedance { z: ImpedanceResult::Short }
    ));
}

#[test]
fn impedance_to_kind_folds_the_real_band() {
    // an imaginary residue below 1e-12 in magnitude is dropped: the value
    // materializes as a resistor carrying the real part
    let z = fin(Rational::from_int(5), rat(1, 10_000_000_000_000));
    match impedance_to_kind(z).unwrap() {
        ComponentKind::Resistor { r } => {
            assert_eq!(r.0, Value::Known(Rational::from_int(5)));
        }
        _ => panic!("expected a resistor"),
    }
    let z2 = fin(Rational::from_int(5), rat(-1, 10_000_000_000_000));
    assert!(matches!(
        impedance_to_kind(z2).unwrap(),
        ComponentKind::Resistor { .. }
    ));
    // at exactly 1e-12 the value is outside the band and stays opaque
    let z3 = fin(Rational::from_int(5), rat(1, 1_000_000_000_000));
    assert!(matches!(
        impedance_to_kind(z3).unwrap(),
        ComponentKind::Impedance { .. }
    ));
    // a negative real part inside the band is a rewrite error even with a
    // non-zero imaginary residue
    let z4 = fin(Rational::from_int(-5), rat(1, 10_000_000_000_000));
    assert!(matches!(
        impedance_to_kind(z4),
        Err(CircuitError::InvalidResistance(_))
    ));
}

#[test]
fn impedance_to_kind_rejects_negative_real() {
    let z = fin(Rational::from_int(-5), Rational::from_int(0));
    match impedance_to_kind(z) {
        Err(CircuitError::InvalidResistance(v)) => {
            assert_eq!(v, Rational::from_int(-5));
        }
        _ => panic!("expected an invalid-resistance error"),
    }
}

#[test]
fn validation_errors() {
    assert!(matches!(
        Resistance::known(Rational::from_int(0)),
        Err(CircuitError::InvalidResistance(_))
    ));
    assert!(matches!(
        Resistance::known(Rational::from_int(-3)),
        Err(CircuitError::InvalidResistance(_))
    ));
    assert!(matches!(
        Inductance::known(Rational::from_int(-1)),
        Err(CircuitError::InvalidInductance(_))
    ));
    assert!(matches!(
        Capacitance::known(Rational::from_int(0)),
        Err(CircuitError::InvalidCapacitance(_))
    ));
    assert!(matches!(
        AngularFrequency::new(Rational::from_int(-1)),
        Err(CircuitError::InvalidAngularFrequency(_))
    ));
    assert!(AngularFrequency::new(Rational::from_int(0)).is_ok());
}

#[test]
fn rational_comparisons_are_exact() {
    let half = rat(1, 2);
    let other_half = rat(2, 4);
    assert!(half.eqv(&other_half));
    assert!(!half.eqv(&rat(1, 3)));
    assert!(rat(1, 3).lt(&half));
    assert!(!half.lt(&other_half));
    assert!(rat(-1, 2).lt(&rat(1, 1_000_000_000_000)));
}

#[test]
fn error_messages_describe_the_failure() {
    let e = CircuitError::InvalidResistance(Rational::from_int(-1));
    let msg = e.message();
    assert_eq!(msg, "invalid resistance (must be > 0)");
    let p = electro_solve::errors::ParseError::from_circuit(e);
    assert_eq!(p.line, 0);
    assert_eq!(p.message, "invalid resistance (must be > 0)");
}

#[test]
fn value_wrapper_behaviour() {
    let known: Value<Rational> = Value::new(Rational::from_int(7));
    assert!(known.is_known());
    assert!(!known.is_unknown());
    assert_eq!(*known.unwrap_known(), Rational::from_int(7));
    let unknown: Value<Rational> = Value::unknown("x".to_string());
    assert!(unknown.is_unknown());
    assert!(!unknown.is_known());
}
