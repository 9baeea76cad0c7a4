use electro_solve::component::ComponentKind;
use electro_solve::graph::CircuitGraph;
use electro_solve::parser::get_or_create_node;
use electro_solve::parser::parse_component_line;
use electro_solve::parser::parse_netlist;
use electro_solve::parser::parse_value;
use electro_solve::rational::Complex;
use electro_solve::rational::Rational;
use electro_solve::reduce::reduce;
use electro_solve::units::AngularFrequency;
use electro_solve::units::ImpedanceResult;
use electro_solve::units::Value;

fn rat(num: i64, den: i64) -> Rational {
    Rational { num, den }
}

#[test]
fn parse_value_plain_and_suffixed() {
    assert_eq!(parse_value("100", 1).unwrap(), rat(100, 1));
    assert_eq!(parse_value("3.3k", 1).unwrap(), rat(3300, 1));
    assert_eq!(parse_value("2.2meg", 1).unwrap(), rat(2_200_000, 1));
    assert_eq!(parse_value("1u", 1).unwrap(), rat(1, 1_000_000));
    assert_eq!(parse_value("10n", 1).unwrap(), rat(1, 100_000_000));
    assert_eq!(parse_value("4p", 1).unwrap(), rat(1, 250_000_000_000));
    assert_eq!(parse_value("5g", 1).unwrap(), rat(5_000_000_000, 1));
    assert_eq!(parse_value("2t", 1).unwrap(), rat(2_000_000_000_000, 1));
    assert_eq!(parse_value("-2.5", 1).unwrap(), rat(-5, 2));
    assert_eq!(parse_value(".5", 1).unwrap(), rat(1, 2));
    assert_eq!(parse_value("5.", 1).unwrap(), rat(5, 1));
}

#[test]
fn parse_value_is_case_insensitive_and_trims() {
    assert_eq!(parse_value("3.3K", 1).unwrap(), rat(3300, 1));
    assert_eq!(parse_value("2.2MEG", 1).unwrap(), rat(2_200_000, 1));
    // an upper-case M alone is milli, not mega
    assert_eq!(parse_value("5M", 1).unwrap(), rat(1, 200));
    assert_eq!(parse_value("  42  ", 1).unwrap(), rat(42, 1));
    assert_eq!(parse_value("3.3 k", 1).unwrap(), rat(3300, 1));
}

#[test]
fn parse_value_rejects_malformed_input() {
    assert!(parse_value("", 7).is_err());
    assert!(parse_value("abc", 7).is_err());
    assert!(parse_value("1.2.3", 7).is_err());
    assert!(parse_value("--5", 7).is_err());
    assert!(parse_value("5-", 7).is_err());
    assert!(parse_value("-", 7).is_err());
    assert!(parse_value(".", 7).is_err());
    assert!(parse_value("1x", 7).is_err());
    assert!(parse_value("1 kk", 7).is_err());
    assert_eq!(parse_value("zzz", 7).unwrap_err().line, 7);
}

#[test]
fn get_or_create_node_reuses_names() {
    let mut g = CircuitGraph::new();
    let a = get_or_create_node("in", &mut g);
    let b = get_or_create_node("out", &mut g);
    let a2 = get_or_create_node("in", &mut g);
    assert_eq!(a, a2);
    assert_ne!(a, b);
    assert_eq!(g.nodes.len(), 2);
}

#[test]
fn component_line_dispatches_on_first_character() {
    let mut g = CircuitGraph::new();
    parse_component_line("R1 in out 4.7k", 1, &mut g).unwrap();
    parse_component_line("L1 out mid 10m", 2, &mut g).unwrap();
    parse_component_line("C1 mid gnd 100n", 3, &mut g).unwrap();
    parse_component_line("V1 in gnd 5", 4, &mut g).unwrap();
    assert_eq!(g.components.len(), 4);
    assert!(matches!(g.component(0).kind, ComponentKind::Resistor { .. }));
    assert!(matches!(g.component(1).kind, ComponentKind::Inductor { .. }));
    assert!(matches!(g.component(2).kind, ComponentKind::Capacitor { .. }));
    assert!(matches!(g.component(3).kind, ComponentKind::VoltageSource { .. }));
    assert!(g.ground.is_some());
}

#[test]
fn component_line_ignores_blank_and_comment_lines() {
    let mut g = CircuitGraph::new();
    parse_component_line("", 1, &mut g).unwrap();
    parse_component_line("   ", 2, &mut g).unwrap();
    parse_component_line("* a comment", 3, &mut g).unwrap();
    assert_eq!(g.components.len(), 0);
    assert_eq!(g.nodes.len(), 0);
}

#[test]
fn component_line_reports_errors() {
    let mut g = CircuitGraph::new();
    // too few tokens
    assert_eq!(parse_component_line("R1 in out", 5, &mut g).unwrap_err().line, 5);
    // unknown kind
    assert!(parse_component_line("X1 a b 10", 6, &mut g).is_err());
    // kind letters are case-sensitive, as in the record format
    assert!(parse_component_line("r1 a b 10", 6, &mut g).is_err());
    // invalid value
    assert!(parse_component_line("R1 a b 1.2.3", 7, &mut g).is_err());
    // non-positive resistance is a validation error, reported without a line
    assert_eq!(parse_component_line("R1 a b -5", 8, &mut g).unwrap_err().line, 0);
    // self-loops are rejected at creation
    assert!(parse_component_line("R1 a a 10", 9, &mut g).is_err());
}

#[test]
fn ac_sources_carry_polar_phasors() {
    let mut g = CircuitGraph::new();
    parse_component_line("V1 in gnd 5 AC 3 90", 1, &mut g).unwrap();
    match &g.component(0).kind {
        ComponentKind::VoltageSource { v } => {
            assert_eq!(v.mag, Rational::from_int(3));
            assert_eq!(v.phase_deg, Rational::from_int(90));
        }
        _ => panic!("expected a voltage source"),
    }
    parse_component_line("I1 in gnd 2 AC", 2, &mut g).unwrap();
    match &g.component(1).kind {
        ComponentKind::CurrentSource { i } => {
            assert_eq!(i.mag, Rational::from_int(2));
            assert_eq!(i.phase_deg, Rational::from_int(0));
        }
        _ => panic!("expected a current source"),
    }
}

#[test]
fn netlist_requires_ground_and_components() {
    assert!(parse_netlist("R1 a b 100\nR2 b c 100\n").is_err());
    assert!(parse_netlist("* only comments\n\n").is_err());
    let g = parse_netlist("R1 a 0 100\n").unwrap();
    assert!(g.ground.is_some());
    assert_eq!(g.components.len(), 1);
}

#[test]
fn netlist_to_reduction_end_to_end() {
    let text = "* a divider driven by a source\nV1 in 0 5 AC 5 0\nR1 in mid 100\nR2 mid 0 200\n";
    let mut g = parse_netlist(text).unwrap();
    let w = AngularFrequency::new(Rational::from_int(1000)).unwrap();
    let steps = reduce(&mut g, w).unwrap();
    assert_eq!(steps.len(), 1);
    assert_eq!(g.active_component_count(), 2);
    let expected = ImpedanceResult::Finite(Complex::new(
        Rational::from_int(300),
        Rational::from_int(0),
    ));
    let mut found = false;
    for c in &g.components {
        if c.is_active && matches!(c.kind, ComponentKind::Resistor { .. }) {
            assert_eq!(c.cached_impedance, Some(expected));
            found = true;
        }
    }
    assert!(found);
}

#[test]
fn parsed_resistor_value_is_exact() {
    let mut g = CircuitGraph::new();
    parse_component_line("R1 a b 4.7k", 1, &mut g).unwrap();
    match &g.component(0).kind {
        ComponentKind::Resistor { r } => {
            assert_eq!(r.0, Value::Known(rat(4700, 1)));
        }
        _ => panic!("expected a resistor"),
    }
}
