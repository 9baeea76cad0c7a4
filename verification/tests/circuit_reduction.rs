use electro_solve::component::ComponentKind;
use electro_solve::graph::CircuitGraph;
use electro_solve::rational::Complex;
use electro_solve::rational::Rational;
use electro_solve::reduce::reduce;
use electro_solve::reduce::ReductionStep;
use electro_solve::units::AngularFrequency;
use electro_solve::units::ImpedanceResult;
use electro_solve::units::Resistance;
use electro_solve::units::Voltage;

fn resistor(ohms: i64) -> ComponentKind {
    ComponentKind::Resistor { r: Resistance::known(Rational::from_int(ohms)).unwrap() }
}

fn finite_real(ohms: i64) -> ImpedanceResult {
    ImpedanceResult::Finite(Complex::new(Rational::from_int(ohms), Rational::from_int(0)))
}

fn omega_one() -> AngularFrequency {
    AngularFrequency::new(Rational::from_int(1)).unwrap()
}

fn the_single_active(g: &CircuitGraph) -> usize {
    let mut found = None;
    for idx in 0..g.components.len() {
        if g.component(idx).is_active {
            assert!(found.is_none(), "more than one active component");
            found = Some(idx);
        }
    }
    found.expect("no active component")
}

#[test]
fn series_chain_reduces_to_sum() {
    // R=100, R=200, R=300 across four nodes reduce to Finite(600 + 0j)
    let mut g = CircuitGraph::new();
    for k in 0..4 {
        g.add_node(format!("n{}", k));
    }
    g.add_component("R1".to_string(), resistor(100), (0, 1));
    g.add_component("R2".to_string(), resistor(200), (1, 2));
    g.add_component("R3".to_string(), resistor(300), (2, 3));
    let steps = reduce(&mut g, omega_one()).unwrap();
    assert_eq!(steps.len(), 2);
    assert!(steps.iter().any(|s| matches!(s, ReductionStep::Series { .. })));
    let eq_idx = the_single_active(&g);
    let eq = g.component(eq_idx);
    assert_eq!(eq.cached_impedance, Some(finite_real(600)));
    assert!(matches!(eq.kind, ComponentKind::Resistor { .. }));
}

#[test]
fn parallel_bank_reduces_to_reciprocal_sum() {
    // R=100 || R=100 between n0 and n1 reduces to Finite(50 + 0j)
    let mut g = CircuitGraph::new();
    g.add_node("n0".to_string());
    g.add_node("n1".to_string());
    g.add_component("R1".to_string(), resistor(100), (0, 1));
    g.add_component("R2".to_string(), resistor(100), (0, 1));
    let steps = reduce(&mut g, omega_one()).unwrap();
    assert_eq!(steps.len(), 1);
    match &steps[0] {
        ReductionStep::Parallel { components, equivalent, impedance, endpoints } => {
            assert_eq!(components, &vec![0usize, 1usize]);
            assert_eq!(*equivalent, 2);
            assert_eq!(*impedance, finite_real(50));
            assert_eq!(*endpoints, (0, 1));
        }
        _ => panic!("expected a parallel step"),
    }
    let eq_idx = the_single_active(&g);
    assert_eq!(g.component(eq_idx).cached_impedance, Some(finite_real(50)));
}

#[test]
fn wires_in_series_are_eliminated() {
    // an ideal wire (a finite zero) on each side of R=10 dissolves into it
    let mut g = CircuitGraph::new();
    for k in 0..4 {
        g.add_node(format!("n{}", k));
    }
    let wire = ComponentKind::Impedance { z: finite_real(0) };
    g.add_component("W1".to_string(), wire.clone(), (0, 1));
    g.add_component("R1".to_string(), resistor(10), (1, 2));
    let wire2 = ComponentKind::Impedance { z: finite_real(0) };
    g.add_component("W2".to_string(), wire2, (2, 3));
    let steps = reduce(&mut g, omega_one()).unwrap();
    assert!(!steps.is_empty());
    let eq_idx = the_single_active(&g);
    assert_eq!(g.component(eq_idx).cached_impedance, Some(finite_real(10)));
}

#[test]
fn parallel_with_wire_shorts_the_bank() {
    // R=10 || wire || R=20 collapses to a short; one active component remains
    let mut g = CircuitGraph::new();
    g.add_node("n0".to_string());
    g.add_node("n1".to_string());
    g.add_component("R1".to_string(), resistor(10), (0, 1));
    let wire = ComponentKind::Impedance { z: finite_real(0) };
    g.add_component("W1".to_string(), wire, (0, 1));
    g.add_component("R2".to_string(), resistor(20), (0, 1));
    let steps = reduce(&mut g, omega_one()).unwrap();
    assert_eq!(steps.len(), 1);
    match &steps[0] {
        ReductionStep::Parallel { components, impedance, .. } => {
            assert_eq!(components, &vec![0usize, 1usize, 2usize]);
            assert!(matches!(impedance, ImpedanceResult::Short));
        }
        _ => panic!("expected a parallel step"),
    }
    assert_eq!(g.active_component_count(), 1);
    let eq_idx = the_single_active(&g);
    assert_eq!(g.component(eq_idx).cached_impedance, Some(ImpedanceResult::Short));
}

#[test]
fn reduction_never_produces_self_loops() {
    let mut g = CircuitGraph::new();
    for k in 0..4 {
        g.add_node(format!("n{}", k));
    }
    g.add_component("R1".to_string(), resistor(100), (0, 1));
    g.add_component("R2".to_string(), resistor(200), (1, 2));
    g.add_component("R3".to_string(), resistor(300), (2, 0));
    g.add_component("R4".to_string(), resistor(400), (0, 3));
    reduce(&mut g, omega_one()).unwrap();
    for idx in 0..g.components.len() {
        let c = g.component(idx);
        assert!(c.nodes.0 < g.nodes.len());
        assert!(c.nodes.1 < g.nodes.len());
        assert_ne!(c.nodes.0, c.nodes.1);
    }
}

#[test]
fn reduce_is_idempotent() {
    let mut g = CircuitGraph::new();
    for k in 0..4 {
        g.add_node(format!("n{}", k));
    }
    g.add_component("R1".to_string(), resistor(100), (0, 1));
    g.add_component("R2".to_string(), resistor(200), (1, 2));
    g.add_component("R3".to_string(), resistor(300), (2, 3));
    g.add_component("R4".to_string(), resistor(400), (0, 3));
    let first = reduce(&mut g, omega_one()).unwrap();
    assert!(!first.is_empty());
    let second = reduce(&mut g, omega_one()).unwrap();
    assert!(second.is_empty());
}

#[test]
fn reduction_preserves_passivity() {
    let mut g = CircuitGraph::new();
    for k in 0..3 {
        g.add_node(format!("n{}", k));
    }
    g.add_component("R1".to_string(), resistor(100), (0, 1));
    g.add_component("R2".to_string(), resistor(200), (1, 2));
    g.add_component("R3".to_string(), resistor(50), (0, 2));
    reduce(&mut g, omega_one()).unwrap();
    for c in &g.components {
        if c.is_active {
            match c.cached_impedance.as_ref().unwrap() {
                ImpedanceResult::Finite(z) => assert!(z.re.is_nonneg()),
                _ => {}
            }
        }
    }
}

#[test]
fn ground_is_not_a_series_pivot() {
    // the middle node is ground, so the chain must not reduce
    let mut g = CircuitGraph::new();
    for k in 0..3 {
        g.add_node(format!("n{}", k));
    }
    g.add_component("R1".to_string(), resistor(100), (0, 1));
    g.add_component("R2".to_string(), resistor(200), (1, 2));
    g.set_ground(1);
    let steps = reduce(&mut g, omega_one()).unwrap();
    assert!(steps.is_empty());
    assert_eq!(g.active_component_count(), 2);
}

#[test]
fn sources_do_not_participate_in_reduction() {
    // V - R - R loop: only the resistor pair reduces in series
    let mut g = CircuitGraph::new();
    for k in 0..3 {
        g.add_node(format!("n{}", k));
    }
    let v = ComponentKind::VoltageSource { v: Voltage::dc(Rational::from_int(5)) };
    g.add_component("V1".to_string(), v, (0, 2));
    g.add_component("R1".to_string(), resistor(100), (0, 1));
    g.add_component("R2".to_string(), resistor(200), (1, 2));
    let steps = reduce(&mut g, omega_one()).unwrap();
    assert_eq!(steps.len(), 1);
    assert!(matches!(steps[0], ReductionStep::Series { .. }));
    // the source and the 300-ohm equivalent remain active
    assert_eq!(g.active_component_count(), 2);
}
