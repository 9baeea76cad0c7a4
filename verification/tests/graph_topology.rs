use electro_solve::component::ComponentKind;
use electro_solve::graph::CircuitGraph;
use electro_solve::rational::Rational;
use electro_solve::units::AngularFrequency;
use electro_solve::units::Resistance;

fn resistor(ohms: i64) -> ComponentKind {
    ComponentKind::Resistor { r: Resistance::known(Rational::from_int(ohms)).unwrap() }
}

fn three_node_graph() -> CircuitGraph {
    let mut g = CircuitGraph::new();
    let n0 = g.add_node("n0".to_string());
    let n1 = g.add_node("n1".to_string());
    let n2 = g.add_node("n2".to_string());
    g.add_component("R1".to_string(), resistor(100), (n0, n1));
    g.add_component("R2".to_string(), resistor(200), (n1, n2));
    g.add_component("R3".to_string(), resistor(300), (n0, n1));
    g
}

#[test]
fn adjacency_is_bidirectional() {
    let g = three_node_graph();
    for idx in 0..g.components.len() {
        let comp = g.component(idx);
        if comp.is_active {
            let c0 = g.connections_at(comp.nodes.0);
            let c1 = g.connections_at(comp.nodes.1);
            assert!(c0.contains(&idx));
            assert!(c1.contains(&idx));
        }
    }
}

#[test]
fn node_degree_matches_connections() {
    let g = three_node_graph();
    for n in 0..g.nodes.len() {
        assert_eq!(g.get_node_degree(n), g.connections_at(n).len());
    }
    assert_eq!(g.get_node_degree(0), 2);
    assert_eq!(g.get_node_degree(1), 3);
    assert_eq!(g.get_node_degree(2), 1);
}

#[test]
fn connections_only_return_active() {
    let mut g = three_node_graph();
    g.components[2].is_active = false;
    for n in 0..g.nodes.len() {
        for idx in g.connections_at(n) {
            assert!(g.component(idx).is_active);
        }
    }
    assert_eq!(g.get_node_degree(0), 1);
}

#[test]
fn active_component_count_counts_active() {
    let mut g = three_node_graph();
    assert_eq!(g.active_component_count(), 3);
    g.components[0].is_active = false;
    assert_eq!(g.active_component_count(), 2);
}

#[test]
fn add_node_and_component_use_sequential_indices() {
    let mut g = CircuitGraph::new();
    assert_eq!(g.add_node("a".to_string()), 0);
    assert_eq!(g.add_node("b".to_string()), 1);
    assert_eq!(g.add_component("R1".to_string(), resistor(1), (0, 1)), 0);
    assert_eq!(g.add_component("R2".to_string(), resistor(2), (0, 1)), 1);
    assert_eq!(g.node(1).id, "b");
    assert_eq!(g.component(0).id, "R1");
}

#[test]
fn cache_impedances_fills_active_and_clears_inactive() {
    let mut g = three_node_graph();
    g.components[1].is_active = false;
    let w = AngularFrequency::new(Rational::from_int(1000)).unwrap();
    g.cache_impedances(w).unwrap();
    for c in &g.components {
        if c.is_active {
            assert!(c.cached_impedance.is_some());
        } else {
            assert!(c.cached_impedance.is_none());
        }
    }
}

#[test]
fn ground_marking() {
    let mut g = three_node_graph();
    assert!(!g.is_ground(0));
    g.set_ground(1);
    assert!(g.is_ground(1));
    assert!(!g.is_ground(0));
    assert!(!g.is_ground(2));
}
