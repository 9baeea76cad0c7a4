//! The reduction engine: a fixed-point rewrite loop that finds series and
//! parallel reduction opportunities, combines impedances in the extended
//! domain, and rewrites the topology without ever producing a self-loop.

use vstd::prelude::*;

verus! {

use crate::component::ComponentKind;
use crate::component::impedance_to_kind;
use crate::component::kind_is_passive;
use crate::component::spec_impedance;
use crate::component::spec_impedance_fits;
use crate::errors::CircuitError;
use crate::graph::CircuitComponent;
use crate::graph::CircuitGraph;
use crate::graph::ComponentIndex;
use crate::graph::NodeIndex;
use crate::graph::count_active;
use crate::units::AngularFrequency;
use crate::units::ImpedanceResult;
use crate::units::Zx;
use crate::units::combine_parallel_many;
use crate::units::combine_series;
use crate::units::zx_eq;
use crate::units::zx_parallel_many;
use crate::units::zx_series;
use crate::units::zx_views;

/// One rewrite of the graph: the retired member components, the index of
/// the equivalent component that replaced them, the combined impedance, and
/// the endpoints of the equivalent. `DeltaWye` is reserved in the taxonomy;
/// no discovery rule produces it.
pub enum ReductionStep {
    Series {
        components: Vec<ComponentIndex>,
        equivalent: ComponentIndex,
        impedance: ImpedanceResult,
        endpoints: (NodeIndex, NodeIndex),
    },
    Parallel {
        components: Vec<ComponentIndex>,
        equivalent: ComponentIndex,
        impedance: ImpedanceResult,
        endpoints: (NodeIndex, NodeIndex),
    },
    DeltaWye { delta_nodes: (NodeIndex, NodeIndex, NodeIndex), wye_node: NodeIndex },
}

/// Every active component has a well-formed cached impedance.
pub open spec fn all_active_cached(g: CircuitGraph) -> bool {
    forall|i: int|
        0 <= i < g.components@.len() && (#[trigger] g.components@[i]).is_active ==> (
        g.components@[i].cached_impedance matches Some(z) && z.wf())
}

/// The cached impedance of component `i`, on the model domain (`Open` when
/// nothing is cached).
pub open spec fn zx_of_cached(g: CircuitGraph, i: int) -> Zx {
    match g.components@[i].cached_impedance {
        Some(z) => z@,
        None => Zx::Open,
    }
}

/// The cached impedances of a list of components.
pub open spec fn cached_views(g: CircuitGraph, cs: Seq<ComponentIndex>) -> Seq<Zx> {
    cs.map_values(|i: ComponentIndex| zx_of_cached(g, i as int))
}

/// The endpoint of component `i` other than `n`.
pub open spec fn other_end(g: CircuitGraph, i: ComponentIndex, n: int) -> int {
    if g.components@[i as int].nodes.0 == n {
        g.components@[i as int].nodes.1 as int
    } else {
        g.components@[i as int].nodes.0 as int
    }
}

/// Node `n` is a series pivot: not ground, exactly two incident active
/// components, both passive, and the two outer endpoints are distinct (a
/// reduction must never produce a self-loop, so a pivot whose outers
/// coincide is skipped).
pub open spec fn is_series_pivot(g: CircuitGraph, n: int) -> bool {
    &&& 0 <= n < g.nodes@.len()
    &&& g.ground != Some(n as NodeIndex)
    &&& g.spec_connections(n).len() == 2
    &&& kind_is_passive(g.components@[g.spec_connections(n)[0] as int].kind)
    &&& kind_is_passive(g.components@[g.spec_connections(n)[1] as int].kind)
    &&& other_end(g, g.spec_connections(n)[0], n) != other_end(g, g.spec_connections(n)[1], n)
}

/// Some node is a series pivot.
pub open spec fn has_series_pivot(g: CircuitGraph) -> bool {
    exists|n: int| is_series_pivot(g, n)
}

/// Two endpoint pairs are the same up to order.
pub open spec fn unordered_eq(a: (NodeIndex, NodeIndex), b: (NodeIndex, NodeIndex)) -> bool {
    (a.0 == b.0 && a.1 == b.1) || (a.0 == b.1 && a.1 == b.0)
}

/// Component `i` belongs to the parallel class with endpoints `{a, b}`.
pub open spec fn in_class(c: CircuitComponent, a: NodeIndex, b: NodeIndex) -> bool {
    c.is_active && kind_is_passive(c.kind) && unordered_eq(c.nodes, (a, b))
}

/// The endpoint pair of a component, in ascending order.
pub open spec fn norm_key(c: CircuitComponent) -> (NodeIndex, NodeIndex) {
    if c.nodes.0 < c.nodes.1 {
        c.nodes
    } else {
        (c.nodes.1, c.nodes.0)
    }
}

/// The indices below `k` of the components in the class `{a, b}`, ascending.
pub open spec fn class_seq_upto(
    comps: Seq<CircuitComponent>,
    a: NodeIndex,
    b: NodeIndex,
    k: int,
) -> Seq<ComponentIndex>
    decreases k,
{
    if k <= 0 {
        Seq::empty()
    } else {
        let rest = class_seq_upto(comps, a, b, k - 1);
        if in_class(comps[k - 1], a, b) {
            rest.push((k - 1) as ComponentIndex)
        } else {
            rest
        }
    }
}

/// The whole parallel class with endpoints `{a, b}`, ascending.
pub open spec fn class_seq(g: CircuitGraph, a: NodeIndex, b: NodeIndex) -> Seq<ComponentIndex> {
    class_seq_upto(g.components@, a, b, g.components@.len() as int)
}

/// Two distinct active passive components share an unordered endpoint pair.
pub open spec fn has_parallel_pair(g: CircuitGraph) -> bool {
    exists|i: int, j: int|
        #![trigger g.components@[i], g.components@[j]]
        0 <= i < j < g.components@.len() && in_class(
            g.components@[i],
            g.components@[j].nodes.0,
            g.components@[j].nodes.1,
        ) && in_class(g.components@[j], g.components@[j].nodes.0, g.components@[j].nodes.1)
}

/// A step that `apply_reduction` can apply: the members are ascending,
/// valid, active and passive, the endpoints are distinct existing nodes, and
/// the impedance is well formed.
pub open spec fn step_applicable(g: CircuitGraph, step: ReductionStep) -> bool {
    match step {
        ReductionStep::Series { components: cs, impedance: z, endpoints, .. } => {
            &&& cs@.len() == 2
            &&& forall|k: int, l: int| 0 <= k < l < cs@.len() ==> cs@[k] < cs@[l]
            &&& forall|k: int|
                0 <= k < cs@.len() ==> (#[trigger] cs@[k]) < g.components@.len()
                    && g.components@[cs@[k] as int].is_active && kind_is_passive(
                    g.components@[cs@[k] as int].kind,
                )
            &&& endpoints.0 < g.nodes@.len()
            &&& endpoints.1 < g.nodes@.len()
            &&& endpoints.0 != endpoints.1
            &&& z.wf()
        },
        ReductionStep::Parallel { components: cs, impedance: z, endpoints, .. } => {
            &&& cs@.len() >= 2
            &&& forall|k: int, l: int| 0 <= k < l < cs@.len() ==> cs@[k] < cs@[l]
            &&& forall|k: int|
                0 <= k < cs@.len() ==> (#[trigger] cs@[k]) < g.components@.len()
                    && g.components@[cs@[k] as int].is_active && kind_is_passive(
                    g.components@[cs@[k] as int].kind,
                )
            &&& endpoints.0 < g.nodes@.len()
            &&& endpoints.1 < g.nodes@.len()
            &&& endpoints.0 != endpoints.1
            &&& z.wf()
        },
        ReductionStep::DeltaWye { .. } => false,
    }
}

/// The member list of a step.
pub open spec fn step_members(step: ReductionStep) -> Seq<ComponentIndex> {
    match step {
        ReductionStep::Series { components: cs, .. } => cs@,
        ReductionStep::Parallel { components: cs, .. } => cs@,
        ReductionStep::DeltaWye { .. } => Seq::empty(),
    }
}

/// The combined impedance of a step.
pub open spec fn step_impedance(step: ReductionStep) -> ImpedanceResult {
    match step {
        ReductionStep::Series { impedance: z, .. } => z,
        ReductionStep::Parallel { impedance: z, .. } => z,
        ReductionStep::DeltaWye { .. } => ImpedanceResult::Open,
    }
}

/// The endpoints of a step's equivalent component.
pub open spec fn step_endpoints(step: ReductionStep) -> (NodeIndex, NodeIndex) {
    match step {
        ReductionStep::Series { endpoints, .. } => endpoints,
        ReductionStep::Parallel { endpoints, .. } => endpoints,
        ReductionStep::DeltaWye { .. } => (0, 0),
    }
}

/// The recorded index of a step's equivalent component.
pub open spec fn step_equivalent(step: ReductionStep) -> ComponentIndex {
    match step {
        ReductionStep::Series { equivalent, .. } => equivalent,
        ReductionStep::Parallel { equivalent, .. } => equivalent,
        ReductionStep::DeltaWye { .. } => 0,
    }
}

/// The number of components that are both active and passive.
pub open spec fn count_active_passive(comps: Seq<CircuitComponent>) -> int
    decreases comps.len(),
{
    if comps.len() == 0 {
        0
    } else {
        count_active_passive(comps.drop_last()) + if comps.last().is_active && kind_is_passive(
            comps.last().kind,
        ) {
            1int
        } else {
            0int
        }
    }
}

/// The active passive count is between 0 and the length.
pub proof fn lemma_count_ap_bounds(comps: Seq<CircuitComponent>)
    ensures
        0 <= count_active_passive(comps) <= comps.len(),
    decreases comps.len(),
{
    if comps.len() != 0 {
        lemma_count_ap_bounds(comps.drop_last());
    }
}

/// Updating one element changes the active passive count by the difference
/// of the flags.
pub proof fn lemma_count_ap_update(comps: Seq<CircuitComponent>, i: int, c2: CircuitComponent)
    requires
        0 <= i < comps.len(),
    ensures
        count_active_passive(comps.update(i, c2)) == count_active_passive(comps) + (if c2.is_active
            && kind_is_passive(c2.kind) {
            1int
        } else {
            0int
        }) - (if comps[i].is_active && kind_is_passive(comps[i].kind) {
            1int
        } else {
            0int
        }),
    decreases comps.len(),
{
    let u = comps.update(i, c2);
    if i == comps.len() - 1 {
        assert(u.drop_last() =~= comps.drop_last());
        assert(u.last() == c2);
    } else {
        assert(u.drop_last() =~= comps.drop_last().update(i, c2));
        assert(u.last() == comps.last());
        lemma_count_ap_update(comps.drop_last(), i, c2);
    }
}

/// Appending an element adds its flag to the active passive count.
pub proof fn lemma_count_ap_push(comps: Seq<CircuitComponent>, c: CircuitComponent)
    ensures
        count_active_passive(comps.push(c)) == count_active_passive(comps) + (if c.is_active
            && kind_is_passive(c.kind) {
            1int
        } else {
            0int
        }),
{
    assert(comps.push(c).drop_last() =~= comps);
}

/// Components with the same kinds and activity have the same active
/// passive count.
pub proof fn lemma_count_ap_same(c1: Seq<CircuitComponent>, c2: Seq<CircuitComponent>)
    requires
        c1.len() == c2.len(),
        forall|i: int|
            0 <= i < c1.len() ==> (#[trigger] c1[i]).is_active == c2[i].is_active && c1[i].kind
                == c2[i].kind,
    ensures
        count_active_passive(c1) == count_active_passive(c2),
    decreases c1.len(),
{
    if c1.len() != 0 {
        lemma_count_ap_same(c1.drop_last(), c2.drop_last());
    }
}

/// The two graphs have the same structure: the same nodes, ground,
/// adjacency, and components up to their caches.
pub open spec fn same_structure(g1: CircuitGraph, g2: CircuitGraph) -> bool {
    &&& g1.nodes == g2.nodes
    &&& g1.ground == g2.ground
    &&& g1.adj() == g2.adj()
    &&& g1.components@.len() == g2.components@.len()
    &&& forall|i: int|
        0 <= i < g1.components@.len() ==> {
            let c1 = #[trigger] g1.components@[i];
            let c2 = g2.components@[i];
            c1.id == c2.id && c1.kind == c2.kind && c1.nodes == c2.nodes && c1.is_active
                == c2.is_active
        }
}

/// What the step log records, read against the final graph: a series or
/// parallel step with at least two ascending members, all retired but kept
/// in storage, and an equivalent component carrying the step's endpoints,
/// the materialized kind and the combined impedance as its cache.
pub open spec fn step_recorded(g: CircuitGraph, step: ReductionStep) -> bool {
    &&& (step is Series || step is Parallel)
    &&& step_members(step).len() >= 2
    &&& forall|j: int, l: int|
        0 <= j < l < step_members(step).len() ==> step_members(step)[j] < step_members(step)[l]
    &&& step_equivalent(step) < g.components@.len()
    &&& g.components@[step_equivalent(step) as int].nodes == step_endpoints(step)
    &&& g.components@[step_equivalent(step) as int].cached_impedance == Some(step_impedance(step))
    &&& g.components@[step_equivalent(step) as int].kind == crate::component::spec_materialized_kind(
        step_impedance(step),
    )
    &&& forall|j: int|
        0 <= j < step_members(step).len() ==> (#[trigger] step_members(step)[j]) < step_equivalent(
            step,
        ) && !g.components@[step_members(step)[j] as int].is_active
}

/// The number of active components is between 0 and the length.
pub proof fn lemma_count_active_bounds(comps: Seq<CircuitComponent>)
    ensures
        0 <= count_active(comps) <= comps.len(),
    decreases comps.len(),
{
    if comps.len() != 0 {
        lemma_count_active_bounds(comps.drop_last());
    }
}

/// Updating one element changes the active count by the difference of the
/// activity flags.
pub proof fn lemma_count_active_update(comps: Seq<CircuitComponent>, i: int, c2: CircuitComponent)
    requires
        0 <= i < comps.len(),
    ensures
        count_active(comps.update(i, c2)) == count_active(comps) + (if c2.is_active {
            1int
        } else {
            0int
        }) - (if comps[i].is_active {
            1int
        } else {
            0int
        }),
    decreases comps.len(),
{
    let u = comps.update(i, c2);
    if i == comps.len() - 1 {
        assert(u.drop_last() =~= comps.drop_last());
        assert(u.last() == c2);
    } else {
        assert(u.drop_last() =~= comps.drop_last().update(i, c2));
        assert(u.last() == comps.last());
        lemma_count_active_update(comps.drop_last(), i, c2);
    }
}

/// Appending an element adds its activity flag to the count.
pub proof fn lemma_count_active_push(comps: Seq<CircuitComponent>, c: CircuitComponent)
    ensures
        count_active(comps.push(c)) == count_active(comps) + (if c.is_active {
            1int
        } else {
            0int
        }),
{
    assert(comps.push(c).drop_last() =~= comps);
}

/// Every class member is below the bound; the sequence is strictly
/// ascending; and exactly the members below the bound are present.
pub proof fn lemma_class_upto_elems(comps: Seq<CircuitComponent>, a: NodeIndex, b: NodeIndex, k: int)
    requires
        k <= comps.len(),
        comps.len() <= usize::MAX,
    ensures
        forall|j: int|
            0 <= j < class_seq_upto(comps, a, b, k).len() ==> (#[trigger] class_seq_upto(
                comps,
                a,
                b,
                k,
            )[j]) < k && in_class(comps[class_seq_upto(comps, a, b, k)[j] as int], a, b),
        forall|j: int, l: int|
            0 <= j < l < class_seq_upto(comps, a, b, k).len() ==> (#[trigger] class_seq_upto(
                comps,
                a,
                b,
                k,
            )[j]) < (#[trigger] class_seq_upto(comps, a, b, k)[l]),
        forall|i: int|
            0 <= i < k && in_class(#[trigger] comps[i], a, b) ==> class_seq_upto(
                comps,
                a,
                b,
                k,
            ).contains(i as ComponentIndex),
    decreases k,
{
    if k > 0 {
        lemma_class_upto_elems(comps, a, b, k - 1);
        let s = class_seq_upto(comps, a, b, k);
        let sp = class_seq_upto(comps, a, b, k - 1);
        if in_class(comps[k - 1], a, b) {
            assert(s == sp.push((k - 1) as ComponentIndex));
            assert forall|j: int|
                0 <= j < s.len() implies (#[trigger] s[j]) < k && in_class(
                comps[s[j] as int],
                a,
                b,
            ) by {
                if j < sp.len() {
                    assert(s[j] == sp[j]);
                } else {
                    assert(s[j] == (k - 1) as ComponentIndex);
                }
            };
            assert forall|j: int, l: int|
                0 <= j < l < s.len() implies (#[trigger] s[j]) < (#[trigger] s[l]) by {
                if l < sp.len() {
                    assert(s[j] == sp[j] && s[l] == sp[l]);
                } else {
                    assert(s[l] == (k - 1) as ComponentIndex);
                    assert(s[j] == sp[j]);
                    assert(sp[j] < k - 1);
                }
            };
        } else {
            assert(s == sp);
        }
        assert forall|i: int|
            0 <= i < k && in_class(#[trigger] comps[i], a, b) implies s.contains(
            i as ComponentIndex,
        ) by {
            if i < k - 1 {
                assert(sp.contains(i as ComponentIndex));
                let w = choose|j: int| 0 <= j < sp.len() && sp[j] == i as ComponentIndex;
                assert(s[w] == i as ComponentIndex);
            } else {
                assert(s.last() == i as ComponentIndex);
            }
        };
    }
}

/// Graphs with the same topology (nodes, adjacency, ground, and component
/// kind/endpoints/activity) have the same reduction opportunities, and the
/// same active counts, whatever their caches hold.
pub proof fn lemma_same_topology_same_opportunities(g1: CircuitGraph, g2: CircuitGraph)
    requires
        g1.wf(),
        g1.nodes@.len() == g2.nodes@.len(),
        g1.adj() == g2.adj(),
        g1.ground == g2.ground,
        g1.components@.len() == g2.components@.len(),
        forall|i: int|
            0 <= i < g1.components@.len() ==> {
                let c1 = #[trigger] g1.components@[i];
                let c2 = g2.components@[i];
                c1.kind == c2.kind && c1.nodes == c2.nodes && c1.is_active == c2.is_active
            },
    ensures
        has_series_pivot(g1) == has_series_pivot(g2),
        has_parallel_pair(g1) == has_parallel_pair(g2),
{
    assert forall|n: int| 0 <= n < g1.nodes@.len() implies g1.spec_connections(n)
        == g2.spec_connections(n) by {
        lemma_active_seq_same(g1.components@, g2.components@, g1.adj()[n]);
    };
    assert forall|n: int| is_series_pivot(g1, n) == is_series_pivot(g2, n) by {
        if 0 <= n < g1.nodes@.len() {
            assert(g1.spec_connections(n) == g2.spec_connections(n));
            crate::graph::lemma_connections_active(g1, n);
            if g1.spec_connections(n).len() == 2 {
                let c0 = g1.spec_connections(n)[0];
                let c1 = g1.spec_connections(n)[1];
                assert(c0 < g1.components@.len() && c1 < g1.components@.len());
                assert(g1.components@[c0 as int].kind == g2.components@[c0 as int].kind);
                assert(g1.components@[c1 as int].kind == g2.components@[c1 as int].kind);
                assert(g1.components@[c0 as int].nodes == g2.components@[c0 as int].nodes);
                assert(g1.components@[c1 as int].nodes == g2.components@[c1 as int].nodes);
            }
        }
    };
    assert(has_series_pivot(g1) == has_series_pivot(g2)) by {
        if has_series_pivot(g1) {
            let n = choose|n: int| is_series_pivot(g1, n);
            assert(is_series_pivot(g2, n));
        }
        if has_series_pivot(g2) {
            let n = choose|n: int| is_series_pivot(g2, n);
            assert(is_series_pivot(g1, n));
        }
    };
    assert(has_parallel_pair(g1) == has_parallel_pair(g2)) by {
        if has_parallel_pair(g1) {
            let (i, j) = choose|i: int, j: int|
                #![trigger g1.components@[i], g1.components@[j]]
                0 <= i < j < g1.components@.len() && in_class(
                    g1.components@[i],
                    g1.components@[j].nodes.0,
                    g1.components@[j].nodes.1,
                ) && in_class(g1.components@[j], g1.components@[j].nodes.0, g1.components@[j].nodes.1);
            assert(in_class(g2.components@[i], g2.components@[j].nodes.0, g2.components@[j].nodes.1));
            assert(in_class(g2.components@[j], g2.components@[j].nodes.0, g2.components@[j].nodes.1));
        }
        if has_parallel_pair(g2) {
            let (i, j) = choose|i: int, j: int|
                #![trigger g2.components@[i], g2.components@[j]]
                0 <= i < j < g2.components@.len() && in_class(
                    g2.components@[i],
                    g2.components@[j].nodes.0,
                    g2.components@[j].nodes.1,
                ) && in_class(g2.components@[j], g2.components@[j].nodes.0, g2.components@[j].nodes.1);
            assert(in_class(g1.components@[i], g1.components@[j].nodes.0, g1.components@[j].nodes.1));
            assert(in_class(g1.components@[j], g1.components@[j].nodes.0, g1.components@[j].nodes.1));
        }
    };
}

/// Filtering for activity gives the same result on components with the same
/// activity flags.
pub proof fn lemma_active_seq_same(
    c1: Seq<CircuitComponent>,
    c2: Seq<CircuitComponent>,
    s: Seq<ComponentIndex>,
)
    requires
        c1.len() == c2.len(),
        forall|i: int|
            0 <= i < c1.len() ==> (#[trigger] c1[i]).is_active == c2[i].is_active,
        forall|j: int| 0 <= j < s.len() ==> (#[trigger] s[j]) < c1.len(),
    ensures
        crate::graph::active_seq(c1, s) == crate::graph::active_seq(c2, s),
    decreases s.len(),
{
    if s.len() != 0 {
        lemma_active_seq_same(c1, c2, s.drop_last());
    }
}

/// Filtering for activity keeps a strictly ascending list strictly
/// ascending.
pub proof fn lemma_active_seq_sorted(comps: Seq<CircuitComponent>, s: Seq<ComponentIndex>)
    requires
        forall|j: int, k: int| 0 <= j < k < s.len() ==> (#[trigger] s[j]) < (#[trigger] s[k]),
        forall|j: int| 0 <= j < s.len() ==> (#[trigger] s[j]) < comps.len(),
    ensures
        forall|j: int, k: int|
            0 <= j < k < crate::graph::active_seq(comps, s).len() ==> (
            #[trigger] crate::graph::active_seq(comps, s)[j]) < (#[trigger] crate::graph::active_seq(
                comps,
                s,
            )[k]),
    decreases s.len(),
{
    if s.len() != 0 {
        let sl = s.drop_last();
        assert(forall|j: int| 0 <= j < sl.len() ==> (#[trigger] sl[j]) == s[j]);
        lemma_active_seq_sorted(comps, sl);
        crate::graph::lemma_active_seq_elems(comps, sl);
        let r = crate::graph::active_seq(comps, s);
        let rp = crate::graph::active_seq(comps, sl);
        if comps[s.last() as int].is_active {
            assert(r == rp.push(s.last()));
            assert forall|j: int, k: int|
                0 <= j < k < r.len() implies (#[trigger] r[j]) < (#[trigger] r[k]) by {
                if k < rp.len() {
                    assert(r[j] == rp[j] && r[k] == rp[k]);
                } else {
                    assert(r[k] == s.last());
                    assert(r[j] == rp[j]);
                    assert(sl.contains(rp[j]));
                    let w = choose|m: int| 0 <= m < sl.len() && sl[m] == rp[j];
                    assert(s[w] == rp[j]);
                    assert(s[w] < s[s.len() - 1]);
                }
            };
        } else {
            assert(r == rp);
        }
    }
}

/// An impedance equal (as a value) to a passive impedance is passive.
pub proof fn lemma_zx_eq_passive(a: Zx, b: Zx)
    requires
        crate::units::zx_wf(a),
        crate::units::zx_wf(b),
        zx_eq(a, b),
    ensures
        crate::units::zx_passive(a) == crate::units::zx_passive(b),
{
    if a is Fin && b is Fin {
        crate::units::lemma_cx_eq_sign(a->Fin_0, b->Fin_0);
    }
}

/// Every active component's cached impedance is passive.
pub open spec fn all_active_passive_cached(g: CircuitGraph) -> bool {
    forall|i: int|
        0 <= i < g.components@.len() && (#[trigger] g.components@[i]).is_active ==> (
        g.components@[i].cached_impedance matches Some(z) && crate::units::zx_passive(z@))
}

/// The impedance of an element is well formed; and it is passive, except
/// possibly for an opaque element holding a non-passive value.
pub proof fn lemma_spec_impedance_wf_passive(kind: ComponentKind, w: crate::rational::Rat)
    requires
        kind.wf(),
        crate::rational::rat_wf(w),
        crate::rational::rat_nonneg(w),
    ensures
        crate::units::zx_wf(spec_impedance(kind, w)),
        (match kind {
            ComponentKind::Impedance { z } => crate::units::zx_passive(z@),
            _ => true,
        }) ==> crate::units::zx_passive(spec_impedance(kind, w)),
{
    match kind {
        ComponentKind::Inductor { l } => {
            if l.0 is Known && !crate::rational::rat_is_zero(w) {
                let lv = l.0->Known_0;
                vstd::arithmetic::mul::lemma_mul_strictly_positive(w.d, lv@.d);
            }
        },
        ComponentKind::Capacitor { c } => {
            if c.0 is Known && !crate::rational::rat_lt(w, crate::component::dc_threshold()) {
                let cv = c.0->Known_0;
                assert(crate::rational::rat_is_pos(w)) by (nonlinear_arith)
                    requires
                        !(w.n * crate::component::dc_threshold().d < crate::component::dc_threshold().n
                            * w.d),
                        w.d > 0,
                        crate::component::dc_threshold().d > 0,
                        crate::component::dc_threshold().n == 1,
                ;
                crate::rational::lemma_rat_mul_pos_sign(w, cv@);
                crate::rational::lemma_rat_inv(crate::rational::rat_mul(w, cv@));
            }
        },
        _ => {},
    }
}

/// Replaces a step's `equivalent` field.
pub open spec fn with_equivalent(step: ReductionStep, idx: ComponentIndex) -> ReductionStep {
    match step {
        ReductionStep::Series { components, impedance, endpoints, .. } => ReductionStep::Series {
            components,
            equivalent: idx,
            impedance,
            endpoints,
        },
        ReductionStep::Parallel { components, impedance, endpoints, .. } => ReductionStep::Parallel {
            components,
            equivalent: idx,
            impedance,
            endpoints,
        },
        ReductionStep::DeltaWye { .. } => step,
    }
}

/// Scans the nodes in ascending order for a series pivot and proposes the
/// reduction at the lowest pivot node: the two incident components, the
/// series-combined cached impedance, and the outer endpoints. `None`
/// exactly when no pivot exists; fails only on arithmetic overflow, and
/// only when a pivot exists.
fn find_series_reduction(graph: &CircuitGraph) -> (r: Result<Option<ReductionStep>, CircuitError>)
    requires
        graph.wf(),
        all_active_cached(*graph),
    ensures
        r matches Ok(Some(step)) ==> {
            &&& step is Series
            &&& step_applicable(*graph, step)
            &&& exists|n: int|
                {
                    &&& #[trigger] is_series_pivot(*graph, n)
                    &&& forall|m: int| 0 <= m < n ==> !is_series_pivot(*graph, m)
                    &&& step_members(step) == graph.spec_connections(n)
                    &&& step_endpoints(step).0 == other_end(*graph, graph.spec_connections(n)[0], n)
                    &&& step_endpoints(step).1 == other_end(*graph, graph.spec_connections(n)[1], n)
                    &&& zx_eq(
                        step_impedance(step)@,
                        zx_series(
                            zx_of_cached(*graph, graph.spec_connections(n)[0] as int),
                            zx_of_cached(*graph, graph.spec_connections(n)[1] as int),
                        ),
                    )
                }
        },
        r matches Ok(None) ==> !has_series_pivot(*graph),
        r matches Err(e) ==> e == CircuitError::NumericOverflow,
        r is Err ==> has_series_pivot(*graph),
{
    let n_nodes = graph.nodes.len();
    let mut node_idx: usize = 0;
    while node_idx < n_nodes
        invariant
            graph.wf(),
            all_active_cached(*graph),
            n_nodes == graph.nodes@.len(),
            node_idx <= n_nodes,
            forall|m: int| 0 <= m < node_idx ==> !is_series_pivot(*graph, m),
        decreases n_nodes - node_idx,
    {
        if !graph.is_ground(node_idx) {
            let connected = graph.connections_at(node_idx);
            if connected.len() == 2 {
                let c1 = connected[0];
                let c2 = connected[1];
                proof {
                    crate::graph::lemma_connections_active(*graph, node_idx as int);
                }
                let comp1 = graph.component(c1);
                let comp2 = graph.component(c2);
                if comp1.kind.is_passive() && comp2.kind.is_passive() {
                    let o1 = if comp1.nodes.0 == node_idx {
                        comp1.nodes.1
                    } else {
                        comp1.nodes.0
                    };
                    let o2 = if comp2.nodes.0 == node_idx {
                        comp2.nodes.1
                    } else {
                        comp2.nodes.0
                    };
                    if o1 != o2 {
                        let z1 = match comp1.cached_impedance {
                            Some(z) => z,
                            None => unreached(),
                        };
                        let z2 = match comp2.cached_impedance {
                            Some(z) => z,
                            None => unreached(),
                        };
                        match combine_series(z1, z2) {
                            Ok(z) => {
                                let mut cs: Vec<ComponentIndex> = Vec::new();
                                cs.push(c1);
                                cs.push(c2);
                                let step = ReductionStep::Series {
                                    components: cs,
                                    equivalent: 0,
                                    impedance: z,
                                    endpoints: (o1, o2),
                                };
                                proof {
                                    assert(is_series_pivot(*graph, node_idx as int));
                                    lemma_active_seq_sorted(
                                        graph.components@,
                                        graph.adj()[node_idx as int],
                                    );
                                    assert(step_members(step) =~= graph.spec_connections(
                                        node_idx as int,
                                    ));
                                }
                                return Ok(Some(step));
                            },
                            Err(e) => {
                                assert(is_series_pivot(*graph, node_idx as int));
                                return Err(e);
                            },
                        }
                    }
                }
            }
        }
        node_idx = node_idx + 1;
    }
    assert(!has_series_pivot(*graph)) by {
        if has_series_pivot(*graph) {
            let n = choose|n: int| is_series_pivot(*graph, n);
            assert(!is_series_pivot(*graph, n));
        }
    };
    Ok(None)
}

/// A class with two members witnesses a parallel pair.
proof fn lemma_class_pair(g: CircuitGraph, a: NodeIndex, b: NodeIndex)
    requires
        g.wf(),
        g.components@.len() <= usize::MAX,
        class_seq(g, a, b).len() >= 2,
    ensures
        has_parallel_pair(g),
{
    lemma_class_upto_elems(g.components@, a, b, g.components@.len() as int);
    let s = class_seq(g, a, b);
    let m0 = s[0];
    let m1 = s[1];
    assert(m0 < m1);
    assert(in_class(g.components@[m0 as int], a, b));
    assert(in_class(g.components@[m1 as int], a, b));
    assert(in_class(
        g.components@[m0 as int],
        g.components@[m1 as int].nodes.0,
        g.components@[m1 as int].nodes.1,
    ));
    assert(in_class(
        g.components@[m1 as int],
        g.components@[m1 as int].nodes.0,
        g.components@[m1 as int].nodes.1,
    ));
}

/// Partitions the active passive components by unordered endpoint pair,
/// picks the largest class (ties broken by lowest member index: among
/// classes of maximal size, the chosen one has the least lowest member),
/// and proposes the reduction of that whole class with its
/// parallel-combined cached impedance. `None` exactly when no class has
/// two members; fails only on arithmetic overflow, and only when a pair
/// exists.
fn find_parallel_reduction(graph: &CircuitGraph) -> (r: Result<
    Option<ReductionStep>,
    CircuitError,
>)
    requires
        graph.wf(),
        all_active_cached(*graph),
    ensures
        r matches Ok(Some(step)) ==> {
            &&& step is Parallel
            &&& step_applicable(*graph, step)
            &&& step_members(step) == class_seq(
                *graph,
                step_endpoints(step).0,
                step_endpoints(step).1,
            )
            &&& zx_eq(
                step_impedance(step)@,
                zx_parallel_many(cached_views(*graph, step_members(step))),
            )
            &&& forall|i2: int|
                0 <= i2 < graph.components@.len() && (#[trigger] graph.components@[i2]).is_active
                    && kind_is_passive(graph.components@[i2].kind) ==> class_seq(
                    *graph,
                    norm_key(graph.components@[i2]).0,
                    norm_key(graph.components@[i2]).1,
                ).len() <= step_members(step).len()
            &&& forall|i2: int|
                0 <= i2 < graph.components@.len() && (#[trigger] graph.components@[i2]).is_active
                    && kind_is_passive(graph.components@[i2].kind) && class_seq(
                    *graph,
                    norm_key(graph.components@[i2]).0,
                    norm_key(graph.components@[i2]).1,
                ).len() == step_members(step).len() ==> step_members(step)[0] <= i2
        },
        r matches Ok(None) ==> !has_parallel_pair(*graph),
        r matches Err(e) ==> e == CircuitError::NumericOverflow,
        r is Err ==> has_parallel_pair(*graph),
{
    let n = graph.components.len();
    let mut best_size: usize = 0;
    let mut best_a: NodeIndex = 0;
    let mut best_b: NodeIndex = 0;
    let mut i: usize = 0;
    while i < n
        invariant
            graph.wf(),
            all_active_cached(*graph),
            n == graph.components@.len(),
            i <= n,
            best_size >= 2 ==> best_a < graph.nodes@.len() && best_b < graph.nodes@.len()
                && best_a < best_b && best_size == class_seq(*graph, best_a, best_b).len(),
            best_size >= 2 ==> class_seq(*graph, best_a, best_b)[0] < i,
            forall|i2: int|
                0 <= i2 < i && (#[trigger] graph.components@[i2]).is_active && kind_is_passive(
                    graph.components@[i2].kind,
                ) ==> class_seq(
                    *graph,
                    norm_key(graph.components@[i2]).0,
                    norm_key(graph.components@[i2]).1,
                ).len() <= best_size,
            forall|i2: int|
                0 <= i2 < i && (#[trigger] graph.components@[i2]).is_active && kind_is_passive(
                    graph.components@[i2].kind,
                ) && class_seq(
                    *graph,
                    norm_key(graph.components@[i2]).0,
                    norm_key(graph.components@[i2]).1,
                ).len() == best_size && best_size >= 2 ==> class_seq(*graph, best_a, best_b)[0]
                    <= i2,
            forall|i2: int, j2: int|
                #![trigger graph.components@[i2], graph.components@[j2]]
                0 <= i2 < i && i2 < j2 < n && in_class(
                    graph.components@[i2],
                    graph.components@[j2].nodes.0,
                    graph.components@[j2].nodes.1,
                ) && in_class(
                    graph.components@[j2],
                    graph.components@[j2].nodes.0,
                    graph.components@[j2].nodes.1,
                ) ==> best_size >= 2,
        decreases n - i,
    {
        let c = graph.component(i);
        let active_passive = c.is_active && c.kind.is_passive();
        if active_passive {
            let a = if c.nodes.0 < c.nodes.1 {
                c.nodes.0
            } else {
                c.nodes.1
            };
            let b = if c.nodes.0 < c.nodes.1 {
                c.nodes.1
            } else {
                c.nodes.0
            };
            let mut cnt: usize = 0;
            let mut j: usize = 0;
            while j < n
                invariant
                    graph.wf(),
                    n == graph.components@.len(),
                    j <= n,
                    cnt <= j,
                    cnt == class_seq_upto(graph.components@, a, b, j as int).len(),
                decreases n - j,
            {
                let cj = graph.component(j);
                if cj.is_active && cj.kind.is_passive() && ((cj.nodes.0 == a && cj.nodes.1 == b)
                    || (cj.nodes.0 == b && cj.nodes.1 == a)) {
                    cnt = cnt + 1;
                }
                j = j + 1;
            }
            proof {
                // this component's whole class was counted; any partner of
                // component `i` is in it, so a pair forces a count of 2
                lemma_class_upto_elems(graph.components@, a, b, n as int);
                assert forall|j2: int|
                    i < j2 < n && in_class(
                        graph.components@[i as int],
                        graph.components@[j2].nodes.0,
                        graph.components@[j2].nodes.1,
                    ) && in_class(
                        #[trigger] graph.components@[j2],
                        graph.components@[j2].nodes.0,
                        graph.components@[j2].nodes.1,
                    ) implies cnt >= 2 by {
                    assert(in_class(graph.components@[i as int], a, b));
                    assert(in_class(graph.components@[j2], a, b));
                    let s = class_seq_upto(graph.components@, a, b, n as int);
                    assert(s.contains(i));
                    assert(s.contains(j2 as ComponentIndex));
                    let w1 = choose|w: int| 0 <= w < s.len() && s[w] == i;
                    let w2 = choose|w: int| 0 <= w < s.len() && s[w] == j2 as ComponentIndex;
                    assert(w1 != w2);
                    assert(s.len() >= 2);
                };
            }
            proof {
                assert(a < b);
                assert(in_class(graph.components@[i as int], a, b));
                assert(norm_key(graph.components@[i as int]) == (a, b));
                let s = class_seq_upto(graph.components@, a, b, n as int);
                assert(s.contains(i));
                let wi = choose|w: int| 0 <= w < s.len() && s[w] == i;
                assert(s[0] <= i) by {
                    if wi > 0 {
                        assert(s[0] < s[wi]);
                    }
                };
                assert(cnt == class_seq(*graph, a, b).len());
            }
            let ghost prev_best_size = best_size;
            let ghost prev_a = best_a;
            let ghost prev_b = best_b;
            if cnt > best_size {
                best_size = cnt;
                best_a = a;
                best_b = b;
                proof {
                    assert forall|i2: int|
                        0 <= i2 < i + 1 && (#[trigger] graph.components@[i2]).is_active
                            && kind_is_passive(graph.components@[i2].kind) && class_seq(
                            *graph,
                            norm_key(graph.components@[i2]).0,
                            norm_key(graph.components@[i2]).1,
                        ).len() == best_size && best_size >= 2 implies class_seq(
                        *graph,
                        best_a,
                        best_b,
                    )[0] <= i2 by {
                        if i2 < i {
                            // the entry maximality bound contradicts a class
                            // as large as the new best
                            assert(class_seq(
                                *graph,
                                norm_key(graph.components@[i2]).0,
                                norm_key(graph.components@[i2]).1,
                            ).len() <= prev_best_size);
                            assert(false);
                        } else {
                            assert(norm_key(graph.components@[i2]) == (a, b));
                        }
                    };
                }
            } else {
                proof {
                    if cnt == best_size && best_size >= 2 {
                        // this component's class ties the best: its lowest
                        // member was seen no later, and the invariant covers it
                        let s = class_seq(*graph, a, b);
                        let m0 = s[0];
                        assert(in_class(graph.components@[m0 as int], a, b));
                        assert(norm_key(graph.components@[m0 as int]) == (a, b));
                        assert(class_seq(
                            *graph,
                            norm_key(graph.components@[m0 as int]).0,
                            norm_key(graph.components@[m0 as int]).1,
                        ).len() == best_size);
                        if (m0 as int) < (i as int) {
                            assert(class_seq(*graph, best_a, best_b)[0] <= m0 as int);
                        } else {
                            assert(m0 == i);
                        }
                        assert(class_seq(*graph, best_a, best_b)[0] <= i as int);
                    }
                    assert forall|i2: int|
                        0 <= i2 < i + 1 && (#[trigger] graph.components@[i2]).is_active
                            && kind_is_passive(graph.components@[i2].kind) && class_seq(
                            *graph,
                            norm_key(graph.components@[i2]).0,
                            norm_key(graph.components@[i2]).1,
                        ).len() == best_size && best_size >= 2 implies class_seq(
                        *graph,
                        best_a,
                        best_b,
                    )[0] <= i2 by {
                        if i2 == (i as int) {
                            assert(norm_key(graph.components@[i2]) == (a, b));
                        }
                    };
                }
            }
        } else {
            proof {
                assert forall|j2: int|
                    i < j2 < n && in_class(
                        graph.components@[i as int],
                        graph.components@[j2].nodes.0,
                        graph.components@[j2].nodes.1,
                    ) && in_class(
                        #[trigger] graph.components@[j2],
                        graph.components@[j2].nodes.0,
                        graph.components@[j2].nodes.1,
                    ) implies false by {
                    assert(graph.components@[i as int].is_active && kind_is_passive(
                        graph.components@[i as int].kind,
                    ));
                };
            }
        }
        i = i + 1;
    }
    if best_size < 2 {
        proof {
            if has_parallel_pair(*graph) {
                let (i2, j2) = choose|i2: int, j2: int|
                    #![trigger graph.components@[i2], graph.components@[j2]]
                    0 <= i2 < j2 < graph.components@.len() && in_class(
                        graph.components@[i2],
                        graph.components@[j2].nodes.0,
                        graph.components@[j2].nodes.1,
                    ) && in_class(
                        graph.components@[j2],
                        graph.components@[j2].nodes.0,
                        graph.components@[j2].nodes.1,
                    );
                assert(best_size >= 2);
            }
        }
        return Ok(None);
    }
    // collect the members of the best class, in ascending order, with their
    // cached impedances
    let mut cs: Vec<ComponentIndex> = Vec::new();
    let mut zs: Vec<ImpedanceResult> = Vec::new();
    let mut j: usize = 0;
    while j < n
        invariant
            graph.wf(),
            all_active_cached(*graph),
            n == graph.components@.len(),
            j <= n,
            cs@ == class_seq_upto(graph.components@, best_a, best_b, j as int),
            zs@.len() == cs@.len(),
            forall|k: int|
                0 <= k < cs@.len() ==> (#[trigger] cs@[k]) < n && graph.components@[cs@[k] as int].cached_impedance
                    == Some(zs@[k]) && zs@[k].wf(),
        decreases n - j,
    {
        proof {
            lemma_class_upto_elems(graph.components@, best_a, best_b, j as int);
        }
        let cj = graph.component(j);
        if cj.is_active && cj.kind.is_passive() && ((cj.nodes.0 == best_a && cj.nodes.1 == best_b)
            || (cj.nodes.0 == best_b && cj.nodes.1 == best_a)) {
            cs.push(j);
            let z = match cj.cached_impedance {
                Some(z) => z,
                None => unreached(),
            };
            zs.push(z);
        }
        j = j + 1;
    }
    proof {
        lemma_class_upto_elems(graph.components@, best_a, best_b, n as int);
    }
    assert forall|k: int| 0 <= k < zs@.len() implies (#[trigger] zs@[k]).wf() by {
        assert(cs@[k] < n);
    };
    match combine_parallel_many(zs.as_slice()) {
        Ok(z) => {
            proof {
                assert(zx_views(zs@) =~= cached_views(*graph, cs@));
            }
            let step = ReductionStep::Parallel {
                components: cs,
                equivalent: 0,
                impedance: z,
                endpoints: (best_a, best_b),
            };
            Ok(Some(step))
        },
        Err(e) => {
            proof {
                lemma_class_pair(*graph, best_a, best_b);
            }
            Err(e)
        },
    }
}

/// Applies a step: retires every member component, materializes the
/// equivalent from the combined impedance, appends it with the step's
/// endpoints and the impedance cached, and records its index in the step.
/// Fails, leaving the graph unchanged, exactly when the impedance cannot be
/// materialized (a negative real with zero imaginary part).
fn apply_reduction(graph: &mut CircuitGraph, step: &mut ReductionStep) -> (r: Result<
    ComponentIndex,
    CircuitError,
>)
    requires
        old(graph).wf(),
        all_active_cached(*old(graph)),
        step_applicable(*old(graph), *old(step)),
    ensures
        final(graph).wf(),
        r matches Ok(idx) ==> {
            &&& idx == old(graph).components@.len()
            &&& final(graph).components@.len() == old(graph).components@.len() + 1
            &&& all_active_cached(*final(graph))
            &&& count_active(final(graph).components@) == count_active(old(graph).components@) + 1
                - step_members(*old(step)).len()
            &&& count_active_passive(final(graph).components@) <= count_active_passive(
                old(graph).components@,
            ) + 1 - step_members(*old(step)).len()
            &&& final(graph).nodes == old(graph).nodes
            &&& final(graph).ground == old(graph).ground
            &&& forall|i: int|
                0 <= i < old(graph).components@.len() ==> {
                    let oc = old(graph).components@[i];
                    let nc = #[trigger] final(graph).components@[i];
                    nc.kind == oc.kind && nc.nodes == oc.nodes && nc.cached_impedance
                        == oc.cached_impedance && nc.is_active == (oc.is_active && !step_members(
                        *old(step),
                    ).contains(i as ComponentIndex))
                }
            &&& final(graph).components@[idx as int].nodes == step_endpoints(*old(step))
            &&& final(graph).components@[idx as int].is_active
            &&& final(graph).components@[idx as int].cached_impedance == Some(
                step_impedance(*old(step)),
            )
            &&& final(graph).components@[idx as int].kind == crate::component::spec_materialized_kind(
                step_impedance(*old(step)),
            )
            &&& *final(step) == with_equivalent(*old(step), idx)
        },
        r matches Err(e) ==> e matches CircuitError::InvalidResistance(_) && *final(graph) == *old(
            graph,
        ) && *final(step) == *old(step),
        (r is Err) == crate::component::spec_materialize_fails(step_impedance(*old(step))),
{
    let total = graph.components.len();
    assert(old(graph).components@.len() <= usize::MAX);
    let ghost members = step_members(*old(step));
    let cs: Vec<ComponentIndex> = match &*step {
        ReductionStep::Series { components, .. } => clone_indices(components),
        ReductionStep::Parallel { components, .. } => clone_indices(components),
        ReductionStep::DeltaWye { .. } => unreached(),
    };
    let z: ImpedanceResult = match &*step {
        ReductionStep::Series { impedance, .. } => *impedance,
        ReductionStep::Parallel { impedance, .. } => *impedance,
        ReductionStep::DeltaWye { .. } => unreached(),
    };
    let endpoints: (NodeIndex, NodeIndex) = match &*step {
        ReductionStep::Series { endpoints, .. } => *endpoints,
        ReductionStep::Parallel { endpoints, .. } => *endpoints,
        ReductionStep::DeltaWye { .. } => unreached(),
    };
    let kind = match impedance_to_kind(z) {
        Ok(k) => k,
        Err(e) => {
            return Err(e);
        },
    };
    let m = cs.len();
    let mut k: usize = 0;
    while k < m
        invariant
            graph.wf(),
            all_active_cached(*graph),
            m == cs@.len(),
            k <= m,
            cs@ == members,
            step_applicable(*old(graph), *old(step)),
            members == step_members(*old(step)),
            old(graph).components@.len() <= usize::MAX,
            graph.nodes == old(graph).nodes,
            graph.ground == old(graph).ground,
            graph.adj() == old(graph).adj(),
            graph.components@.len() == old(graph).components@.len(),
            count_active(graph.components@) == count_active(old(graph).components@) - k,
            count_active_passive(graph.components@) == count_active_passive(
                old(graph).components@,
            ) - k,
            forall|i: int|
                0 <= i < old(graph).components@.len() ==> {
                    let oc = old(graph).components@[i];
                    let nc = #[trigger] graph.components@[i];
                    nc.id == oc.id && nc.kind == oc.kind && nc.nodes == oc.nodes
                        && nc.cached_impedance == oc.cached_impedance && nc.is_active == (
                    oc.is_active && !members.subrange(0, k as int).contains(i as ComponentIndex))
                },
        decreases m - k,
    {
        let ci = cs[k];
        proof {
            assert(members[k as int] == ci);
            assert(ci < graph.components@.len());
            // not yet deactivated: the members are strictly ascending
            assert(!members.subrange(0, k as int).contains(ci)) by {
                if members.subrange(0, k as int).contains(ci) {
                    let w = choose|w: int|
                        0 <= w < k && members.subrange(0, k as int)[w] == ci;
                    assert(members[w] < members[k as int]);
                }
            };
            assert(graph.components@[ci as int].is_active);
            lemma_count_active_update(
                graph.components@,
                ci as int,
                CircuitComponent {
                    is_active: false,
                    ..graph.components@[ci as int]
                },
            );
            lemma_count_ap_update(
                graph.components@,
                ci as int,
                CircuitComponent {
                    is_active: false,
                    ..graph.components@[ci as int]
                },
            );
            assert(kind_is_passive(graph.components@[ci as int].kind));
            assert(members.subrange(0, k as int + 1).drop_last() =~= members.subrange(
                0,
                k as int,
            ));
        }
        graph.components[ci].is_active = false;
        proof {
            assert forall|i: int|
                0 <= i < old(graph).components@.len() implies {
                let oc = old(graph).components@[i];
                let nc = #[trigger] graph.components@[i];
                nc.id == oc.id && nc.kind == oc.kind && nc.nodes == oc.nodes && nc.cached_impedance
                    == oc.cached_impedance && nc.is_active == (oc.is_active && !members.subrange(
                    0,
                    k as int + 1,
                ).contains(i as ComponentIndex))
            } by {
                let pre = members.subrange(0, k as int);
                let cur = members.subrange(0, k as int + 1);
                if i == ci {
                    assert(cur[k as int] == ci);
                    assert(cur.contains(i as ComponentIndex));
                } else {
                    assert(cur.contains(i as ComponentIndex) == pre.contains(
                        i as ComponentIndex,
                    )) by {
                        if cur.contains(i as ComponentIndex) {
                            let w = choose|w: int|
                                0 <= w < cur.len() && cur[w] == i as ComponentIndex;
                            if w < k {
                                assert(pre[w] == i as ComponentIndex);
                            } else {
                                assert(w == k as int);
                                assert(cur[w] == members[k as int]);
                                assert(members[k as int] == ci);
                                assert(0 <= i <= usize::MAX);
                                assert(i as ComponentIndex as int == i);
                                assert(i as ComponentIndex == ci);
                                assert(i == ci as int);
                                assert(false);
                            }
                        }
                        if pre.contains(i as ComponentIndex) {
                            let w = choose|w: int|
                                0 <= w < pre.len() && pre[w] == i as ComponentIndex;
                            assert(cur[w] == i as ComponentIndex);
                        }
                    };
                }
            };
        }
        k = k + 1;
    }
    proof {
        assert(members.subrange(0, m as int) =~= members);
    }
    let ghost pre_add = *graph;
    let idx = graph.add_component(new_equivalent_id(), kind, endpoints);
    proof {
        assert(count_active(graph.components@) == count_active(
            old(graph).components@,
        ) - m + 1) by {
            lemma_count_active_push(pre_add.components@, graph.components@.last());
            assert(graph.components@ =~= pre_add.components@.push(graph.components@.last()));
        };
        assert(count_active_passive(graph.components@) <= count_active_passive(
            old(graph).components@,
        ) - m + 1) by {
            lemma_count_ap_push(pre_add.components@, graph.components@.last());
            assert(graph.components@ =~= pre_add.components@.push(graph.components@.last()));
        };
    }
    let ghost pre_cache = *graph;
    graph.components[idx].cached_impedance = Some(z);
    proof {
        lemma_count_active_update(
            pre_cache.components@,
            idx as int,
            CircuitComponent { cached_impedance: Some(z), ..pre_cache.components@[idx as int] },
        );
        lemma_count_ap_update(
            pre_cache.components@,
            idx as int,
            CircuitComponent { cached_impedance: Some(z), ..pre_cache.components@[idx as int] },
        );
    }
    match &mut *step {
        ReductionStep::Series { equivalent, .. } => {
            *equivalent = idx;
        },
        ReductionStep::Parallel { equivalent, .. } => {
            *equivalent = idx;
        },
        ReductionStep::DeltaWye { .. } => {},
    }
    Ok(idx)
}

/// Reduces the graph to a fixed point: caches impedances at `omega`, then
/// repeatedly applies a series reduction where one exists, else a parallel
/// reduction, until neither applies, and returns the ordered step log.
///
/// On success: no series pivot and no parallel class of two or more
/// members remain; the log is empty exactly when the input graph had no
/// reduction opportunity, and then the graph is unchanged apart from its
/// caches; the log is at most as long as the initial count of active
/// passive components (each step retires at least two and adds one); every
/// logged step reads correctly against the final graph (its members are
/// retired but kept in storage, and its equivalent component carries the
/// step's endpoints, the materialized kind and the combined impedance as
/// its cache); no two steps share a member; the graph invariant (in
/// particular: no self-loops) still holds; and if every active component's
/// impedance at `omega` was passive, every active component of the result
/// has a passive cached impedance, and the only possible failure is
/// arithmetic overflow.
///
/// Success is owed whenever the input has no reduction opportunity and
/// every active component's impedance fits the representation; a run on
/// such a graph — for example, on the output of a successful run — returns
/// an empty log.
pub fn reduce(graph: &mut CircuitGraph, omega: AngularFrequency) -> (r: Result<
    Vec<ReductionStep>,
    CircuitError,
>)
    requires
        old(graph).wf(),
        omega.wf(),
    ensures
        final(graph).wf(),
        r matches Ok(steps) ==> {
            &&& !has_series_pivot(*final(graph))
            &&& !has_parallel_pair(*final(graph))
            &&& all_active_cached(*final(graph))
            &&& (steps@.len() == 0 <==> !has_series_pivot(*old(graph)) && !has_parallel_pair(
                *old(graph),
            ))
            &&& steps@.len() <= count_active_passive(old(graph).components@)
            &&& final(graph).components@.len() >= old(graph).components@.len()
            &&& forall|k: int| 0 <= k < steps@.len() ==> step_recorded(*final(graph), #[trigger] steps@[k])
            &&& forall|k1: int, k2: int, j1: int, j2: int|
                #![trigger step_members(steps@[k1])[j1], step_members(steps@[k2])[j2]]
                0 <= k1 < k2 < steps@.len() && 0 <= j1 < step_members(steps@[k1]).len() && 0 <= j2
                    < step_members(steps@[k2]).len() ==> step_members(steps@[k1])[j1]
                    != step_members(steps@[k2])[j2]
            &&& (steps@.len() == 0 ==> same_structure(*old(graph), *final(graph)))
            &&& forall|i: int|
                0 <= i < final(graph).components@.len()
                    && (#[trigger] final(graph).components@[i]).is_active
                    ==> spec_impedance_fits(final(graph).components@[i].kind, omega@)
            &&& (forall|i: int|
                0 <= i < old(graph).components@.len() && (#[trigger] old(
                    graph,
                ).components@[i]).is_active ==> crate::units::zx_passive(
                    spec_impedance(old(graph).components@[i].kind, omega@),
                )) ==> all_active_passive_cached(*final(graph))
        },
        r matches Err(e) ==> (e == CircuitError::NumericOverflow || e
            matches CircuitError::InvalidResistance(_)),
        ((forall|i: int|
            0 <= i < old(graph).components@.len() && (#[trigger] old(
                graph,
            ).components@[i]).is_active ==> spec_impedance_fits(
                old(graph).components@[i].kind,
                omega@,
            )) && !has_series_pivot(*old(graph)) && !has_parallel_pair(*old(graph))) ==> (r
            matches Ok(steps) && steps@.len() == 0),
        (forall|i: int|
            0 <= i < old(graph).components@.len() && (#[trigger] old(
                graph,
            ).components@[i]).is_active ==> crate::units::zx_passive(
                spec_impedance(old(graph).components@[i].kind, omega@),
            )) ==> (r matches Err(e) ==> e == CircuitError::NumericOverflow),
{
    let ghost hp = forall|i: int|
        0 <= i < old(graph).components@.len() && (#[trigger] old(graph).components@[i]).is_active
            ==> crate::units::zx_passive(spec_impedance(old(graph).components@[i].kind, omega@));
    let ghost hf = forall|i: int|
        0 <= i < old(graph).components@.len() && (#[trigger] old(graph).components@[i]).is_active
            ==> spec_impedance_fits(old(graph).components@[i].kind, omega@);
    match graph.cache_impedances(omega) {
        Ok(_) => {},
        Err(e) => {
            assert(!hf);
            return Err(e);
        },
    }
    proof {
        lemma_same_topology_same_opportunities(*old(graph), *graph);
        lemma_count_ap_same(old(graph).components@, graph.components@);
        assert forall|i: int|
            0 <= i < graph.components@.len() && (#[trigger] graph.components@[i]).is_active implies spec_impedance_fits(
            graph.components@[i].kind,
            omega@,
        ) by {
            assert(old(graph).components@[i].is_active);
        };
        if hp {
            assert forall|i: int|
                0 <= i < graph.components@.len() && (#[trigger] graph.components@[i]).is_active implies (
            graph.components@[i].cached_impedance matches Some(z) && crate::units::zx_passive(
                z@,
            )) by {
                assert(old(graph).components@[i].is_active);
                let kind = graph.components@[i].kind;
                assert(kind == old(graph).components@[i].kind);
                lemma_spec_impedance_wf_passive(kind, omega@);
                let z = match graph.components@[i].cached_impedance {
                    Some(z) => z,
                    None => arbitrary(),
                };
                lemma_zx_eq_passive(z@, spec_impedance(kind, omega@));
            };
        }
    }
    let ghost g0 = *graph;
    let mut steps: Vec<ReductionStep> = Vec::new();
    loop
        invariant
            graph.wf(),
            all_active_cached(*graph),
            omega.wf(),
            g0.wf(),
            has_series_pivot(g0) == has_series_pivot(*old(graph)),
            has_parallel_pair(g0) == has_parallel_pair(*old(graph)),
            count_active_passive(g0.components@) == count_active_passive(
                old(graph).components@,
            ),
            g0.components@.len() == old(graph).components@.len(),
            graph.components@.len() >= g0.components@.len(),
            steps@.len() + count_active_passive(graph.components@) <= count_active_passive(
                g0.components@,
            ),
            steps@.len() == 0 ==> *graph == g0,
            steps@.len() > 0 ==> (has_series_pivot(*old(graph)) || has_parallel_pair(
                *old(graph),
            )),
            forall|k: int| 0 <= k < steps@.len() ==> step_recorded(*graph, #[trigger] steps@[k]),
            forall|k1: int, k2: int, j1: int, j2: int|
                #![trigger step_members(steps@[k1])[j1], step_members(steps@[k2])[j2]]
                0 <= k1 < k2 < steps@.len() && 0 <= j1 < step_members(steps@[k1]).len() && 0 <= j2
                    < step_members(steps@[k2]).len() ==> step_members(steps@[k1])[j1]
                    != step_members(steps@[k2])[j2],
            forall|i: int|
                0 <= i < graph.components@.len() && (#[trigger] graph.components@[i]).is_active
                    ==> spec_impedance_fits(graph.components@[i].kind, omega@),
            hp == (forall|i: int|
                0 <= i < old(graph).components@.len() && (#[trigger] old(
                    graph,
                ).components@[i]).is_active ==> crate::units::zx_passive(
                    spec_impedance(old(graph).components@[i].kind, omega@),
                )),
            hp ==> all_active_passive_cached(*graph),
        ensures
            graph.wf(),
            all_active_cached(*graph),
            !has_series_pivot(*graph),
            !has_parallel_pair(*graph),
            graph.components@.len() >= g0.components@.len(),
            steps@.len() + count_active_passive(graph.components@) <= count_active_passive(
                g0.components@,
            ),
            steps@.len() == 0 ==> *graph == g0,
            steps@.len() > 0 ==> (has_series_pivot(*old(graph)) || has_parallel_pair(
                *old(graph),
            )),
            forall|k: int| 0 <= k < steps@.len() ==> step_recorded(*graph, #[trigger] steps@[k]),
            forall|k1: int, k2: int, j1: int, j2: int|
                #![trigger step_members(steps@[k1])[j1], step_members(steps@[k2])[j2]]
                0 <= k1 < k2 < steps@.len() && 0 <= j1 < step_members(steps@[k1]).len() && 0 <= j2
                    < step_members(steps@[k2]).len() ==> step_members(steps@[k1])[j1]
                    != step_members(steps@[k2])[j2],
            forall|i: int|
                0 <= i < graph.components@.len() && (#[trigger] graph.components@[i]).is_active
                    ==> spec_impedance_fits(graph.components@[i].kind, omega@),
            hp ==> all_active_passive_cached(*graph),
        decreases count_active(graph.components@),
    {
        proof {
            lemma_count_active_bounds(graph.components@);
        }
        let found = match find_series_reduction(graph) {
            Ok(o) => o,
            Err(e) => {
                proof {
                    assert(has_series_pivot(*old(graph)) || has_parallel_pair(*old(graph))) by {
                        if steps@.len() == 0 {
                            assert(*graph == g0);
                        }
                    };
                }
                return Err(e);
            },
        };
        match found {
            Some(step_start) => {
                let mut step = step_start;
                proof {
                    let n = choose|n: int|
                        {
                            &&& #[trigger] is_series_pivot(*graph, n)
                            &&& step_members(step) == graph.spec_connections(n)
                            &&& step_endpoints(step).0 == other_end(
                                *graph,
                                graph.spec_connections(n)[0],
                                n,
                            )
                            &&& step_endpoints(step).1 == other_end(
                                *graph,
                                graph.spec_connections(n)[1],
                                n,
                            )
                            &&& zx_eq(
                                step_impedance(step)@,
                                zx_series(
                                    zx_of_cached(*graph, graph.spec_connections(n)[0] as int),
                                    zx_of_cached(*graph, graph.spec_connections(n)[1] as int),
                                ),
                            )
                        };
                    assert(has_series_pivot(*graph));
                    assert(has_series_pivot(*old(graph)) || has_parallel_pair(*old(graph))) by {
                        if steps@.len() == 0 {
                            assert(*graph == g0);
                        }
                    };
                    if hp {
                        let m0 = step_members(step)[0] as int;
                        let m1 = step_members(step)[1] as int;
                        let za = zx_of_cached(*graph, m0);
                        let zb = zx_of_cached(*graph, m1);
                        crate::units::lemma_zx_series_r_eq(za, zb);
                        crate::units::lemma_series_passive(za, zb);
                        lemma_zx_eq_passive(step_impedance(step)@, zx_series(za, zb));
                    }
                }
                let ghost pre_apply = *graph;
                match apply_reduction(graph, &mut step) {
                    Ok(_) => {},
                    Err(e) => {
                        proof {
                            if hp {
                                assert(crate::component::spec_materialize_fails(
                                    step_impedance(step),
                                ));
                                assert(crate::units::zx_passive(step_impedance(step)@));
                                assert(false);
                            }
                        }
                        return Err(e);
                    },
                }
                proof {
                    lemma_count_active_bounds(graph.components@);
                    if hp {
                        assert forall|i: int|
                            0 <= i < graph.components@.len() && (
                        #[trigger] graph.components@[i]).is_active implies (
                        graph.components@[i].cached_impedance matches Some(z)
                            && crate::units::zx_passive(z@)) by {
                            if i < pre_apply.components@.len() {
                                assert(pre_apply.components@[i].is_active);
                            }
                        };
                    }
                    assert forall|i: int|
                        0 <= i < graph.components@.len() && (
                    #[trigger] graph.components@[i]).is_active implies spec_impedance_fits(
                        graph.components@[i].kind,
                        omega@,
                    ) by {
                        if i < pre_apply.components@.len() {
                            assert(pre_apply.components@[i].is_active);
                            assert(graph.components@[i].kind == pre_apply.components@[i].kind);
                        } else {
                            assert(graph.components@[i].kind
                                == crate::component::spec_materialized_kind(
                                step_impedance(step_start),
                            ));
                        }
                    };
                    assert(step_recorded(*graph, step)) by {
                        assert forall|j: int|
                            0 <= j < step_members(step).len() implies (#[trigger] step_members(
                            step,
                        )[j]) < step_equivalent(step) && !graph.components@[step_members(step)[j] as int].is_active by {
                            assert(step_members(step_start).contains(step_members(step_start)[j]));
                        };
                    };
                    assert forall|k: int|
                        0 <= k < steps@.len() implies step_recorded(
                        *graph,
                        #[trigger] steps@[k],
                    ) by {
                        assert(step_recorded(pre_apply, steps@[k]));
                        assert forall|j: int|
                            0 <= j < step_members(steps@[k]).len() implies (
                        #[trigger] step_members(steps@[k])[j]) < step_equivalent(steps@[k])
                            && !graph.components@[step_members(steps@[k])[j] as int].is_active by {
                            assert(!pre_apply.components@[step_members(steps@[k])[j] as int].is_active);
                        };
                    };
                }
                let ghost steps_pre = steps@;
                steps.push(step);
                proof {
                    assert forall|k1: int, k2: int, j1: int, j2: int|
                        #![trigger step_members(steps@[k1])[j1], step_members(steps@[k2])[j2]]
                        0 <= k1 < k2 < steps@.len() && 0 <= j1 < step_members(steps@[k1]).len()
                            && 0 <= j2 < step_members(steps@[k2]).len() implies step_members(
                        steps@[k1],
                    )[j1] != step_members(steps@[k2])[j2] by {
                        if k2 < steps_pre.len() {
                            assert(steps@[k1] == steps_pre[k1]);
                            assert(steps@[k2] == steps_pre[k2]);
                        } else {
                            assert(steps@[k2] == step);
                            assert(steps@[k1] == steps_pre[k1]);
                            assert(step_recorded(pre_apply, steps_pre[k1]));
                            if step_members(steps_pre[k1])[j1] == step_members(step)[j2] {
                                assert(!pre_apply.components@[step_members(steps_pre[k1])[j1] as int].is_active);
                                assert(pre_apply.components@[step_members(step_start)[j2] as int].is_active);
                                assert(false);
                            }
                        }
                    };
                }
                continue ;
            },
            None => {},
        }
        let found2 = match find_parallel_reduction(graph) {
            Ok(o) => o,
            Err(e) => {
                proof {
                    assert(has_series_pivot(*old(graph)) || has_parallel_pair(*old(graph))) by {
                        if steps@.len() == 0 {
                            assert(*graph == g0);
                        }
                    };
                }
                return Err(e);
            },
        };
        match found2 {
            Some(step_start) => {
                let mut step = step_start;
                let n_comps = graph.components.len();
                proof {
                    let cs0 = step_members(step);
                    let m0 = cs0[0];
                    let m1 = cs0[1];
                    assert(m0 < m1);
                    assert(graph.components@.len() <= usize::MAX);
                    assert(has_parallel_pair(*graph)) by {
                        lemma_class_upto_elems(
                            graph.components@,
                            step_endpoints(step).0,
                            step_endpoints(step).1,
                            graph.components@.len() as int,
                        );
                        assert(cs0[0] == class_seq(
                            *graph,
                            step_endpoints(step).0,
                            step_endpoints(step).1,
                        )[0]);
                        assert(in_class(
                            graph.components@[m0 as int],
                            step_endpoints(step).0,
                            step_endpoints(step).1,
                        ));
                        assert(in_class(
                            graph.components@[m1 as int],
                            step_endpoints(step).0,
                            step_endpoints(step).1,
                        ));
                        assert(in_class(
                            graph.components@[m0 as int],
                            graph.components@[m1 as int].nodes.0,
                            graph.components@[m1 as int].nodes.1,
                        ));
                        assert(in_class(
                            graph.components@[m1 as int],
                            graph.components@[m1 as int].nodes.0,
                            graph.components@[m1 as int].nodes.1,
                        ));
                    };
                    assert(has_series_pivot(*old(graph)) || has_parallel_pair(*old(graph))) by {
                        if steps@.len() == 0 {
                            assert(*graph == g0);
                        }
                    };
                    if hp {
                        let cs = step_members(step);
                        let views = cached_views(*graph, cs);
                        assert forall|k: int|
                            0 <= k < views.len() implies crate::units::zx_wf(#[trigger] views[k])
                            && crate::units::zx_passive(views[k]) by {
                            assert(cs[k] < graph.components@.len());
                            assert(graph.components@[cs[k] as int].is_active);
                            assert(views[k] == zx_of_cached(*graph, cs[k] as int));
                        };
                        crate::units::lemma_parallel_many_passive(views);
                        lemma_zx_eq_passive(step_impedance(step)@, zx_parallel_many(views));
                    }
                }
                let ghost pre_apply = *graph;
                match apply_reduction(graph, &mut step) {
                    Ok(_) => {},
                    Err(e) => {
                        proof {
                            if hp {
                                assert(crate::component::spec_materialize_fails(
                                    step_impedance(step),
                                ));
                                assert(crate::units::zx_passive(step_impedance(step)@));
                                assert(false);
                            }
                        }
                        return Err(e);
                    },
                }
                proof {
                    lemma_count_active_bounds(graph.components@);
                    if hp {
                        assert forall|i: int|
                            0 <= i < graph.components@.len() && (
                        #[trigger] graph.components@[i]).is_active implies (
                        graph.components@[i].cached_impedance matches Some(z)
                            && crate::units::zx_passive(z@)) by {
                            if i < pre_apply.components@.len() {
                                assert(pre_apply.components@[i].is_active);
                            }
                        };
                    }
                    assert forall|i: int|
                        0 <= i < graph.components@.len() && (
                    #[trigger] graph.components@[i]).is_active implies spec_impedance_fits(
                        graph.components@[i].kind,
                        omega@,
                    ) by {
                        if i < pre_apply.components@.len() {
                            assert(pre_apply.components@[i].is_active);
                            assert(graph.components@[i].kind == pre_apply.components@[i].kind);
                        } else {
                            assert(graph.components@[i].kind
                                == crate::component::spec_materialized_kind(
                                step_impedance(step_start),
                            ));
                        }
                    };
                    assert(step_recorded(*graph, step)) by {
                        assert forall|j: int|
                            0 <= j < step_members(step).len() implies (#[trigger] step_members(
                            step,
                        )[j]) < step_equivalent(step) && !graph.components@[step_members(step)[j] as int].is_active by {
                            assert(step_members(step_start).contains(step_members(step_start)[j]));
                        };
                    };
                    assert forall|k: int|
                        0 <= k < steps@.len() implies step_recorded(
                        *graph,
                        #[trigger] steps@[k],
                    ) by {
                        assert(step_recorded(pre_apply, steps@[k]));
                        assert forall|j: int|
                            0 <= j < step_members(steps@[k]).len() implies (
                        #[trigger] step_members(steps@[k])[j]) < step_equivalent(steps@[k])
                            && !graph.components@[step_members(steps@[k])[j] as int].is_active by {
                            assert(!pre_apply.components@[step_members(steps@[k])[j] as int].is_active);
                        };
                    };
                }
                let ghost steps_pre = steps@;
                steps.push(step);
                proof {
                    assert forall|k1: int, k2: int, j1: int, j2: int|
                        #![trigger step_members(steps@[k1])[j1], step_members(steps@[k2])[j2]]
                        0 <= k1 < k2 < steps@.len() && 0 <= j1 < step_members(steps@[k1]).len()
                            && 0 <= j2 < step_members(steps@[k2]).len() implies step_members(
                        steps@[k1],
                    )[j1] != step_members(steps@[k2])[j2] by {
                        if k2 < steps_pre.len() {
                            assert(steps@[k1] == steps_pre[k1]);
                            assert(steps@[k2] == steps_pre[k2]);
                        } else {
                            assert(steps@[k2] == step);
                            assert(steps@[k1] == steps_pre[k1]);
                            assert(step_recorded(pre_apply, steps_pre[k1]));
                            if step_members(steps_pre[k1])[j1] == step_members(step)[j2] {
                                assert(!pre_apply.components@[step_members(steps_pre[k1])[j1] as int].is_active);
                                assert(pre_apply.components@[step_members(step_start)[j2] as int].is_active);
                                assert(false);
                            }
                        }
                    };
                }
                continue ;
            },
            None => {
                break ;
            },
        }
    }
    proof {
        lemma_count_ap_bounds(graph.components@);
        if steps@.len() == 0 {
            assert(*graph == g0);
            assert(same_structure(*old(graph), *graph));
        }
    }
    Ok(steps)
}

/// Copies a list of indices.
fn clone_indices(v: &Vec<ComponentIndex>) -> (r: Vec<ComponentIndex>)
    ensures
        r@ == v@,
{
    let mut out: Vec<ComponentIndex> = Vec::new();
    let mut i: usize = 0;
    while i < v.len()
        invariant
            i <= v@.len(),
            out@ == v@.subrange(0, i as int),
        decreases v@.len() - i,
    {
        out.push(v[i]);
        proof {
            assert(out@ =~= v@.subrange(0, i as int + 1));
        }
        i = i + 1;
    }
    proof {
        assert(v@.subrange(0, v@.len() as int) =~= v@);
    }
    out
}

/// The identifier given to materialized equivalent components.
fn new_equivalent_id() -> (r: String) {
    "EQ".to_owned()
}

} // verus!
