//! The circuit multigraph: nodes, components, incidence lists, ground.
//!
//! Components are addressed by stable indices into an append-only sequence;
//! removal is logical, through the `is_active` flag. The adjacency lists
//! hold, for each node, exactly the indices of the components incident to
//! it, in ascending order, active or not; queries filter by activity.

use vstd::prelude::*;

verus! {

use crate::component::ComponentKind;
use crate::component::spec_impedance;
use crate::component::spec_impedance_fits;
use crate::errors::CircuitError;
use crate::units::AngularFrequency;
use crate::units::ImpedanceResult;
use crate::units::zx_eq;

/// Index of a node in a graph; node identity is its index.
pub type NodeIndex = usize;

/// Index of a component in a graph; component identity is its index.
pub type ComponentIndex = usize;

/// A circuit node.
#[derive(Debug, Clone)]
pub struct Node {
    pub id: String,
}

/// A two-terminal component placed between two nodes of a graph.
pub struct CircuitComponent {
    pub id: String,
    pub kind: ComponentKind,
    pub nodes: (NodeIndex, NodeIndex),
    pub is_active: bool,
    pub cached_impedance: Option<ImpedanceResult>,
}

/// A component is incident to node `n` when `n` is one of its endpoints.
pub open spec fn incident(c: CircuitComponent, n: int) -> bool {
    c.nodes.0 == n || c.nodes.1 == n
}

/// The subsequence of component indices whose components are active, in
/// order.
pub open spec fn active_seq(comps: Seq<CircuitComponent>, s: Seq<ComponentIndex>) -> Seq<
    ComponentIndex,
>
    decreases s.len(),
{
    if s.len() == 0 {
        Seq::empty()
    } else {
        let rest = active_seq(comps, s.drop_last());
        if comps[s.last() as int].is_active {
            rest.push(s.last())
        } else {
            rest
        }
    }
}

/// The number of active components in a sequence.
pub open spec fn count_active(comps: Seq<CircuitComponent>) -> int
    decreases comps.len(),
{
    if comps.len() == 0 {
        0
    } else {
        count_active(comps.drop_last()) + if comps.last().is_active {
            1int
        } else {
            0int
        }
    }
}

/// An undirected multigraph of two-terminal components.
pub struct CircuitGraph {
    pub nodes: Vec<Node>,
    pub components: Vec<CircuitComponent>,
    pub ground: Option<NodeIndex>,
    pub adjacency: Vec<Vec<ComponentIndex>>,
}

impl CircuitGraph {
    /// The adjacency structure, as a sequence of index sequences.
    pub open spec fn adj(&self) -> Seq<Seq<ComponentIndex>> {
        self.adjacency@.map_values(|v: Vec<ComponentIndex>| v@)
    }

    /// Graph invariant:
    /// - one adjacency list per node;
    /// - every component endpoint is in range and endpoints are distinct
    ///   (no self-loops), and the component's data is well formed;
    /// - every adjacency entry is a valid component index incident to its
    ///   node, and lists are strictly ascending (so duplicate-free);
    /// - every component appears in the adjacency list of each endpoint;
    /// - the ground, if set, is an existing node.
    pub open spec fn wf(&self) -> bool {
        &&& self.adj().len() == self.nodes@.len()
        &&& forall|i: int|
            0 <= i < self.components@.len() ==> {
                let c = #[trigger] self.components@[i];
                c.nodes.0 < self.nodes@.len() && c.nodes.1 < self.nodes@.len() && c.nodes.0
                    != c.nodes.1 && c.kind.wf() && (c.cached_impedance matches Some(z) ==> z.wf())
            }
        &&& forall|n: int, j: int|
            0 <= n < self.adj().len() && 0 <= j < (#[trigger] self.adj()[n]).len() ==> (
            #[trigger] self.adj()[n][j]) < self.components@.len() && incident(
                self.components@[self.adj()[n][j] as int],
                n,
            )
        &&& forall|n: int, j: int, k: int|
            0 <= n < self.adj().len() && 0 <= j < k < (#[trigger] self.adj()[n]).len() ==> (
            #[trigger] self.adj()[n][j]) < (#[trigger] self.adj()[n][k])
        &&& forall|n: int, i: int|
            0 <= n < self.adj().len() && 0 <= i < self.components@.len() && incident(
                #[trigger] self.components@[i],
                n,
            ) ==> (#[trigger] self.adj()[n]).contains(i as ComponentIndex)
        &&& match self.ground {
            Some(g) => g < self.nodes@.len(),
            None => true,
        }
    }

    /// The indices of the active components incident to node `n`, in
    /// ascending order (the model of [`CircuitGraph::connections_at`]).
    pub open spec fn spec_connections(&self, n: int) -> Seq<ComponentIndex> {
        active_seq(self.components@, self.adj()[n])
    }

    /// An empty graph.
    pub fn new() -> (g: CircuitGraph)
        ensures
            g.wf(),
            g.nodes@.len() == 0,
            g.components@.len() == 0,
            g.ground is None,
            g.adj().len() == 0,
    {
        CircuitGraph { nodes: Vec::new(), components: Vec::new(), ground: None, adjacency: Vec::new() }
    }

    /// Appends a node; its index is the previous node count.
    pub fn add_node(&mut self, id: String) -> (idx: NodeIndex)
        requires
            old(self).wf(),
        ensures
            final(self).wf(),
            idx == old(self).nodes@.len(),
            final(self).nodes@ == old(self).nodes@.push(Node { id }),
            final(self).components == old(self).components,
            final(self).ground == old(self).ground,
            final(self).adj() == old(self).adj().push(Seq::<ComponentIndex>::empty()),
    {
        let idx = self.nodes.len();
        self.nodes.push(Node { id });
        self.adjacency.push(Vec::new());
        proof {
            assert(self.adj() =~= old(self).adj().push(Seq::<ComponentIndex>::empty()));
            assert forall|n: int, j: int|
                0 <= n < self.adj().len() && 0 <= j < (#[trigger] self.adj()[n]).len() implies (
            #[trigger] self.adj()[n][j]) < self.components@.len() && incident(
                self.components@[self.adj()[n][j] as int],
                n,
            ) by {
                if n < old(self).adj().len() {
                    assert(self.adj()[n] == old(self).adj()[n]);
                }
            };
        }
        idx
    }

    /// Read-only access to a node.
    pub fn node(&self, idx: NodeIndex) -> (r: &Node)
        requires
            idx < self.nodes@.len(),
        ensures
            *r == self.nodes@[idx as int],
    {
        &self.nodes[idx]
    }

    /// Appends a component between two distinct existing nodes; its index is
    /// the previous component count. The component starts active, with no
    /// cached impedance, and is recorded in the adjacency lists of both
    /// endpoints.
    pub fn add_component(
        &mut self,
        id: String,
        kind: ComponentKind,
        nodes: (NodeIndex, NodeIndex),
    ) -> (idx: ComponentIndex)
        requires
            old(self).wf(),
            nodes.0 < old(self).nodes@.len(),
            nodes.1 < old(self).nodes@.len(),
            nodes.0 != nodes.1,
            kind.wf(),
        ensures
            final(self).wf(),
            idx == old(self).components@.len(),
            final(self).components@ == old(self).components@.push(
                CircuitComponent {
                    id,
                    kind,
                    nodes,
                    is_active: true,
                    cached_impedance: None::<ImpedanceResult>,
                },
            ),
            final(self).nodes == old(self).nodes,
            final(self).ground == old(self).ground,
            final(self).adj().len() == old(self).adj().len(),
            final(self).adj()[nodes.0 as int] == old(self).adj()[nodes.0 as int].push(idx),
            final(self).adj()[nodes.1 as int] == old(self).adj()[nodes.1 as int].push(idx),
            forall|n: int|
                0 <= n < old(self).adj().len() && n != nodes.0 && n != nodes.1
                    ==> final(self).adj()[n] == old(self).adj()[n],
    {
        let idx = self.components.len();
        self.components.push(
            CircuitComponent { id, kind, nodes, is_active: true, cached_impedance: None },
        );
        let list0 = &mut self.adjacency[nodes.0];
        list0.push(idx);
        let list1 = &mut self.adjacency[nodes.1];
        list1.push(idx);
        proof {
            let post = *self;
            let pre = *old(self);
            assert(post.adj()[nodes.0 as int] =~= pre.adj()[nodes.0 as int].push(idx));
            assert(post.adj()[nodes.1 as int] =~= pre.adj()[nodes.1 as int].push(idx));
            assert forall|n: int|
                0 <= n < pre.adj().len() && n != nodes.0 && n != nodes.1 implies post.adj()[n]
                == pre.adj()[n] by {
                assert(post.adjacency@[n] == pre.adjacency@[n]);
            };
            // the invariant holds again
            assert forall|n: int, j: int|
                0 <= n < post.adj().len() && 0 <= j < (#[trigger] post.adj()[n]).len() implies (
            #[trigger] post.adj()[n][j]) < post.components@.len() && incident(
                post.components@[post.adj()[n][j] as int],
                n,
            ) by {
                if n == nodes.0 || n == nodes.1 {
                    if j < pre.adj()[n].len() {
                        assert(post.adj()[n][j] == pre.adj()[n][j]);
                    } else {
                        assert(post.adj()[n][j] == idx);
                    }
                } else {
                    assert(post.adj()[n] == pre.adj()[n]);
                }
            };
            assert forall|n: int, j: int, k: int|
                0 <= n < post.adj().len() && 0 <= j < k < (#[trigger] post.adj()[n]).len() implies (
            #[trigger] post.adj()[n][j]) < (#[trigger] post.adj()[n][k]) by {
                if n == nodes.0 || n == nodes.1 {
                    if k < pre.adj()[n].len() {
                        assert(post.adj()[n][j] == pre.adj()[n][j]);
                        assert(post.adj()[n][k] == pre.adj()[n][k]);
                    } else {
                        assert(post.adj()[n][k] == idx);
                        assert(post.adj()[n][j] == pre.adj()[n][j]);
                        assert(pre.adj()[n][j] < pre.components@.len());
                    }
                } else {
                    assert(post.adj()[n] == pre.adj()[n]);
                }
            };
            assert forall|n: int, i: int|
                0 <= n < post.adj().len() && 0 <= i < post.components@.len() && incident(
                    #[trigger] post.components@[i],
                    n,
                ) implies (#[trigger] post.adj()[n]).contains(i as ComponentIndex) by {
                if i < pre.components@.len() {
                    assert(post.components@[i] == pre.components@[i]);
                    assert(pre.adj()[n].contains(i as ComponentIndex));
                    let w = choose|j: int|
                        0 <= j < pre.adj()[n].len() && pre.adj()[n][j] == i as ComponentIndex;
                    if n == nodes.0 || n == nodes.1 {
                        assert(post.adj()[n][w] == i as ComponentIndex);
                    } else {
                        assert(post.adj()[n] == pre.adj()[n]);
                    }
                } else {
                    // the new component: incident only to its two endpoints
                    assert(n == nodes.0 || n == nodes.1);
                    assert(post.adj()[n].last() == idx);
                    assert(post.adj()[n].contains(idx));
                }
            };
        }
        idx
    }

    /// Read-only access to a component.
    pub fn component(&self, idx: ComponentIndex) -> (r: &CircuitComponent)
        requires
            idx < self.components@.len(),
        ensures
            *r == self.components@[idx as int],
    {
        &self.components[idx]
    }

    /// The indices of the active components incident to node `idx`, in
    /// ascending order. Inactive components are filtered out, never removed.
    pub fn connections_at(&self, idx: NodeIndex) -> (r: Vec<ComponentIndex>)
        requires
            self.wf(),
            idx < self.nodes@.len(),
        ensures
            r@ == self.spec_connections(idx as int),
    {
        let list = &self.adjacency[idx];
        let ghost full = self.adj()[idx as int];
        let mut out: Vec<ComponentIndex> = Vec::new();
        let mut j: usize = 0;
        while j < list.len()
            invariant
                self.wf(),
                idx < self.nodes@.len(),
                list == self.adjacency@[idx as int],
                full == self.adj()[idx as int],
                list@ == full,
                j <= list@.len(),
                out@ == active_seq(self.components@, full.subrange(0, j as int)),
            decreases list@.len() - j,
        {
            proof {
                assert(full.subrange(0, j as int + 1).drop_last() =~= full.subrange(0, j as int));
                assert(full.subrange(0, j as int + 1).last() == full[j as int]);
            }
            let ci = list[j];
            if self.components[ci].is_active {
                out.push(ci);
            }
            j = j + 1;
        }
        proof {
            assert(full.subrange(0, full.len() as int) =~= full);
        }
        out
    }

    /// The number of active components incident to node `idx`: always the
    /// length of [`CircuitGraph::connections_at`].
    pub fn get_node_degree(&self, idx: NodeIndex) -> (r: usize)
        requires
            self.wf(),
            idx < self.nodes@.len(),
        ensures
            r == self.spec_connections(idx as int).len(),
    {
        let list = &self.adjacency[idx];
        let ghost full = self.adj()[idx as int];
        let mut count: usize = 0;
        let mut j: usize = 0;
        while j < list.len()
            invariant
                self.wf(),
                idx < self.nodes@.len(),
                list == self.adjacency@[idx as int],
                full == self.adj()[idx as int],
                list@ == full,
                j <= list@.len(),
                count == active_seq(self.components@, full.subrange(0, j as int)).len(),
                count <= j,
            decreases list@.len() - j,
        {
            proof {
                assert(full.subrange(0, j as int + 1).drop_last() =~= full.subrange(0, j as int));
                assert(full.subrange(0, j as int + 1).last() == full[j as int]);
            }
            let ci = list[j];
            if self.components[ci].is_active {
                count = count + 1;
            }
            j = j + 1;
        }
        proof {
            assert(full.subrange(0, full.len() as int) =~= full);
        }
        count
    }

    /// The number of active components in the graph.
    pub fn active_component_count(&self) -> (r: usize)
        requires
            self.wf(),
        ensures
            r == count_active(self.components@),
    {
        let mut count: usize = 0;
        let mut i: usize = 0;
        while i < self.components.len()
            invariant
                i <= self.components@.len(),
                count == count_active(self.components@.subrange(0, i as int)),
                count <= i,
            decreases self.components@.len() - i,
        {
            proof {
                assert(self.components@.subrange(0, i as int + 1).drop_last() =~= self
                    .components@.subrange(0, i as int));
                assert(self.components@.subrange(0, i as int + 1).last() == self.components@[i as int]);
            }
            if self.components[i].is_active {
                count = count + 1;
            }
            i = i + 1;
        }
        proof {
            assert(self.components@.subrange(0, self.components@.len() as int) =~= self
                .components@);
        }
        count
    }

    /// Computes and stores the impedance of every active component at
    /// `omega`; clears the cache of inactive components. Fails only on
    /// arithmetic overflow, in which case the graph is unchanged except for
    /// caches already written.
    pub fn cache_impedances(&mut self, omega: AngularFrequency) -> (r: Result<(), CircuitError>)
        requires
            old(self).wf(),
            omega.wf(),
        ensures
            final(self).wf(),
            final(self).nodes == old(self).nodes,
            final(self).ground == old(self).ground,
            final(self).adj() == old(self).adj(),
            final(self).components@.len() == old(self).components@.len(),
            forall|i: int|
                0 <= i < old(self).components@.len() ==> {
                    let oc = #[trigger] old(self).components@[i];
                    let nc = final(self).components@[i];
                    nc.id == oc.id && nc.kind == oc.kind && nc.nodes == oc.nodes && nc.is_active
                        == oc.is_active
                },
            r matches Ok(u) ==> forall|i: int|
                0 <= i < final(self).components@.len() ==> {
                    let nc = #[trigger] final(self).components@[i];
                    &&& nc.is_active ==> (nc.cached_impedance matches Some(z) && z.wf() && zx_eq(
                        z@,
                        spec_impedance(nc.kind, omega@),
                    ))
                    &&& !nc.is_active ==> nc.cached_impedance is None
                },
            r matches Err(e) ==> e == CircuitError::NumericOverflow,
            (r is Ok) == (forall|i: int|
                0 <= i < old(self).components@.len() && (#[trigger] old(
                    self,
                ).components@[i]).is_active ==> spec_impedance_fits(
                    old(self).components@[i].kind,
                    omega@,
                )),
    {
        let n = self.components.len();
        let mut i: usize = 0;
        while i < n
            invariant
                self.wf(),
                omega.wf(),
                n == self.components@.len(),
                i <= n,
                self.nodes == old(self).nodes,
                self.ground == old(self).ground,
                self.adj() == old(self).adj(),
                self.components@.len() == old(self).components@.len(),
                forall|k: int|
                    0 <= k < old(self).components@.len() ==> {
                        let oc = #[trigger] old(self).components@[k];
                        let nc = self.components@[k];
                        nc.id == oc.id && nc.kind == oc.kind && nc.nodes == oc.nodes
                            && nc.is_active == oc.is_active
                    },
                forall|k: int|
                    0 <= k < i ==> {
                        let nc = #[trigger] self.components@[k];
                        &&& nc.is_active ==> (nc.cached_impedance matches Some(z) && z.wf()
                            && zx_eq(z@, spec_impedance(nc.kind, omega@)))
                        &&& !nc.is_active ==> nc.cached_impedance is None
                    },
                forall|k: int|
                    0 <= k < i && (#[trigger] old(self).components@[k]).is_active
                        ==> spec_impedance_fits(old(self).components@[k].kind, omega@),
            decreases n - i,
        {
            if self.components[i].is_active {
                let z = match self.components[i].kind.impedance(omega) {
                    Ok(z) => z,
                    Err(e) => {
                        assert(!spec_impedance_fits(old(self).components@[i as int].kind, omega@));
                        return Err(e);
                    },
                };
                self.components[i].cached_impedance = Some(z);
            } else {
                self.components[i].cached_impedance = None;
            }
            i = i + 1;
        }
        Ok(())
    }

    /// Designates `idx` as the ground node.
    pub fn set_ground(&mut self, idx: NodeIndex)
        requires
            old(self).wf(),
            idx < old(self).nodes@.len(),
        ensures
            final(self).wf(),
            final(self).ground == Some(idx),
            final(self).nodes == old(self).nodes,
            final(self).components == old(self).components,
            final(self).adj() == old(self).adj(),
    {
        self.ground = Some(idx);
    }

    /// Whether `idx` is the ground node.
    pub fn is_ground(&self, idx: NodeIndex) -> (r: bool)
        ensures
            r == (self.ground == Some(idx)),
    {
        match self.ground {
            Some(g) => g == idx,
            None => false,
        }
    }
}

/// Every index that `active_seq` keeps was in the list and is active; and
/// every active member of the list is kept.
pub proof fn lemma_active_seq_elems(comps: Seq<CircuitComponent>, s: Seq<ComponentIndex>)
    requires
        forall|j: int| 0 <= j < s.len() ==> (#[trigger] s[j]) < comps.len(),
    ensures
        forall|j: int|
            0 <= j < active_seq(comps, s).len() ==> s.contains(#[trigger] active_seq(comps, s)[j])
                && comps[active_seq(comps, s)[j] as int].is_active,
        forall|i: ComponentIndex|
            s.contains(i) && comps[i as int].is_active ==> active_seq(comps, s).contains(i),
    decreases s.len(),
{
    if s.len() != 0 {
        assert(forall|j: int| 0 <= j < s.drop_last().len() ==> (#[trigger] s.drop_last()[j])
            < comps.len());
        lemma_active_seq_elems(comps, s.drop_last());
        let r = active_seq(comps, s);
        let rp = active_seq(comps, s.drop_last());
        assert forall|j: int|
            0 <= j < r.len() implies s.contains(#[trigger] r[j]) && comps[r[j] as int].is_active by {
            if j < rp.len() {
                assert(rp[j] == r[j]);
                assert(s.drop_last().contains(rp[j]));
                let w = choose|k: int|
                    0 <= k < s.drop_last().len() && s.drop_last()[k] == rp[j];
                assert(s[w] == rp[j]);
            } else {
                assert(r[j] == s.last());
                assert(s[s.len() - 1] == s.last());
            }
        };
        assert forall|i: ComponentIndex|
            s.contains(i) && comps[i as int].is_active implies r.contains(i) by {
            let w = choose|k: int| 0 <= k < s.len() && s[k] == i;
            if w < s.len() - 1 {
                assert(s.drop_last()[w] == i);
                assert(s.drop_last().contains(i));
                assert(rp.contains(i));
                let u = choose|k: int| 0 <= k < rp.len() && rp[k] == i;
                assert(r[u] == i);
            } else {
                assert(s.last() == i);
                assert(r.last() == i);
            }
        };
    }
}

/// Adjacency is symmetric: an active component incident to a node appears
/// in that node's connections.
pub proof fn lemma_adjacency_symmetric(g: CircuitGraph, i: ComponentIndex, n: int)
    requires
        g.wf(),
        i < g.components@.len(),
        0 <= n < g.nodes@.len(),
        incident(g.components@[i as int], n),
        g.components@[i as int].is_active,
    ensures
        g.spec_connections(n).contains(i),
{
    assert(g.adj()[n].contains(i));
    lemma_active_seq_elems(g.components@, g.adj()[n]);
}

/// Connections lists only active components, each incident to the node and
/// in range.
pub proof fn lemma_connections_active(g: CircuitGraph, n: int)
    requires
        g.wf(),
        0 <= n < g.nodes@.len(),
    ensures
        forall|j: int|
            0 <= j < g.spec_connections(n).len() ==> {
                let i = #[trigger] g.spec_connections(n)[j];
                i < g.components@.len() && g.components@[i as int].is_active && incident(
                    g.components@[i as int],
                    n,
                )
            },
{
    lemma_active_seq_elems(g.components@, g.adj()[n]);
    assert forall|j: int| 0 <= j < g.spec_connections(n).len() implies {
        let i = #[trigger] g.spec_connections(n)[j];
        i < g.components@.len() && g.components@[i as int].is_active && incident(
            g.components@[i as int],
            n,
        )
    } by {
        let i = g.spec_connections(n)[j];
        assert(g.adj()[n].contains(i));
        let w = choose|k: int| 0 <= k < g.adj()[n].len() && g.adj()[n][k] == i;
        assert(g.adj()[n][w] < g.components@.len() && incident(
            g.components@[g.adj()[n][w] as int],
            n,
        ));
    };
}

} // verus!
