//! How a system registry takes in newly added nodes: it checks the labels
//! each node names, turns them into ids, and adds the node to the hierarchy
//! and to the graphs of the sets it belongs to. Labels are given as numbers
//! that stand for them.

use vstd::prelude::*;

use crate::descriptor::{Order, RegId};
use petgraph::graphmap::GraphMap;
use petgraph::Directed;
use std::collections::hash_map::RandomState;
use crate::access::Access;
use crate::component::ComponentId;
use crate::hierarchy::{
    add_edge, graph_map_edges, graph_map_edges_vec, graph_map_new, graph_map_nodes, gives_node_accesses, hierarchy_error, intersecting_sets, intersection_pairs, intersections, lists_unordered,
    members_below_sets, node_accesses, reached, walk_down, walk_up,
};
use crate::schedule::{
    access_keys_unique, check_conflicts, find_cycles, graph_nodes, is_conflicting, tarjan_scc_of, Cycle,
    ScheduleBuildError,
};

verus! {

/// How a node asks to be scheduled: its own label, the labels of the sets it
/// belongs to, and the labels of the nodes it runs before or after.
#[derive(Debug, Clone)]
pub struct Scheduling {
    pub name: Option<u64>,
    pub sets: Vec<u64>,
    pub edges: Vec<(Order, u64)>,
}

/// The same request with every label turned into the id registered for it.
#[derive(Debug, Clone)]
pub struct IndexedScheduling {
    pub sets: Vec<RegId>,
    pub edges: Vec<(Order, RegId)>,
}

/// The id registered for a label, if any.
pub open spec fn label_id(ids: Seq<(u64, RegId)>, label: u64) -> Option<RegId> {
    if exists|j: int| 0 <= j < ids.len() && #[trigger] ids[j].0 == label {
        Some(ids[choose|j: int| 0 <= j < ids.len() && #[trigger] ids[j].0 == label].1)
    } else {
        None
    }
}

/// Each label is registered once.
pub open spec fn labels_unique(ids: Seq<(u64, RegId)>) -> bool {
    forall|i: int, j: int|
        0 <= i < ids.len() && 0 <= j < ids.len() && #[trigger] ids[i].0 == #[trigger] ids[j].0 ==> i == j
}

/// What is wrong with a set that a node names, if anything: the node itself,
/// an unknown label, or the label of a system.
pub open spec fn set_label_error(name: Option<u64>, ids: Seq<(u64, RegId)>, label: u64) -> Option<
    ScheduleBuildError,
> {
    if name == Some(label) {
        Some(ScheduleBuildError::HierarchyLoop)
    } else {
        match label_id(ids, label) {
            None => Some(ScheduleBuildError::UnknownSetLabel),
            Some(id) => if id is System {
                Some(ScheduleBuildError::InvalidSetLabel)
            } else {
                None
            },
        }
    }
}

/// What is wrong with a node that a node is ordered with, if anything: the
/// node itself, or an unknown label.
pub open spec fn edge_label_error(name: Option<u64>, ids: Seq<(u64, RegId)>, label: u64) -> Option<
    ScheduleBuildError,
> {
    if name == Some(label) {
        Some(ScheduleBuildError::DependencyLoop)
    } else if label_id(ids, label) is None {
        Some(ScheduleBuildError::UnknownDependencyLabel)
    } else {
        None
    }
}

/// The first error among the sets a node names, from position `i` on.
pub open spec fn first_set_error(name: Option<u64>, ids: Seq<(u64, RegId)>, sets: Seq<u64>, i: int) -> Option<
    ScheduleBuildError,
>
    decreases sets.len() - i,
{
    if i < 0 || i >= sets.len() {
        None
    } else if set_label_error(name, ids, sets[i]) is Some {
        set_label_error(name, ids, sets[i])
    } else {
        first_set_error(name, ids, sets, i + 1)
    }
}

/// The first error among the nodes a node is ordered with, from position `i` on.
pub open spec fn first_edge_error(
    name: Option<u64>,
    ids: Seq<(u64, RegId)>,
    edges: Seq<(Order, u64)>,
    i: int,
) -> Option<ScheduleBuildError>
    decreases edges.len() - i,
{
    if i < 0 || i >= edges.len() {
        None
    } else if edge_label_error(name, ids, edges[i].1) is Some {
        edge_label_error(name, ids, edges[i].1)
    } else {
        first_edge_error(name, ids, edges, i + 1)
    }
}

/// The first error of a node: its sets are looked at before its orderings.
pub open spec fn node_error(n: Scheduling, ids: Seq<(u64, RegId)>) -> Option<ScheduleBuildError> {
    if first_set_error(n.name, ids, n.sets@, 0) is Some {
        first_set_error(n.name, ids, n.sets@, 0)
    } else {
        first_edge_error(n.name, ids, n.edges@, 0)
    }
}

/// The first error of the nodes, from position `i` on, in their order.
pub open spec fn first_node_error(nodes: Seq<Scheduling>, ids: Seq<(u64, RegId)>, i: int) -> Option<
    ScheduleBuildError,
>
    decreases nodes.len() - i,
{
    if i < 0 || i >= nodes.len() {
        None
    } else if node_error(nodes[i], ids) is Some {
        node_error(nodes[i], ids)
    } else {
        first_node_error(nodes, ids, i + 1)
    }
}

/// The id registered for a label, if any.
fn find_label(ids: &Vec<(u64, RegId)>, label: u64) -> (r: Option<RegId>)
    requires
        labels_unique(ids@),
    ensures
        r == label_id(ids@, label),
{
    let mut j: usize = 0;
    while j < ids.len()
        invariant
            j <= ids@.len(),
            labels_unique(ids@),
            forall|k: int| 0 <= k < j ==> ids@[k].0 != label,
        decreases ids@.len() - j,
    {
        if ids[j].0 == label {
            proof {
                let w = choose|k: int| 0 <= k < ids@.len() && #[trigger] ids@[k].0 == label;
                assert(ids@[w].0 == ids@[j as int].0);
            }
            return Some(ids[j].1);
        }
        j = j + 1;
    }
    None
}

/// Whether the node is named by the label.
fn is_named(name: Option<u64>, label: u64) -> (r: bool)
    ensures
        r == (name == Some(label)),
{
    match name {
        Some(n) => n == label,
        None => false,
    }
}

/// The first error of one node.
fn check_node(n: &Scheduling, ids: &Vec<(u64, RegId)>) -> (r: Option<ScheduleBuildError>)
    requires
        labels_unique(ids@),
    ensures
        r == node_error(*n, ids@),
{
    let mut k: usize = 0;
    while k < n.sets.len()
        invariant
            k <= n.sets@.len(),
            labels_unique(ids@),
            first_set_error(n.name, ids@, n.sets@, 0) == first_set_error(n.name, ids@, n.sets@, k as int),
        decreases n.sets@.len() - k,
    {
        let label = n.sets[k];
        if is_named(n.name, label) {
            return Some(ScheduleBuildError::HierarchyLoop);
        }
        match find_label(ids, label) {
            None => {
                return Some(ScheduleBuildError::UnknownSetLabel);
            },
            Some(id) => {
                if id.is_system() {
                    return Some(ScheduleBuildError::InvalidSetLabel);
                }
            },
        }
        k = k + 1;
    }
    let mut k: usize = 0;
    while k < n.edges.len()
        invariant
            k <= n.edges@.len(),
            labels_unique(ids@),
            first_set_error(n.name, ids@, n.sets@, 0) is None,
            first_edge_error(n.name, ids@, n.edges@, 0) == first_edge_error(n.name, ids@, n.edges@, k as int),
        decreases n.edges@.len() - k,
    {
        let label = n.edges[k].1;
        if is_named(n.name, label) {
            return Some(ScheduleBuildError::DependencyLoop);
        }
        if find_label(ids, label).is_none() {
            return Some(ScheduleBuildError::UnknownDependencyLabel);
        }
        k = k + 1;
    }
    None
}

/// Checks the labels that the new nodes name, node by node in their order,
/// and for each node its sets before its orderings: a node may not belong
/// to itself, nor to an unknown label or a system; it may not be ordered
/// with itself nor with an unknown label. Returns the first error found.
pub fn check_scheduling(nodes: &Vec<Scheduling>, ids: &Vec<(u64, RegId)>) -> (r: Result<
    (),
    ScheduleBuildError,
>)
    requires
        labels_unique(ids@),
    ensures
        r is Ok <==> first_node_error(nodes@, ids@, 0) is None,
        r is Err ==> r == Err::<(), ScheduleBuildError>(first_node_error(nodes@, ids@, 0).unwrap()),
{
    let mut k: usize = 0;
    while k < nodes.len()
        invariant
            k <= nodes@.len(),
            labels_unique(ids@),
            first_node_error(nodes@, ids@, 0) == first_node_error(nodes@, ids@, k as int),
        decreases nodes@.len() - k,
    {
        match check_node(&nodes[k], ids) {
            Some(e) => {
                return Err(e);
            },
            None => {},
        }
        k = k + 1;
    }
    Ok(())
}

/// Whether every node is named by a registered label.
pub open spec fn nodes_named(nodes: Seq<Scheduling>, ids: Seq<(u64, RegId)>) -> bool {
    forall|k: int|
        0 <= k < nodes.len() ==> (#[trigger] nodes[k]).name is Some && label_id(ids, nodes[k].name.unwrap())
            is Some
}

/// A request with its labels turned into ids.
pub open spec fn indexed_of(n: Scheduling, ids: Seq<(u64, RegId)>) -> (RegId, Seq<RegId>, Seq<
    (Order, RegId),
>) {
    (
        label_id(ids, n.name.unwrap()).unwrap(),
        n.sets@.map_values(|l: u64| label_id(ids, l).unwrap()),
        n.edges@.map_values(|e: (Order, u64)| (e.0, label_id(ids, e.1).unwrap())),
    )
}

/// Turns the labels of each checked request into ids.
pub fn index_scheduling(nodes: &Vec<Scheduling>, ids: &Vec<(u64, RegId)>) -> (r: Vec<
    (RegId, IndexedScheduling),
>)
    requires
        labels_unique(ids@),
        first_node_error(nodes@, ids@, 0) is None,
        nodes_named(nodes@, ids@),
    ensures
        r@.len() == nodes@.len(),
        forall|k: int|
            0 <= k < r@.len() ==> ((#[trigger] r@[k]).0, r@[k].1.sets@, r@[k].1.edges@) == indexed_of(
                nodes@[k],
                ids@,
            ),
{
    let mut r: Vec<(RegId, IndexedScheduling)> = Vec::new();
    let mut k: usize = 0;
    while k < nodes.len()
        invariant
            k <= nodes@.len(),
            labels_unique(ids@),
            first_node_error(nodes@, ids@, 0) == first_node_error(nodes@, ids@, k as int),
            first_node_error(nodes@, ids@, 0) is None,
            nodes_named(nodes@, ids@),
            r@.len() == k,
            forall|q: int|
                0 <= q < k ==> ((#[trigger] r@[q]).0, r@[q].1.sets@, r@[q].1.edges@) == indexed_of(
                    nodes@[q],
                    ids@,
                ),
        decreases nodes@.len() - k,
    {
        let n = &nodes[k];
        assert(node_error(nodes@[k as int], ids@) is None);
        let id = match n.name {
            Some(l) => find_label(ids, l).unwrap(),
            None => RegId::System(0),
        };
        let mut sets: Vec<RegId> = Vec::new();
        let mut i: usize = 0;
        while i < n.sets.len()
            invariant
                i <= n.sets@.len(),
                labels_unique(ids@),
                first_set_error(n.name, ids@, n.sets@, 0) is None,
                first_set_error(n.name, ids@, n.sets@, 0) == first_set_error(n.name, ids@, n.sets@, i as int),
                sets@ == n.sets@.subrange(0, i as int).map_values(|l: u64| label_id(ids@, l).unwrap()),
            decreases n.sets@.len() - i,
        {
            let id = find_label(ids, n.sets[i]).unwrap();
            sets.push(id);
            proof {
                assert(sets@ =~= n.sets@.subrange(0, i + 1).map_values(|l: u64| label_id(ids@, l).unwrap()));
            }
            i = i + 1;
        }
        let mut edges: Vec<(Order, RegId)> = Vec::new();
        let mut i: usize = 0;
        while i < n.edges.len()
            invariant
                i <= n.edges@.len(),
                labels_unique(ids@),
                first_edge_error(n.name, ids@, n.edges@, 0) is None,
                first_edge_error(n.name, ids@, n.edges@, 0) == first_edge_error(n.name, ids@, n.edges@, i as int),
                edges@ == n.edges@.subrange(0, i as int).map_values(
                    |e: (Order, u64)| (e.0, label_id(ids@, e.1).unwrap()),
                ),
            decreases n.edges@.len() - i,
        {
            let id = find_label(ids, n.edges[i].1).unwrap();
            edges.push((n.edges[i].0, id));
            proof {
                assert(edges@ =~= n.edges@.subrange(0, i + 1).map_values(
                    |e: (Order, u64)| (e.0, label_id(ids@, e.1).unwrap()),
                ));
            }
            i = i + 1;
        }
        proof {
            assert(n.sets@.subrange(0, n.sets@.len() as int) =~= n.sets@);
            assert(n.edges@.subrange(0, n.edges@.len() as int) =~= n.edges@);
        }
        r.push((id, IndexedScheduling { sets, edges }));
        k = k + 1;
    }
    r
}

/// The sets of the new node with the id, when it is one of them.
pub open spec fn sets_of(indexed: Seq<(RegId, IndexedScheduling)>, id: RegId) -> Seq<RegId> {
    indexed[choose|j: int| 0 <= j < indexed.len() && #[trigger] indexed[j].0 == id].1.sets@
}

/// Whether two lists of sets have no set in common.
pub open spec fn no_common_set(a: Seq<RegId>, b: Seq<RegId>) -> bool {
    forall|i: int, j: int| 0 <= i < a.len() && 0 <= j < b.len() ==> #[trigger] a[i] != #[trigger] b[j]
}

/// The edge an ordering stands for: from the node that runs first.
pub open spec fn oriented(id: RegId, e: (Order, RegId)) -> (RegId, RegId) {
    match e.0 {
        Order::Before => (id, e.1),
        Order::After => (e.1, id),
    }
}

/// Whether some new node is ordered with a new node that shares no set with it.
pub open spec fn cross_dependency(indexed: Seq<(RegId, IndexedScheduling)>) -> bool {
    exists|k: int, e: int|
        0 <= k < indexed.len() && 0 <= e < indexed[k].1.edges@.len() && no_common_set(
            (#[trigger] indexed[k]).1.sets@,
            sets_of(indexed, (#[trigger] indexed[k].1.edges@[e]).1),
        )
}

/// What the new nodes add: the edges from each set to its new members (which
/// are also the nodes added to the graphs of those sets), and for each set
/// the orderings between its members.
pub struct GraphAdditions {
    pub hier_edges: Vec<(RegId, RegId)>,
    pub set_edges: Vec<(RegId, (RegId, RegId))>,
}

/// Each new node has one request, and every node a new node is ordered with
/// is new too.
pub open spec fn indexed_ok(indexed: Seq<(RegId, IndexedScheduling)>) -> bool {
    &&& forall|i: int, j: int|
        0 <= i < indexed.len() && 0 <= j < indexed.len() && #[trigger] indexed[i].0
            == #[trigger] indexed[j].0 ==> i == j
    &&& forall|k: int, e: int|
        0 <= k < indexed.len() && 0 <= e < indexed[k].1.edges@.len() ==> exists|j: int|
            0 <= j < indexed.len() && #[trigger] indexed[j].0 == (#[trigger] indexed[k].1.edges@[e]).1
}

/// Where the request of a new node is.
fn find_indexed(indexed: &Vec<(RegId, IndexedScheduling)>, id: RegId) -> (j: usize)
    requires
        forall|i: int, j: int|
            0 <= i < indexed@.len() && 0 <= j < indexed@.len() && #[trigger] indexed@[i].0
                == #[trigger] indexed@[j].0 ==> i == j,
        exists|j: int| 0 <= j < indexed@.len() && #[trigger] indexed@[j].0 == id,
    ensures
        j < indexed@.len(),
        indexed@[j as int].0 == id,
        indexed@[j as int].1.sets@ == sets_of(indexed@, id),
{
    let mut j: usize = 0;
    while j < indexed.len()
        invariant
            j <= indexed@.len(),
            forall|k: int| 0 <= k < j ==> indexed@[k].0 != id,
            forall|i: int, j: int|
                0 <= i < indexed@.len() && 0 <= j < indexed@.len() && #[trigger] indexed@[i].0
                    == #[trigger] indexed@[j].0 ==> i == j,
            exists|j: int| 0 <= j < indexed@.len() && #[trigger] indexed@[j].0 == id,
        decreases indexed@.len() - j,
    {
        if indexed[j].0 == id {
            proof {
                let w = choose|k: int| 0 <= k < indexed@.len() && #[trigger] indexed@[k].0 == id;
                assert(indexed@[w].0 == indexed@[j as int].0);
            }
            return j;
        }
        j = j + 1;
    }
    proof {
        let w = choose|k: int| 0 <= k < indexed@.len() && #[trigger] indexed@[k].0 == id;
        assert(indexed@[w].0 == id);
    }
    0
}

/// Whether the list holds the id.
fn holds(v: &Vec<RegId>, id: RegId) -> (r: bool)
    ensures
        r == v@.contains(id),
{
    let mut i: usize = 0;
    while i < v.len()
        invariant
            i <= v@.len(),
            forall|k: int| 0 <= k < i ==> v@[k] != id,
        decreases v@.len() - i,
    {
        if v[i] == id {
            return true;
        }
        i = i + 1;
    }
    false
}

/// Adds the new nodes to the hierarchy (an edge from each of its sets) and
/// to the graphs of their sets (each ordering, in every set the two nodes
/// share). Fails with a cross dependency when two ordered nodes share no set.
pub fn add_to_graphs(indexed: &Vec<(RegId, IndexedScheduling)>) -> (r: Result<
    GraphAdditions,
    ScheduleBuildError,
>)
    requires
        indexed_ok(indexed@),
    ensures
        r is Err <==> cross_dependency(indexed@),
        r is Err ==> r == Err::<GraphAdditions, ScheduleBuildError>(ScheduleBuildError::CrossDependency),
        r matches Ok(g) ==> (forall|e: (RegId, RegId)|
            #[trigger] g.hier_edges@.contains(e) <==> exists|k: int|
                0 <= k < indexed@.len() && (#[trigger] indexed@[k]).0 == e.1 && indexed@[k].1.sets@.contains(
                    e.0,
                )),
        r matches Ok(g) ==> (forall|t: (RegId, (RegId, RegId))|
            #[trigger] g.set_edges@.contains(t) <==> exists|k: int, e: int|
                0 <= k < indexed@.len() && 0 <= e < indexed@[k].1.edges@.len() && oriented(
                    (#[trigger] indexed@[k]).0,
                    #[trigger] indexed@[k].1.edges@[e],
                ) == t.1 && indexed@[k].1.sets@.contains(t.0) && sets_of(
                    indexed@,
                    indexed@[k].1.edges@[e].1,
                ).contains(t.0)),
{
    let mut hier_edges: Vec<(RegId, RegId)> = Vec::new();
    let mut set_edges: Vec<(RegId, (RegId, RegId))> = Vec::new();
    let mut k: usize = 0;
    while k < indexed.len()
        invariant
            k <= indexed@.len(),
            indexed_ok(indexed@),
            forall|kk: int, e: int|
                0 <= kk < k && 0 <= e < indexed@[kk].1.edges@.len() ==> !no_common_set(
                    (#[trigger] indexed@[kk]).1.sets@,
                    sets_of(indexed@, (#[trigger] indexed@[kk].1.edges@[e]).1),
                ),
            forall|e: (RegId, RegId)|
                #[trigger] hier_edges@.contains(e) <==> exists|kk: int|
                    0 <= kk < k && (#[trigger] indexed@[kk]).0 == e.1 && indexed@[kk].1.sets@.contains(e.0),
            forall|t: (RegId, (RegId, RegId))|
                #[trigger] set_edges@.contains(t) <==> exists|kk: int, e: int|
                    0 <= kk < k && 0 <= e < indexed@[kk].1.edges@.len() && oriented(
                        (#[trigger] indexed@[kk]).0,
                        #[trigger] indexed@[kk].1.edges@[e],
                    ) == t.1 && indexed@[kk].1.sets@.contains(t.0) && sets_of(
                        indexed@,
                        indexed@[kk].1.edges@[e].1,
                    ).contains(t.0),
        decreases indexed@.len() - k,
    {
        let id = indexed[k].0;
        let sched = &indexed[k].1;
        let ghost old_hier = hier_edges@;
        let mut i: usize = 0;
        while i < sched.sets.len()
            invariant
                k < indexed@.len(),
                *sched == indexed@[k as int].1,
                id == indexed@[k as int].0,
                i <= sched.sets@.len(),
                forall|e: (RegId, RegId)|
                    #[trigger] hier_edges@.contains(e) <==> (old_hier.contains(e) || (e.1 == id && exists|ii: int|
                        0 <= ii < i && sched.sets@[ii] == e.0)),
            decreases sched.sets@.len() - i,
        {
            let ghost before = hier_edges@;
            hier_edges.push((sched.sets[i], id));
            proof {
                assert forall|e: (RegId, RegId)| #[trigger] hier_edges@.contains(e) <==> (old_hier.contains(e) || (e.1
                    == id && exists|ii: int| 0 <= ii < i + 1 && sched.sets@[ii] == e.0)) by {
                    if hier_edges@.contains(e) && e != (sched.sets@[i as int], id) {
                        let w = choose|w: int| 0 <= w < hier_edges@.len() && hier_edges@[w] == e;
                        assert(before[w] == e);
                        assert(before.contains(e));
                    }
                    if e == (sched.sets@[i as int], id) {
                        assert(hier_edges@[hier_edges@.len() - 1] == e);
                    } else if old_hier.contains(e) || (e.1 == id && exists|ii: int|
                        0 <= ii < i + 1 && sched.sets@[ii] == e.0) {
                        if e.1 == id && exists|ii: int| 0 <= ii < i + 1 && sched.sets@[ii] == e.0 {
                            let ii = choose|ii: int| 0 <= ii < i + 1 && sched.sets@[ii] == e.0;
                        }
                        assert(before.contains(e));
                        let w = choose|w: int| 0 <= w < before.len() && before[w] == e;
                        assert(hier_edges@[w] == e);
                    }
                }
            }
            i = i + 1;
        }
        proof {
            assert forall|e: (RegId, RegId)| #[trigger] hier_edges@.contains(e) <==> exists|kk: int|
                0 <= kk < k + 1 && (#[trigger] indexed@[kk]).0 == e.1 && indexed@[kk].1.sets@.contains(e.0) by {
                if exists|kk: int|
                    0 <= kk < k + 1 && (#[trigger] indexed@[kk]).0 == e.1 && indexed@[kk].1.sets@.contains(e.0) {
                    let kk = choose|kk: int|
                        0 <= kk < k + 1 && (#[trigger] indexed@[kk]).0 == e.1 && indexed@[kk].1.sets@.contains(e.0);
                    if kk == k {
                        let ii = choose|ii: int| 0 <= ii < sched.sets@.len() && sched.sets@[ii] == e.0;
                    }
                }
                if hier_edges@.contains(e) && !old_hier.contains(e) {
                    let ii = choose|ii: int| 0 <= ii < sched.sets@.len() && sched.sets@[ii] == e.0;
                    assert(sched.sets@.contains(e.0));
                }
            }
        }
        let ghost old_set_edges = set_edges@;
        let mut j: usize = 0;
        while j < sched.edges.len()
            invariant
                k < indexed@.len(),
                indexed_ok(indexed@),
                *sched == indexed@[k as int].1,
                id == indexed@[k as int].0,
                j <= sched.edges@.len(),
                forall|e: int|
                    0 <= e < j ==> !no_common_set(
                        sched.sets@,
                        sets_of(indexed@, (#[trigger] sched.edges@[e]).1),
                    ),
                forall|t: (RegId, (RegId, RegId))|
                    #[trigger] set_edges@.contains(t) <==> (old_set_edges.contains(t) || exists|e: int|
                        0 <= e < j && oriented(id, #[trigger] sched.edges@[e]) == t.1 && sched.sets@.contains(
                            t.0,
                        ) && sets_of(indexed@, sched.edges@[e].1).contains(t.0)),
            decreases sched.edges@.len() - j,
        {
            let (order, other) = sched.edges[j];
            let (before, after) = match order {
                Order::Before => (id, other),
                Order::After => (other, id),
            };
            proof {
                assert(exists|jj: int| 0 <= jj < indexed@.len() && #[trigger] indexed@[jj].0 == indexed@[k as int].1.edges@[j as int].1);
            }
            let o = find_indexed(indexed, other);
            let other_sets = &indexed[o].1.sets;
            let ghost before_edges = set_edges@;
            let mut shared = false;
            let mut i: usize = 0;
            while i < sched.sets.len()
                invariant
                    i <= sched.sets@.len(),
                    other_sets@ == sets_of(indexed@, other),
                    shared <==> exists|a: int, b: int|
                        0 <= a < i && 0 <= b < other_sets@.len() && sched.sets@[a] == other_sets@[b],
                    forall|t: (RegId, (RegId, RegId))|
                        #[trigger] set_edges@.contains(t) <==> (before_edges.contains(t) || (t.1 == (before, after)
                            && exists|a: int| 0 <= a < i && sched.sets@[a] == t.0 && other_sets@.contains(t.0))),
                decreases sched.sets@.len() - i,
            {
                let s = sched.sets[i];
                if holds(other_sets, s) {
                    shared = true;
                    let ghost prev = set_edges@;
                    set_edges.push((s, (before, after)));
                    proof {
                        let b = choose|b: int| 0 <= b < other_sets@.len() && other_sets@[b] == s;
                        assert(sched.sets@[i as int] == other_sets@[b]);
                        assert forall|t: (RegId, (RegId, RegId))| #[trigger] set_edges@.contains(t) <==> (before_edges.contains(t)
                            || (t.1 == (before, after) && exists|a: int|
                            0 <= a < i + 1 && sched.sets@[a] == t.0 && other_sets@.contains(t.0))) by {
                            if t == (s, (before, after)) {
                                assert(set_edges@[set_edges@.len() - 1] == t);
                                assert(sched.sets@[i as int] == t.0);
                            } else {
                                if set_edges@.contains(t) {
                                    let w = choose|w: int| 0 <= w < set_edges@.len() && set_edges@[w] == t;
                                    assert(prev[w] == t);
                                    assert(prev.contains(t));
                                }
                                if before_edges.contains(t) || (t.1 == (before, after) && exists|a: int|
                                    0 <= a < i + 1 && sched.sets@[a] == t.0 && other_sets@.contains(t.0)) {
                                    if t.1 == (before, after) && exists|a: int|
                                        0 <= a < i + 1 && sched.sets@[a] == t.0 && other_sets@.contains(t.0) {
                                        let a = choose|a: int|
                                            0 <= a < i + 1 && sched.sets@[a] == t.0 && other_sets@.contains(t.0);
                                    }
                                    assert(prev.contains(t));
                                    let w = choose|w: int| 0 <= w < prev.len() && prev[w] == t;
                                    assert(set_edges@[w] == t);
                                }
                            }
                        }
                    }
                } else {
                    proof {
                        assert forall|t: (RegId, (RegId, RegId))| #[trigger] set_edges@.contains(t) <==> (before_edges.contains(t)
                            || (t.1 == (before, after) && exists|a: int|
                            0 <= a < i + 1 && sched.sets@[a] == t.0 && other_sets@.contains(t.0))) by {
                            if t.1 == (before, after) && exists|a: int|
                                0 <= a < i + 1 && sched.sets@[a] == t.0 && other_sets@.contains(t.0) {
                                let a = choose|a: int|
                                    0 <= a < i + 1 && sched.sets@[a] == t.0 && other_sets@.contains(t.0);
                                if a == i {
                                    assert(other_sets@.contains(s));
                                }
                            }
                        }
                        if exists|a: int, b: int|
                            0 <= a < i + 1 && 0 <= b < other_sets@.len() && sched.sets@[a] == other_sets@[b] {
                            let (a, b) = choose|a: int, b: int|
                                0 <= a < i + 1 && 0 <= b < other_sets@.len() && sched.sets@[a] == other_sets@[b];
                            if a == i {
                                assert(other_sets@.contains(s));
                            }
                        }
                    }
                }
                i = i + 1;
            }
            if !shared {
                proof {
                    assert(no_common_set(sched.sets@, sets_of(indexed@, other))) by {
                        assert forall|a: int, b: int|
                            0 <= a < sched.sets@.len() && 0 <= b < other_sets@.len() implies #[trigger] sched.sets@[a]
                            != #[trigger] other_sets@[b] by {
                        }
                    }
                    assert(indexed@[k as int].1.edges@[j as int] == sched.edges@[j as int]);
                }
                return Err(ScheduleBuildError::CrossDependency);
            }
            proof {
                assert(!no_common_set(sched.sets@, sets_of(indexed@, sched.edges@[j as int].1))) by {
                    let (a, b) = choose|a: int, b: int|
                        0 <= a < sched.sets@.len() && 0 <= b < other_sets@.len() && sched.sets@[a] == other_sets@[b];
                    assert(sched.sets@[a] == other_sets@[b]);
                }
                assert forall|t: (RegId, (RegId, RegId))| #[trigger] set_edges@.contains(t) <==> (old_set_edges.contains(t)
                    || exists|e: int|
                    0 <= e < j + 1 && oriented(id, #[trigger] sched.edges@[e]) == t.1 && sched.sets@.contains(t.0)
                        && sets_of(indexed@, sched.edges@[e].1).contains(t.0)) by {
                    assert(oriented(id, sched.edges@[j as int]) == (before, after));
                    if set_edges@.contains(t) && !before_edges.contains(t) {
                        let a = choose|a: int| 0 <= a < sched.sets@.len() && sched.sets@[a] == t.0 && other_sets@.contains(t.0);
                        assert(sched.sets@.contains(t.0));
                    }
                    if exists|e: int|
                        0 <= e < j + 1 && oriented(id, #[trigger] sched.edges@[e]) == t.1 && sched.sets@.contains(t.0)
                            && sets_of(indexed@, sched.edges@[e].1).contains(t.0) {
                        let e = choose|e: int|
                            0 <= e < j + 1 && oriented(id, #[trigger] sched.edges@[e]) == t.1 && sched.sets@.contains(t.0)
                                && sets_of(indexed@, sched.edges@[e].1).contains(t.0);
                        if e == j {
                            let a = choose|a: int| 0 <= a < sched.sets@.len() && sched.sets@[a] == t.0;
                            assert(exists|a: int| 0 <= a < sched.sets@.len() && sched.sets@[a] == t.0 && other_sets@.contains(t.0));
                        }
                    }
                }
            }
            j = j + 1;
        }
        proof {
            assert forall|t: (RegId, (RegId, RegId))| #[trigger] set_edges@.contains(t) <==> exists|kk: int, e: int|
                0 <= kk < k + 1 && 0 <= e < indexed@[kk].1.edges@.len() && oriented(
                    (#[trigger] indexed@[kk]).0,
                    #[trigger] indexed@[kk].1.edges@[e],
                ) == t.1 && indexed@[kk].1.sets@.contains(t.0) && sets_of(
                    indexed@,
                    indexed@[kk].1.edges@[e].1,
                ).contains(t.0) by {
                if exists|kk: int, e: int|
                    0 <= kk < k + 1 && 0 <= e < indexed@[kk].1.edges@.len() && oriented(
                        (#[trigger] indexed@[kk]).0,
                        #[trigger] indexed@[kk].1.edges@[e],
                    ) == t.1 && indexed@[kk].1.sets@.contains(t.0) && sets_of(
                        indexed@,
                        indexed@[kk].1.edges@[e].1,
                    ).contains(t.0) {
                    let (kk, e) = choose|kk: int, e: int|
                        0 <= kk < k + 1 && 0 <= e < indexed@[kk].1.edges@.len() && oriented(
                            (#[trigger] indexed@[kk]).0,
                            #[trigger] indexed@[kk].1.edges@[e],
                        ) == t.1 && indexed@[kk].1.sets@.contains(t.0) && sets_of(
                            indexed@,
                            indexed@[kk].1.edges@[e].1,
                        ).contains(t.0);
                    if kk == k {
                        assert(oriented(id, sched.edges@[e]) == t.1);
                    }
                }
                if set_edges@.contains(t) && !old_set_edges.contains(t) {
                    let e = choose|e: int|
                        0 <= e < sched.edges@.len() && oriented(id, #[trigger] sched.edges@[e]) == t.1 && sched.sets@.contains(
                            t.0,
                        ) && sets_of(indexed@, sched.edges@[e].1).contains(t.0);
                    assert(indexed@[k as int].1.edges@[e] == sched.edges@[e]);
                }
            }
            assert forall|kk: int, e: int|
                0 <= kk < k + 1 && 0 <= e < indexed@[kk].1.edges@.len() implies !no_common_set(
                (#[trigger] indexed@[kk]).1.sets@,
                sets_of(indexed@, (#[trigger] indexed@[kk].1.edges@[e]).1),
            ) by {
                if kk == k {
                    assert(indexed@[kk].1.edges@[e] == sched.edges@[e]);
                }
            }
        }
        k = k + 1;
    }
    Ok(GraphAdditions { hier_edges, set_edges })
}

/// The registry of systems and system sets: the id given to each label, the
/// hierarchy of sets and members (a `petgraph` graph map from each set to its
/// members), the orderings inside each set, the sets
/// marked as changed, and the nodes added since the graphs were last built.
/// The systems and conditions themselves are held by the caller under
/// their ids.
pub struct SystemRegistry {
    next_id: u64,
    ids: Vec<(u64, RegId)>,
    hier: GraphMap<RegId, (), Directed, RandomState>,
    set_edges: Vec<(RegId, (RegId, RegId))>,
    modified: Vec<RegId>,
    uninit_nodes: Vec<Scheduling>,
}

/// The number inside an id.
pub open spec fn id_number(id: RegId) -> u64 {
    match id {
        RegId::System(n) => n,
        RegId::SystemSet(n) => n,
    }
}

impl SystemRegistry {
    pub closed spec fn spec_next_id(&self) -> u64 {
        self.next_id
    }

    pub closed spec fn spec_ids(&self) -> Seq<(u64, RegId)> {
        self.ids@
    }

    pub closed spec fn spec_hier_edges(&self) -> Seq<(RegId, RegId)> {
        graph_map_edges(self.hier)
    }

    pub closed spec fn spec_set_edges(&self) -> Seq<(RegId, (RegId, RegId))> {
        self.set_edges@
    }

    pub closed spec fn spec_modified(&self) -> Seq<RegId> {
        self.modified@
    }

    pub closed spec fn spec_uninit(&self) -> Seq<Scheduling> {
        self.uninit_nodes@
    }

    /// Each label has one id, each id was handed out below the next number,
    /// every new node is named by a registered label, and only sets have
    /// members.
    pub closed spec fn wf(&self) -> bool {
        &&& labels_unique(self.ids@)
        &&& forall|i: int| 0 <= i < self.ids@.len() ==> id_number(#[trigger] self.ids@[i].1) < self.next_id
        &&& forall|i: int, j: int|
            0 <= i < self.ids@.len() && 0 <= j < self.ids@.len() && i != j ==> id_number(
                #[trigger] self.ids@[i].1,
            ) != id_number(#[trigger] self.ids@[j].1)
        &&& nodes_named(self.uninit_nodes@, self.ids@)
        &&& forall|i: int, j: int|
            0 <= i < self.uninit_nodes@.len() && 0 <= j < self.uninit_nodes@.len() && i != j
                ==> (#[trigger] self.uninit_nodes@[i]).name != (#[trigger] self.uninit_nodes@[j]).name
        &&& members_below_sets(graph_map_edges(self.hier))
        &&& graph_map_nodes(self.hier).no_duplicates()
        &&& graph_map_edges(self.hier).no_duplicates()
        &&& self.modified@.no_duplicates()
    }

    /// An empty registry.
    pub fn new() -> (r: SystemRegistry)
        ensures
            r.wf(),
            r.spec_next_id() == 0,
            r.spec_ids() == Seq::<(u64, RegId)>::empty(),
            r.spec_hier_edges() == Seq::<(RegId, RegId)>::empty(),
            r.spec_set_edges() == Seq::<(RegId, (RegId, RegId))>::empty(),
            r.spec_modified() == Seq::<RegId>::empty(),
            r.spec_uninit() == Seq::<Scheduling>::empty(),
    {
        SystemRegistry {
            next_id: 0,
            ids: Vec::new(),
            hier: graph_map_new(),
            set_edges: Vec::new(),
            modified: Vec::new(),
            uninit_nodes: Vec::new(),
        }
    }

    /// Whether a system or set is registered under `label`.
    pub fn contains(&self, label: u64) -> (r: bool)
        requires
            self.wf(),
        ensures
            r == label_id(self.spec_ids(), label) is Some,
    {
        find_label(&self.ids, label).is_some()
    }

    /// Registers a node under the next id: a system's when `is_system`,
    /// otherwise a set's.
    fn register(&mut self, scheduling: Scheduling, is_system: bool) -> (r: RegId)
        requires
            old(self).wf(),
            scheduling.name is Some,
            label_id(old(self).spec_ids(), scheduling.name.unwrap()) is None,
            old(self).spec_next_id() < u64::MAX,
        ensures
            final(self).wf(),
            r == if is_system {
                RegId::System(old(self).spec_next_id())
            } else {
                RegId::SystemSet(old(self).spec_next_id())
            },
            final(self).spec_next_id() == old(self).spec_next_id() + 1,
            final(self).spec_ids() == old(self).spec_ids().push((scheduling.name.unwrap(), r)),
            final(self).spec_uninit() == old(self).spec_uninit().push(scheduling),
            final(self).spec_hier_edges() == old(self).spec_hier_edges(),
            final(self).spec_set_edges() == old(self).spec_set_edges(),
            final(self).spec_modified() == old(self).spec_modified(),
    {
        let name = match scheduling.name {
            Some(n) => n,
            None => 0,
        };
        let id = if is_system {
            RegId::System(self.next_id)
        } else {
            RegId::SystemSet(self.next_id)
        };
        let ghost o = *self;
        self.next_id = self.next_id + 1;
        self.ids.push((name, id));
        self.uninit_nodes.push(scheduling);
        proof {
            let ids = self.ids@;
            assert forall|i: int, j: int|
                0 <= i < ids.len() && 0 <= j < ids.len() && #[trigger] ids[i].0 == #[trigger] ids[j].0 implies i == j by {
                if i < o.ids@.len() && j < o.ids@.len() {
                    assert(o.ids@[i].0 == o.ids@[j].0);
                } else if i < o.ids@.len() {
                    assert(o.ids@[i].0 == name);
                    assert(label_id(o.ids@, name) is Some);
                } else if j < o.ids@.len() {
                    assert(o.ids@[j].0 == name);
                    assert(label_id(o.ids@, name) is Some);
                }
            }
            assert forall|i: int| 0 <= i < ids.len() implies id_number(#[trigger] ids[i].1) < self.next_id by {
                if i < o.ids@.len() {
                    assert(o.ids@[i] == ids[i]);
                }
            }
            assert forall|i: int, j: int|
                0 <= i < ids.len() && 0 <= j < ids.len() && i != j implies id_number(#[trigger] ids[i].1)
                != id_number(#[trigger] ids[j].1) by {
                if i < o.ids@.len() && j < o.ids@.len() {
                    assert(o.ids@[i] == ids[i]);
                    assert(o.ids@[j] == ids[j]);
                } else if i < o.ids@.len() {
                    assert(o.ids@[i] == ids[i]);
                } else if j < o.ids@.len() {
                    assert(o.ids@[j] == ids[j]);
                }
            }
            assert forall|k: int| 0 <= k < self.uninit_nodes@.len() implies (#[trigger] self.uninit_nodes@[k]).name is Some
                && label_id(ids, self.uninit_nodes@[k].name.unwrap()) is Some by {
                let l = self.uninit_nodes@[k].name.unwrap();
                if k < o.uninit_nodes@.len() {
                    assert(o.uninit_nodes@[k] == self.uninit_nodes@[k]);
                    assert(label_id(o.ids@, l) is Some);
                    let w = choose|w: int| 0 <= w < o.ids@.len() && #[trigger] o.ids@[w].0 == l;
                    assert(ids[w].0 == l);
                } else {
                    assert(ids[ids.len() - 1].0 == l);
                }
            }
            assert forall|i: int, j: int|
                0 <= i < self.uninit_nodes@.len() && 0 <= j < self.uninit_nodes@.len() && i != j implies (#[trigger] self.uninit_nodes@[i]).name
                != (#[trigger] self.uninit_nodes@[j]).name by {
                if i < o.uninit_nodes@.len() && j < o.uninit_nodes@.len() {
                    assert(o.uninit_nodes@[i] == self.uninit_nodes@[i]);
                    assert(o.uninit_nodes@[j] == self.uninit_nodes@[j]);
                } else if i < o.uninit_nodes@.len() {
                    assert(o.uninit_nodes@[i] == self.uninit_nodes@[i]);
                    let l = o.uninit_nodes@[i].name.unwrap();
                    assert(label_id(o.ids@, l) is Some);
                } else if j < o.uninit_nodes@.len() {
                    assert(o.uninit_nodes@[j] == self.uninit_nodes@[j]);
                    let l = o.uninit_nodes@[j].name.unwrap();
                    assert(label_id(o.ids@, l) is Some);
                }
            }
        }
        id
    }

    /// Registers a system under its name, which must not be taken, and
    /// returns its id: the next number.
    pub fn add_system(&mut self, scheduling: Scheduling) -> (r: RegId)
        requires
            old(self).wf(),
            scheduling.name is Some,
            label_id(old(self).spec_ids(), scheduling.name.unwrap()) is None,
            old(self).spec_next_id() < u64::MAX,
        ensures
            final(self).wf(),
            r == RegId::System(old(self).spec_next_id()),
            final(self).spec_next_id() == old(self).spec_next_id() + 1,
            final(self).spec_ids() == old(self).spec_ids().push((scheduling.name.unwrap(), r)),
            final(self).spec_uninit() == old(self).spec_uninit().push(scheduling),
            final(self).spec_hier_edges() == old(self).spec_hier_edges(),
            final(self).spec_set_edges() == old(self).spec_set_edges(),
            final(self).spec_modified() == old(self).spec_modified(),
    {
        self.register(scheduling, true)
    }

    /// Registers a set under its name, which must not be taken, and returns
    /// its id: the next number.
    pub fn add_set(&mut self, scheduling: Scheduling) -> (r: RegId)
        requires
            old(self).wf(),
            scheduling.name is Some,
            label_id(old(self).spec_ids(), scheduling.name.unwrap()) is None,
            old(self).spec_next_id() < u64::MAX,
        ensures
            final(self).wf(),
            r == RegId::SystemSet(old(self).spec_next_id()),
            final(self).spec_next_id() == old(self).spec_next_id() + 1,
            final(self).spec_ids() == old(self).spec_ids().push((scheduling.name.unwrap(), r)),
            final(self).spec_uninit() == old(self).spec_uninit().push(scheduling),
            final(self).spec_hier_edges() == old(self).spec_hier_edges(),
            final(self).spec_set_edges() == old(self).spec_set_edges(),
            final(self).spec_modified() == old(self).spec_modified(),
    {
        self.register(scheduling, false)
    }
}

/// The sets a request names, turned into ids.
pub open spec fn mapped_sets(n: Scheduling, ids: Seq<(u64, RegId)>) -> Seq<RegId> {
    n.sets@.map_values(|l: u64| label_id(ids, l).unwrap())
}

/// Every node a new node is ordered with is new too.
pub open spec fn orderings_within_new(nodes: Seq<Scheduling>) -> bool {
    forall|k: int, e: int|
        0 <= k < nodes.len() && 0 <= e < nodes[k].edges@.len() ==> exists|m: int|
            0 <= m < nodes.len() && (#[trigger] nodes[m]).name == Some(
                (#[trigger] nodes[k].edges@[e]).1,
            )
}

/// Whether some new node is ordered with a new node with which it shares
/// no set.
pub open spec fn label_cross_dependency(nodes: Seq<Scheduling>, ids: Seq<(u64, RegId)>) -> bool {
    exists|k: int, e: int, m: int|
        0 <= k < nodes.len() && 0 <= e < nodes[k].edges@.len() && 0 <= m < nodes.len() && (#[trigger] nodes[m]).name
            == Some((#[trigger] nodes[k].edges@[e]).1) && no_common_set(
            mapped_sets(nodes[k], ids),
            mapped_sets(nodes[m], ids),
        )
}

/// Whether `t` is an ordering the new nodes add to the graph of a set: a new
/// node is ordered with a new node, `t.1` is that ordering from the node that
/// runs first, and `t.0` is a set the two nodes share.
pub open spec fn new_set_edge(nodes: Seq<Scheduling>, ids: Seq<(u64, RegId)>, t: (RegId, (RegId, RegId))) -> bool {
    exists|k: int, e: int, m: int|
        0 <= k < nodes.len() && 0 <= e < nodes[k].edges@.len() && 0 <= m < nodes.len() && (#[trigger] nodes[m]).name
            == Some((#[trigger] nodes[k].edges@[e]).1) && oriented(
            label_id(ids, nodes[k].name.unwrap()).unwrap(),
            (nodes[k].edges@[e].0, label_id(ids, nodes[k].edges@[e].1).unwrap()),
        ) == t.1 && mapped_sets(nodes[k], ids).contains(t.0) && mapped_sets(nodes[m], ids).contains(t.0)
}

/// An ordering the checked new nodes add to a set, told by ids, is one told
/// by their labels, and back.
proof fn lemma_new_set_edge(
    nodes: Seq<Scheduling>,
    ids: Seq<(u64, RegId)>,
    indexed: Seq<(RegId, IndexedScheduling)>,
    t: (RegId, (RegId, RegId)),
)
    requires
        indexed.len() == nodes.len(),
        forall|q: int|
            0 <= q < indexed.len() ==> ((#[trigger] indexed[q]).0, indexed[q].1.sets@, indexed[q].1.edges@)
                == indexed_of(nodes[q], ids),
        forall|i: int, j: int|
            0 <= i < indexed.len() && 0 <= j < indexed.len() && #[trigger] indexed[i].0 == #[trigger] indexed[j].0
                ==> i == j,
        orderings_within_new(nodes),
    ensures
        (exists|k: int, e: int|
            0 <= k < indexed.len() && 0 <= e < indexed[k].1.edges@.len() && oriented(
                (#[trigger] indexed[k]).0,
                #[trigger] indexed[k].1.edges@[e],
            ) == t.1 && indexed[k].1.sets@.contains(t.0) && sets_of(indexed, indexed[k].1.edges@[e].1).contains(
                t.0,
            )) <==> new_set_edge(nodes, ids, t),
{
    if new_set_edge(nodes, ids, t) {
        let (k, e, m) = choose|k: int, e: int, m: int|
            0 <= k < nodes.len() && 0 <= e < nodes[k].edges@.len() && 0 <= m < nodes.len() && (#[trigger] nodes[m]).name
                == Some((#[trigger] nodes[k].edges@[e]).1) && oriented(
                label_id(ids, nodes[k].name.unwrap()).unwrap(),
                (nodes[k].edges@[e].0, label_id(ids, nodes[k].edges@[e].1).unwrap()),
            ) == t.1 && mapped_sets(nodes[k], ids).contains(t.0) && mapped_sets(nodes[m], ids).contains(t.0);
        assert((indexed[k].0, indexed[k].1.sets@, indexed[k].1.edges@) == indexed_of(nodes[k], ids));
        assert((indexed[m].0, indexed[m].1.sets@, indexed[m].1.edges@) == indexed_of(nodes[m], ids));
        let target = indexed[k].1.edges@[e].1;
        assert(indexed[m].0 == target);
        let w = choose|j: int| 0 <= j < indexed.len() && #[trigger] indexed[j].0 == target;
        assert(indexed[w].0 == indexed[m].0);
        assert(w == m);
        assert(indexed[k].1.sets@ == mapped_sets(nodes[k], ids));
        assert(indexed[m].1.sets@ == mapped_sets(nodes[m], ids));
        assert(indexed[k].1.edges@[e] == (nodes[k].edges@[e].0, label_id(ids, nodes[k].edges@[e].1).unwrap()));
    }
    if exists|k: int, e: int|
        0 <= k < indexed.len() && 0 <= e < indexed[k].1.edges@.len() && oriented(
            (#[trigger] indexed[k]).0,
            #[trigger] indexed[k].1.edges@[e],
        ) == t.1 && indexed[k].1.sets@.contains(t.0) && sets_of(indexed, indexed[k].1.edges@[e].1).contains(t.0) {
        let (k, e) = choose|k: int, e: int|
            0 <= k < indexed.len() && 0 <= e < indexed[k].1.edges@.len() && oriented(
                (#[trigger] indexed[k]).0,
                #[trigger] indexed[k].1.edges@[e],
            ) == t.1 && indexed[k].1.sets@.contains(t.0) && sets_of(indexed, indexed[k].1.edges@[e].1).contains(t.0);
        assert((indexed[k].0, indexed[k].1.sets@, indexed[k].1.edges@) == indexed_of(nodes[k], ids));
        assert(0 <= e < nodes[k].edges@.len());
        let m = choose|m: int| 0 <= m < nodes.len() && (#[trigger] nodes[m]).name == Some((nodes[k].edges@[e]).1);
        assert((indexed[m].0, indexed[m].1.sets@, indexed[m].1.edges@) == indexed_of(nodes[m], ids));
        let target = indexed[k].1.edges@[e].1;
        assert(indexed[k].1.edges@[e] == (nodes[k].edges@[e].0, label_id(ids, nodes[k].edges@[e].1).unwrap()));
        assert(indexed[m].0 == target);
        let w = choose|j: int| 0 <= j < indexed.len() && #[trigger] indexed[j].0 == target;
        assert(indexed[w].0 == indexed[m].0);
        assert(w == m);
        assert(indexed[k].1.sets@ == mapped_sets(nodes[k], ids));
        assert(indexed[m].1.sets@ == mapped_sets(nodes[m], ids));
        assert(new_set_edge(nodes, ids, t));
    }
}

/// The number of set labels over all requests.
pub open spec fn total_set_labels(nodes: Seq<Scheduling>) -> nat
    decreases nodes.len(),
{
    if nodes.len() == 0 {
        0
    } else {
        total_set_labels(nodes.drop_last()) + nodes.last().sets@.len()
    }
}

/// Labels with ids: different registered labels have different ids.
proof fn lemma_label_ids_distinct(ids: Seq<(u64, RegId)>, a: u64, b: u64)
    requires
        labels_unique(ids),
        forall|i: int, j: int|
            0 <= i < ids.len() && 0 <= j < ids.len() && i != j ==> id_number(#[trigger] ids[i].1)
                != id_number(#[trigger] ids[j].1),
        label_id(ids, a) is Some,
        label_id(ids, b) is Some,
        a != b,
    ensures
        label_id(ids, a) != label_id(ids, b),
{
    let wa = choose|j: int| 0 <= j < ids.len() && #[trigger] ids[j].0 == a;
    let wb = choose|j: int| 0 <= j < ids.len() && #[trigger] ids[j].0 == b;
    assert(wa != wb);
    assert(id_number(ids[wa].1) != id_number(ids[wb].1));
}

/// What `initialize` leaves when it succeeds on `o`: the new nodes are taken
/// in, each below its sets in the hierarchy; the sets above them are marked as
/// changed; and their orderings are added to the graphs of the sets the two
/// nodes share.
pub open spec fn taken_in(o: SystemRegistry, f: SystemRegistry) -> bool {
    &&& f.spec_uninit() == Seq::<Scheduling>::empty()
    &&& f.spec_ids() == o.spec_ids()
    &&& f.spec_next_id() == o.spec_next_id()
    &&& forall|e: (RegId, RegId)|
        #[trigger] f.spec_hier_edges().contains(e) <==> (o.spec_hier_edges().contains(e) || exists|k: int|
            0 <= k < o.spec_uninit().len() && label_id(o.spec_ids(), (#[trigger] o.spec_uninit()[k]).name.unwrap())
                == Some(e.1) && mapped_sets(o.spec_uninit()[k], o.spec_ids()).contains(e.0))
    &&& forall|x: RegId| #[trigger] o.spec_modified().contains(x) ==> f.spec_modified().contains(x)
    &&& forall|x: RegId| #[trigger] f.spec_modified().contains(x) ==> x is SystemSet || o.spec_modified().contains(x)
    &&& exists|added: Seq<(RegId, (RegId, RegId))>|
        f.spec_set_edges() == o.spec_set_edges() + added && forall|t: (RegId, (RegId, RegId))|
            #[trigger] added.contains(t) <==> new_set_edge(o.spec_uninit(), o.spec_ids(), t)
}

/// Whether the nodes added since the last time can be taken in: there are
/// none, or their labels check out and no two ordered nodes lack a common
/// set.
pub open spec fn pending_ok(reg: SystemRegistry) -> bool {
    reg.spec_uninit().len() == 0 || (first_node_error(reg.spec_uninit(), reg.spec_ids(), 0) is None
        && !label_cross_dependency(reg.spec_uninit(), reg.spec_ids()))
}

/// The members of set `s`, in the order they joined it.
pub open spec fn set_members(hier: Seq<(RegId, RegId)>, s: RegId) -> Seq<RegId>
    decreases hier.len(),
{
    if hier.len() == 0 {
        Seq::empty()
    } else {
        let rest = set_members(hier.drop_last(), s);
        if hier.last().0 == s {
            rest.push(hier.last().1)
        } else {
            rest
        }
    }
}

/// The orderings recorded in the graph of set `s`, in the order they were
/// added.
pub open spec fn set_orderings(set_edges: Seq<(RegId, (RegId, RegId))>, s: RegId) -> Seq<(RegId, RegId)>
    decreases set_edges.len(),
{
    if set_edges.len() == 0 {
        Seq::empty()
    } else {
        let rest = set_orderings(set_edges.drop_last(), s);
        if set_edges.last().0 == s {
            rest.push(set_edges.last().1)
        } else {
            rest
        }
    }
}

/// Whether the graph of set `s` (its members, then its orderings) has a
/// cycle: fewer strongly connected components than nodes.
pub open spec fn set_graph_cyclic(
    hier: Seq<(RegId, RegId)>,
    set_edges: Seq<(RegId, (RegId, RegId))>,
    s: RegId,
) -> bool {
    tarjan_scc_of(set_members(hier, s), set_orderings(set_edges, s)).len() != graph_nodes(
        set_members(hier, s),
        set_orderings(set_edges, s),
    ).len()
}

/// Whether the graph of some set in the part `sub` of the hierarchy has a
/// cycle.
pub open spec fn dependency_cycle_below(
    sub: Seq<(RegId, RegId)>,
    hier: Seq<(RegId, RegId)>,
    set_edges: Seq<(RegId, (RegId, RegId))>,
) -> bool {
    exists|s: RegId|
        #[trigger] graph_nodes(Seq::<RegId>::empty(), sub).contains(s) && s is SystemSet && set_graph_cyclic(
            hier,
            set_edges,
            s,
        )
}

/// The orderings recorded in the graphs of all sets, without their sets.
pub open spec fn all_orderings(set_edges: Seq<(RegId, (RegId, RegId))>) -> Seq<(RegId, RegId)> {
    set_edges.map_values(|t: (RegId, (RegId, RegId))| t.1)
}

/// `pairs` lists the sorted pairs of sets of the part `sub` of the hierarchy
/// that share a member, and nothing else.
pub open spec fn lists_intersections(pairs: Seq<(RegId, RegId)>, sub: Seq<(RegId, RegId)>) -> bool {
    forall|p: (RegId, RegId)| #[trigger] pairs.contains(p) <==> exists|m: RegId| intersections(sub).contains((p, m))
}

/// What `refresh` answers for the set or system `id` of registry `f`, given
/// the accesses `own` listed for nodes (a system's with its conditions, a
/// set's conditions): a system, or a set not marked as changed, needs
/// nothing. For a changed set, with `sub` the edges of the part of the
/// hierarchy below it, `amb` the pairs of its nodes that neither the part nor
/// the orderings of the sets put one before the other, `acc` the access of
/// each of its nodes, and `pairs` the pairs of sets in it that share a
/// member: the checks of the part come first (see `hierarchy_error`), then
/// those of the graph of each set in it, then the conflicts between unordered
/// nodes other than two sets that share a member.
pub open spec fn refresh_outcome(
    f: SystemRegistry,
    id: RegId,
    own: Seq<(RegId, Access<ComponentId>)>,
    r: Result<(RegId, bool), ScheduleBuildError>,
) -> bool {
    if !(id is SystemSet && f.spec_modified().contains(id)) {
        r == Ok::<(RegId, bool), ScheduleBuildError>((id, false))
    } else {
        exists|
            sub: Seq<(RegId, RegId)>,
            amb: Seq<(RegId, RegId)>,
            acc: Seq<(RegId, Access<ComponentId>)>,
            pairs: Seq<(RegId, RegId)>,
        |
            #![trigger hierarchy_error(sub, amb), gives_node_accesses(acc, sub, own), lists_intersections(pairs, sub)]
            (forall|e: (RegId, RegId)|
                #[trigger] sub.contains(e) <==> (f.spec_hier_edges().contains(e) && reached(
                    f.spec_hier_edges(),
                    false,
                    Seq::<RegId>::empty(),
                    id,
                ).contains(e.0))) && lists_unordered(amb, sub, sub + all_orderings(f.spec_set_edges()))
                && gives_node_accesses(acc, sub, own) && lists_intersections(pairs, sub) && r == match hierarchy_error(
                sub,
                amb,
            ) {
                Some(e) => Err::<(RegId, bool), ScheduleBuildError>(e),
                None => if dependency_cycle_below(sub, f.spec_hier_edges(), f.spec_set_edges()) {
                    Err::<(RegId, bool), ScheduleBuildError>(ScheduleBuildError::DependencyCycle)
                } else if exists|k: int| 0 <= k < amb.len() && is_conflicting(pairs, acc, #[trigger] amb[k]) {
                    Err::<(RegId, bool), ScheduleBuildError>(ScheduleBuildError::Ambiguity)
                } else {
                    Ok::<(RegId, bool), ScheduleBuildError>((id, true))
                },
            }
    }
}

/// The members of set `s`, in the order they joined it.
fn members_of(hier: &Vec<(RegId, RegId)>, s: RegId) -> (r: Vec<RegId>)
    ensures
        r@ == set_members(hier@, s),
{
    let mut r: Vec<RegId> = Vec::new();
    let mut i: usize = 0;
    while i < hier.len()
        invariant
            i <= hier@.len(),
            r@ == set_members(hier@.subrange(0, i as int), s),
        decreases hier@.len() - i,
    {
        proof {
            assert(hier@.subrange(0, i + 1).drop_last() =~= hier@.subrange(0, i as int));
        }
        if hier[i].0 == s {
            r.push(hier[i].1);
        }
        i = i + 1;
    }
    proof {
        assert(hier@.subrange(0, hier@.len() as int) =~= hier@);
    }
    r
}

/// The orderings recorded for set `s`, in the order they were added.
fn orderings_of(set_edges: &Vec<(RegId, (RegId, RegId))>, s: RegId) -> (r: Vec<(RegId, RegId)>)
    ensures
        r@ == set_orderings(set_edges@, s),
{
    let mut r: Vec<(RegId, RegId)> = Vec::new();
    let mut i: usize = 0;
    while i < set_edges.len()
        invariant
            i <= set_edges@.len(),
            r@ == set_orderings(set_edges@.subrange(0, i as int), s),
        decreases set_edges@.len() - i,
    {
        proof {
            assert(set_edges@.subrange(0, i + 1).drop_last() =~= set_edges@.subrange(0, i as int));
        }
        if set_edges[i].0 == s {
            r.push(set_edges[i].1);
        }
        i = i + 1;
    }
    proof {
        assert(set_edges@.subrange(0, set_edges@.len() as int) =~= set_edges@);
    }
    r
}

/// Checks the graph of set `s` for a cycle.
pub fn check_set_graph(
    hier: &Vec<(RegId, RegId)>,
    set_edges: &Vec<(RegId, (RegId, RegId))>,
    s: RegId,
) -> (r: Result<(), ScheduleBuildError>)
    ensures
        r is Ok <==> !set_graph_cyclic(hier@, set_edges@, s),
        r is Err ==> r == Err::<(), ScheduleBuildError>(ScheduleBuildError::DependencyCycle),
{
    let nodes = members_of(hier, s);
    let edges = orderings_of(set_edges, s);
    find_cycles(&nodes, &edges, Cycle::Dependency)
}

/// Checks the graph of every set in the part `sub` of the hierarchy for a
/// cycle.
pub fn check_dependency_cycles(
    sub: &Vec<(RegId, RegId)>,
    hier: &Vec<(RegId, RegId)>,
    set_edges: &Vec<(RegId, (RegId, RegId))>,
) -> (r: Result<(), ScheduleBuildError>)
    ensures
        r is Ok <==> !dependency_cycle_below(sub@, hier@, set_edges@),
        r is Err ==> r == Err::<(), ScheduleBuildError>(ScheduleBuildError::DependencyCycle),
{
    let mut k: usize = 0;
    while k < sub.len()
        invariant
            k <= sub@.len(),
            forall|kk: int|
                0 <= kk < k ==> ((#[trigger] sub@[kk]).0 is SystemSet ==> !set_graph_cyclic(hier@, set_edges@, sub@[kk].0))
                    && (sub@[kk].1 is SystemSet ==> !set_graph_cyclic(hier@, set_edges@, sub@[kk].1)),
        decreases sub@.len() - k,
    {
        let (a, b) = sub[k];
        if a.is_set() {
            match check_set_graph(hier, set_edges, a) {
                Err(e) => {
                    proof {
                        assert(graph_nodes(Seq::<RegId>::empty(), sub@).contains(a));
                    }
                    return Err(e);
                },
                Ok(()) => {},
            }
        }
        if b.is_set() {
            match check_set_graph(hier, set_edges, b) {
                Err(e) => {
                    proof {
                        assert(graph_nodes(Seq::<RegId>::empty(), sub@).contains(b));
                    }
                    return Err(e);
                },
                Ok(()) => {},
            }
        }
        k = k + 1;
    }
    proof {
        assert forall|s: RegId|
            #[trigger] graph_nodes(Seq::<RegId>::empty(), sub@).contains(s) && s is SystemSet implies !set_graph_cyclic(
            hier@,
            set_edges@,
            s,
        ) by {
            assert(!Seq::<RegId>::empty().to_set().contains(s));
            let kk = choose|kk: int| 0 <= kk < sub@.len() && (sub@[kk].0 == s || sub@[kk].1 == s);
            assert(sub@[kk].0 is SystemSet ==> !set_graph_cyclic(hier@, set_edges@, sub@[kk].0));
        }
    }
    Ok(())
}

impl SystemRegistry {
    /// Builds the graphs for the nodes added since the last time. The
    /// labels they name are checked first (see `check_scheduling`); on an
    /// error nothing changes. Then the new nodes are taken in, and if one of
    /// them is ordered with a new node with which it shares no set, the
    /// graphs stay as they were and a cross dependency is reported.
    /// Otherwise each new node, in order, goes below its sets in the
    /// hierarchy and the sets above it are marked as changed (see
    /// `walk_up`); the orderings are added to the graphs of the sets the
    /// two nodes share.
    #[verifier::loop_isolation(false)]
    pub fn initialize(&mut self) -> (r: Result<(), ScheduleBuildError>)
        requires
            old(self).wf(),
            orderings_within_new(old(self).spec_uninit()),
            old(self).spec_hier_edges().len() + total_set_labels(old(self).spec_uninit()) + 1 < usize::MAX,
        ensures
            final(self).wf(),
            first_node_error(old(self).spec_uninit(), old(self).spec_ids(), 0) matches Some(e) ==> {
                &&& r == Err::<(), ScheduleBuildError>(e)
                &&& *final(self) == *old(self)
            },
            first_node_error(old(self).spec_uninit(), old(self).spec_ids(), 0) is None ==> {
                &&& final(self).spec_uninit() == Seq::<Scheduling>::empty()
                &&& final(self).spec_ids() == old(self).spec_ids()
                &&& final(self).spec_next_id() == old(self).spec_next_id()
                &&& (r is Err <==> label_cross_dependency(old(self).spec_uninit(), old(self).spec_ids()))
            },
            first_node_error(old(self).spec_uninit(), old(self).spec_ids(), 0) is None && r is Err ==> {
                &&& r == Err::<(), ScheduleBuildError>(ScheduleBuildError::CrossDependency)
                &&& final(self).spec_hier_edges() == old(self).spec_hier_edges()
                &&& final(self).spec_set_edges() == old(self).spec_set_edges()
                &&& final(self).spec_modified() == old(self).spec_modified()
            },
            r is Ok ==> {
                &&& forall|e: (RegId, RegId)|
                    #[trigger] final(self).spec_hier_edges().contains(e) <==> (old(self).spec_hier_edges().contains(e)
                        || exists|k: int|
                        0 <= k < old(self).spec_uninit().len() && label_id(
                            old(self).spec_ids(),
                            (#[trigger] old(self).spec_uninit()[k]).name.unwrap(),
                        ) == Some(e.1) && mapped_sets(old(self).spec_uninit()[k], old(self).spec_ids()).contains(e.0))
                &&& forall|x: RegId| #[trigger] old(self).spec_modified().contains(x) ==> final(self).spec_modified().contains(x)
                &&& forall|x: RegId| #[trigger] final(self).spec_modified().contains(x) ==> x is SystemSet
                    || old(self).spec_modified().contains(x)
                &&& exists|added: Seq<(RegId, (RegId, RegId))>|
                    final(self).spec_set_edges() == old(self).spec_set_edges() + added && forall|
                        t: (RegId, (RegId, RegId)),
                    | #[trigger] added.contains(t) <==> new_set_edge(old(self).spec_uninit(), old(self).spec_ids(), t)
            },
            final(self).spec_hier_edges().len() <= old(self).spec_hier_edges().len() + total_set_labels(
                old(self).spec_uninit(),
            ),
            r is Ok ==> taken_in(*old(self), *final(self)),
    {
        match check_scheduling(&self.uninit_nodes, &self.ids) {
            Err(e) => {
                return Err(e);
            },
            Ok(()) => {},
        }
        let ghost o = *self;
        let ghost nodes = self.uninit_nodes@;
        let ghost ids = self.ids@;
        let indexed = index_scheduling(&self.uninit_nodes, &self.ids);
        self.uninit_nodes = Vec::new();
        proof {
            assert(self.uninit_nodes@ =~= Seq::<Scheduling>::empty());
            // ids of the new nodes are distinct, and every ordering names one of them
            assert forall|i: int, j: int|
                0 <= i < indexed@.len() && 0 <= j < indexed@.len() && #[trigger] indexed@[i].0
                    == #[trigger] indexed@[j].0 implies i == j by {
                assert(indexed@[i].0 == indexed_of(nodes[i], ids).0);
                assert(indexed@[j].0 == indexed_of(nodes[j], ids).0);
                if i != j {
                    assert(nodes[i].name != nodes[j].name);
                    lemma_label_ids_distinct(ids, nodes[i].name.unwrap(), nodes[j].name.unwrap());
                }
            }
            assert forall|k: int, e: int|
                0 <= k < indexed@.len() && 0 <= e < indexed@[k].1.edges@.len() implies exists|j: int|
                    0 <= j < indexed@.len() && #[trigger] indexed@[j].0 == (#[trigger] indexed@[k].1.edges@[e]).1 by {
                assert((indexed@[k].0, indexed@[k].1.sets@, indexed@[k].1.edges@) == indexed_of(nodes[k], ids));
                assert(indexed@[k].1.edges@[e].1 == label_id(ids, nodes[k].edges@[e].1).unwrap());
                let m = choose|m: int| 0 <= m < nodes.len() && (#[trigger] nodes[m]).name == Some((nodes[k].edges@[e]).1);
                assert((indexed@[m].0, indexed@[m].1.sets@, indexed@[m].1.edges@) == indexed_of(nodes[m], ids));
            }
            assert(label_cross_dependency(nodes, ids) <==> cross_dependency(indexed@)) by {
                if label_cross_dependency(nodes, ids) {
                    let (k, e, m) = choose|k: int, e: int, m: int|
                        0 <= k < nodes.len() && 0 <= e < nodes[k].edges@.len() && 0 <= m < nodes.len() && (#[trigger] nodes[m]).name
                            == Some((#[trigger] nodes[k].edges@[e]).1) && no_common_set(
                            mapped_sets(nodes[k], ids),
                            mapped_sets(nodes[m], ids),
                        );
                    assert((indexed@[k].0, indexed@[k].1.sets@, indexed@[k].1.edges@) == indexed_of(nodes[k], ids));
                    assert((indexed@[m].0, indexed@[m].1.sets@, indexed@[m].1.edges@) == indexed_of(nodes[m], ids));
                    let target = indexed@[k].1.edges@[e].1;
                    assert(indexed@[m].0 == target);
                    let w = choose|j: int| 0 <= j < indexed@.len() && #[trigger] indexed@[j].0 == target;
                    assert(indexed@[w].0 == indexed@[m].0);
                    assert(w == m);
                    assert(no_common_set(indexed@[k].1.sets@, sets_of(indexed@, target)));
                }
                if cross_dependency(indexed@) {
                    let (k, e) = choose|k: int, e: int|
                        0 <= k < indexed@.len() && 0 <= e < indexed@[k].1.edges@.len() && no_common_set(
                            (#[trigger] indexed@[k]).1.sets@,
                            sets_of(indexed@, (#[trigger] indexed@[k].1.edges@[e]).1),
                        );
                    let target = indexed@[k].1.edges@[e].1;
                    assert((indexed@[k].0, indexed@[k].1.sets@, indexed@[k].1.edges@) == indexed_of(nodes[k], ids));
                    let m = choose|m: int| 0 <= m < nodes.len() && (#[trigger] nodes[m]).name == Some((nodes[k].edges@[e]).1);
                    assert((indexed@[m].0, indexed@[m].1.sets@, indexed@[m].1.edges@) == indexed_of(nodes[m], ids));
                    let w = choose|j: int| 0 <= j < indexed@.len() && #[trigger] indexed@[j].0 == target;
                    assert(indexed@[w].0 == indexed@[m].0);
                    assert(w == m);
                    assert(label_cross_dependency(nodes, ids));
                }
            }
        }
        let additions = match add_to_graphs(&indexed) {
            Err(e) => {
                return Err(e);
            },
            Ok(g) => g,
        };
        let mut k: usize = 0;
        while k < indexed.len()
            invariant
                k <= indexed@.len(),
                self.ids@ == ids,
                self.next_id == o.next_id,
                self.uninit_nodes@ == Seq::<Scheduling>::empty(),
                self.set_edges@ == o.set_edges@,
                labels_unique(self.ids@),
                members_below_sets(graph_map_edges(self.hier)),
                graph_map_nodes(self.hier).no_duplicates(),
                graph_map_edges(self.hier).no_duplicates(),
                self.modified@.no_duplicates(),
                indexed@.len() == nodes.len(),
                forall|q: int|
                    0 <= q < indexed@.len() ==> ((#[trigger] indexed@[q]).0, indexed@[q].1.sets@, indexed@[q].1.edges@)
                        == indexed_of(nodes[q], ids),
                nodes == o.uninit_nodes@,
                ids == o.ids@,
                nodes_named(nodes, ids),
                first_node_error(nodes, ids, 0) is None,
                graph_map_edges(self.hier).len() <= graph_map_edges(o.hier).len() + total_set_labels(nodes.subrange(0, k as int)),
                graph_map_edges(o.hier).len() + total_set_labels(nodes) + 1 < usize::MAX,
                forall|e: (RegId, RegId)|
                    #[trigger] graph_map_edges(self.hier).contains(e) <==> (graph_map_edges(o.hier).contains(e) || exists|q: int|
                        0 <= q < k && label_id(ids, (#[trigger] nodes[q]).name.unwrap()) == Some(e.1)
                            && mapped_sets(nodes[q], ids).contains(e.0)),
                forall|x: RegId| #[trigger] o.modified@.contains(x) ==> self.modified@.contains(x),
                forall|x: RegId| #[trigger] self.modified@.contains(x) ==> x is SystemSet || o.modified@.contains(x),
            decreases indexed@.len() - k,
        {
            let id = indexed[k].0;
            let sets = &indexed[k].1.sets;
            proof {
                assert((indexed@[k as int].0, indexed@[k as int].1.sets@, indexed@[k as int].1.edges@) == indexed_of(nodes[k as int], ids));
                assert(nodes.subrange(0, k + 1).drop_last() =~= nodes.subrange(0, k as int));
                lemma_total_set_labels_prefix(nodes, k as int);
                lemma_first_node_error_none(nodes, ids, 0, k as int);
            }
            let ghost before = graph_map_edges(self.hier);
            let ghost mod0 = self.modified@;
            let mut i: usize = 0;
            while i < sets.len()
                invariant
                    self.modified@ == mod0,
                    self.ids@ == ids,
                    self.next_id == o.next_id,
                    self.uninit_nodes@ == Seq::<Scheduling>::empty(),
                    self.set_edges@ == o.set_edges@,
                    i <= sets@.len(),
                    sets@ == mapped_sets(nodes[k as int], ids),
                    k < nodes.len(),
                    id == label_id(ids, nodes[k as int].name.unwrap()).unwrap(),
                    label_id(ids, nodes[k as int].name.unwrap()) is Some,
                    graph_map_edges(self.hier).len() <= before.len() + i,
                    before.len() + sets@.len() + 1 < usize::MAX,
                    members_below_sets(graph_map_edges(self.hier)),
                    graph_map_nodes(self.hier).no_duplicates(),
                    graph_map_edges(self.hier).no_duplicates(),
                    first_set_error(nodes[k as int].name, ids, nodes[k as int].sets@, 0) is None,
                    forall|e: (RegId, RegId)|
                        #[trigger] graph_map_edges(self.hier).contains(e) <==> (before.contains(e) || (e.1 == id && exists|ii: int|
                            0 <= ii < i && sets@[ii] == e.0)),
                decreases sets@.len() - i,
            {
                let ghost prev = graph_map_edges(self.hier);
                proof {
                    lemma_set_labels_are_sets(nodes[k as int].name, ids, nodes[k as int].sets@, i as int);
                }
                add_edge(&mut self.hier, (sets[i], id));
                proof {
                    assert forall|q: int| 0 <= q < graph_map_edges(self.hier).len() implies (#[trigger] graph_map_edges(self.hier)[q]).0 is SystemSet by {
                        let f = graph_map_edges(self.hier)[q];
                        assert(graph_map_edges(self.hier).contains(f));
                        if f != (sets@[i as int], id) {
                            assert(prev.contains(f));
                            let w = choose|w: int| 0 <= w < prev.len() && prev[w] == f;
                            assert(prev[w].0 is SystemSet);
                        }
                    }
                    assert forall|e: (RegId, RegId)| #[trigger] graph_map_edges(self.hier).contains(e) <==> (before.contains(e) || (e.1
                        == id && exists|ii: int| 0 <= ii < i + 1 && sets@[ii] == e.0)) by {
                        if e.1 == id && exists|ii: int| 0 <= ii < i + 1 && sets@[ii] == e.0 {
                            let ii = choose|ii: int| 0 <= ii < i + 1 && sets@[ii] == e.0;
                            if ii < i {
                                assert(prev.contains(e));
                            }
                        }
                    }
                }
                i = i + 1;
            }
            let hier = graph_map_edges_vec(&self.hier);
            let marked = walk_up(&hier, id, &self.modified);
            let ghost mod_before = self.modified@;
            let ghost hier1 = self.hier;
            let mut j: usize = 0;
            while j < marked.len()
                invariant
                    self.hier == hier1,
                    self.ids@ == ids,
                    self.next_id == o.next_id,
                    self.uninit_nodes@ == Seq::<Scheduling>::empty(),
                    self.set_edges@ == o.set_edges@,
                    j <= marked@.len(),
                    marked@.no_duplicates(),
                    forall|x: RegId| #[trigger] marked@.contains(x) ==> x is SystemSet && !mod_before.contains(x),
                    self.modified@.no_duplicates(),
                    forall|x: RegId| #[trigger] self.modified@.contains(x) <==> (mod_before.contains(x) || exists|jj: int|
                        0 <= jj < j && marked@[jj] == x),
                decreases marked@.len() - j,
            {
                let ghost prev = self.modified@;
                proof {
                    assert(marked@.contains(marked@[j as int]));
                    assert(!prev.contains(marked@[j as int])) by {
                        if prev.contains(marked@[j as int]) {
                            if !mod_before.contains(marked@[j as int]) {
                                let jj = choose|jj: int| 0 <= jj < j && marked@[jj] == marked@[j as int];
                            }
                        }
                    }
                }
                self.modified.push(marked[j]);
                proof {
                    assert forall|a: int, b: int| 0 <= a < self.modified@.len() && 0 <= b < self.modified@.len() && a != b implies self.modified@[a]
                        != self.modified@[b] by {
                        if a < prev.len() && b < prev.len() {
                        } else if a < prev.len() {
                            assert(prev.contains(self.modified@[a]));
                        } else if b < prev.len() {
                            assert(prev.contains(self.modified@[b]));
                        }
                    }
                    assert forall|x: RegId| #[trigger] self.modified@.contains(x) <==> (mod_before.contains(x) || exists|jj: int|
                        0 <= jj < j + 1 && marked@[jj] == x) by {
                        if x == marked@[j as int] {
                            assert(self.modified@[self.modified@.len() - 1] == x);
                        } else {
                            if self.modified@.contains(x) {
                                let w = choose|w: int| 0 <= w < self.modified@.len() && self.modified@[w] == x;
                                assert(prev[w] == x);
                                assert(prev.contains(x));
                            }
                            if mod_before.contains(x) || exists|jj: int| 0 <= jj < j + 1 && marked@[jj] == x {
                                if exists|jj: int| 0 <= jj < j + 1 && marked@[jj] == x {
                                    let jj = choose|jj: int| 0 <= jj < j + 1 && marked@[jj] == x;
                                }
                                assert(prev.contains(x));
                                let w = choose|w: int| 0 <= w < prev.len() && prev[w] == x;
                                assert(self.modified@[w] == x);
                            }
                        }
                    }
                }
                j = j + 1;
            }
            proof {
                assert forall|e: (RegId, RegId)| #[trigger] graph_map_edges(self.hier).contains(e) <==> (graph_map_edges(o.hier).contains(e)
                    || exists|q: int| 0 <= q < k + 1 && label_id(ids, (#[trigger] nodes[q]).name.unwrap()) == Some(e.1)
                    && mapped_sets(nodes[q], ids).contains(e.0)) by {
                    if exists|q: int| 0 <= q < k + 1 && label_id(ids, (#[trigger] nodes[q]).name.unwrap()) == Some(e.1)
                        && mapped_sets(nodes[q], ids).contains(e.0) {
                        let q = choose|q: int| 0 <= q < k + 1 && label_id(ids, (#[trigger] nodes[q]).name.unwrap()) == Some(e.1)
                            && mapped_sets(nodes[q], ids).contains(e.0);
                        if q == k {
                            let ii = choose|ii: int| 0 <= ii < sets@.len() && sets@[ii] == e.0;
                            assert(exists|ii: int| 0 <= ii < sets@.len() && sets@[ii] == e.0);
                        }
                    }
                    if graph_map_edges(self.hier).contains(e) && !before.contains(e) {
                        let ii = choose|ii: int| 0 <= ii < sets@.len() && sets@[ii] == e.0;
                        assert(mapped_sets(nodes[k as int], ids).contains(e.0));
                        assert(label_id(ids, nodes[k as int].name.unwrap()) == Some(e.1));
                    }
                }
                assert forall|x: RegId| #[trigger] self.modified@.contains(x) implies x is SystemSet || o.modified@.contains(x) by {
                    if !mod_before.contains(x) {
                        let jj = choose|jj: int| 0 <= jj < j && marked@[jj] == x;
                        assert(marked@.contains(x));
                    }
                }
            }
            k = k + 1;
        }
        let ghost hier2 = self.hier;
        let ghost mod2 = self.modified@;
        let mut t: usize = 0;
        while t < additions.set_edges.len()
            invariant
                self.hier == hier2,
                self.modified@ == mod2,
                self.ids@ == ids,
                self.next_id == o.next_id,
                self.uninit_nodes@ == Seq::<Scheduling>::empty(),
                t <= additions.set_edges@.len(),
                self.set_edges@ == o.set_edges@ + additions.set_edges@.subrange(0, t as int),
            decreases additions.set_edges@.len() - t,
        {
            self.set_edges.push(additions.set_edges[t]);
            proof {
                assert(additions.set_edges@.subrange(0, t + 1) =~= additions.set_edges@.subrange(0, t as int).push(
                    additions.set_edges@[t as int],
                ));
            }
            t = t + 1;
        }
        proof {
            assert(nodes.subrange(0, nodes.len() as int) =~= nodes);
            assert(additions.set_edges@.subrange(0, additions.set_edges@.len() as int) =~= additions.set_edges@);
            assert forall|t: (RegId, (RegId, RegId))| #[trigger] additions.set_edges@.contains(t) <==> new_set_edge(nodes, ids, t) by {
                lemma_new_set_edge(nodes, ids, indexed@, t);
            }
            assert(self.set_edges@ == o.set_edges@ + additions.set_edges@);
            assert(graph_map_edges(self.hier).len() <= graph_map_edges(o.hier).len() + total_set_labels(nodes));
            assert(self.spec_set_edges() == o.spec_set_edges() + additions.set_edges@ && forall|
                t: (RegId, (RegId, RegId)),
            | #[trigger] additions.set_edges@.contains(t) <==> new_set_edge(o.spec_uninit(), o.spec_ids(), t));
        }
        Ok(())
    }
}

/// The set labels of the first `k + 1` requests are those of the first `k`
/// and those of request `k`.
proof fn lemma_total_set_labels_prefix(nodes: Seq<Scheduling>, k: int)
    requires
        0 <= k < nodes.len(),
    ensures
        total_set_labels(nodes.subrange(0, k + 1)) == total_set_labels(nodes.subrange(0, k))
            + nodes[k].sets@.len(),
        total_set_labels(nodes.subrange(0, k + 1)) <= total_set_labels(nodes),
    decreases nodes.len(),
{
    assert(nodes.subrange(0, k + 1).drop_last() =~= nodes.subrange(0, k));
    if k + 1 < nodes.len() {
        lemma_total_set_labels_prefix(nodes.drop_last(), k);
        assert(nodes.drop_last().subrange(0, k + 1) =~= nodes.subrange(0, k + 1));
    } else {
        assert(nodes.subrange(0, k + 1) =~= nodes);
    }
}

/// A request whose set labels check out names only registered sets.
proof fn lemma_set_labels_are_sets(name: Option<u64>, ids: Seq<(u64, RegId)>, sets: Seq<u64>, i: int)
    requires
        first_set_error(name, ids, sets, 0) is None,
        0 <= i < sets.len(),
    ensures
        label_id(ids, sets[i]) is Some,
        label_id(ids, sets[i]).unwrap() is SystemSet,
{
    lemma_first_set_error_none(name, ids, sets, 0, i);
}

proof fn lemma_first_node_error_none(nodes: Seq<Scheduling>, ids: Seq<(u64, RegId)>, from: int, k: int)
    requires
        first_node_error(nodes, ids, from) is None,
        0 <= from <= k < nodes.len(),
    ensures
        node_error(nodes[k], ids) is None,
        first_set_error(nodes[k].name, ids, nodes[k].sets@, 0) is None,
    decreases k - from,
{
    if from < k {
        lemma_first_node_error_none(nodes, ids, from + 1, k);
    }
}

proof fn lemma_first_set_error_none(name: Option<u64>, ids: Seq<(u64, RegId)>, sets: Seq<u64>, from: int, i: int)
    requires
        first_set_error(name, ids, sets, from) is None,
        0 <= from <= i < sets.len(),
    ensures
        set_label_error(name, ids, sets[i]) is None,
    decreases i - from,
{
    if from < i {
        lemma_first_set_error_none(name, ids, sets, from + 1, i);
    }
}

/// The new nodes can all be registered: each is named, no two share a
/// name, and no name is taken.
pub open spec fn registrable(nodes: Seq<(bool, Scheduling)>, ids: Seq<(u64, RegId)>) -> bool {
    &&& forall|i: int| 0 <= i < nodes.len() ==> (#[trigger] nodes[i]).1.name is Some
    &&& forall|i: int, j: int|
        0 <= i < nodes.len() && 0 <= j < nodes.len() && i != j ==> (#[trigger] nodes[i]).1.name
            != (#[trigger] nodes[j]).1.name
    &&& forall|i: int| 0 <= i < nodes.len() ==> label_id(ids, (#[trigger] nodes[i]).1.name.unwrap()) is None
}

impl SystemRegistry {
    /// Registers several nodes, systems (`true`) and sets, in order, and
    /// returns their ids: consecutive numbers from the next one.
    pub fn add_many(&mut self, nodes: Vec<(bool, Scheduling)>) -> (r: Vec<RegId>)
        requires
            old(self).wf(),
            registrable(nodes@, old(self).spec_ids()),
            old(self).spec_next_id() + nodes@.len() <= u64::MAX,
        ensures
            final(self).wf(),
            r@.len() == nodes@.len(),
            forall|i: int|
                0 <= i < r@.len() ==> #[trigger] r@[i] == if nodes@[i].0 {
                    RegId::System((old(self).spec_next_id() + i) as u64)
                } else {
                    RegId::SystemSet((old(self).spec_next_id() + i) as u64)
                },
            final(self).spec_next_id() == old(self).spec_next_id() + nodes@.len(),
            final(self).spec_hier_edges() == old(self).spec_hier_edges(),
            final(self).spec_set_edges() == old(self).spec_set_edges(),
            final(self).spec_modified() == old(self).spec_modified(),
    {
        let ghost all = nodes@;
        let mut rest = nodes;
        let mut r: Vec<RegId> = Vec::new();
        while rest.len() > 0
            invariant
                self.wf(),
                r@.len() + rest@.len() == all.len(),
                rest@ == all.subrange(r@.len() as int, all.len() as int),
                registrable(all, old(self).spec_ids()),
                self.spec_next_id() == old(self).spec_next_id() + r@.len(),
                old(self).spec_next_id() + all.len() <= u64::MAX,
                self.spec_ids() == old(self).spec_ids() + all.subrange(0, r@.len() as int).map_values(
                    |n: (bool, Scheduling)| n.1.name.unwrap(),
                ).zip_with(r@),
                forall|i: int|
                    0 <= i < r@.len() ==> #[trigger] r@[i] == if all[i].0 {
                        RegId::System((old(self).spec_next_id() + i) as u64)
                    } else {
                        RegId::SystemSet((old(self).spec_next_id() + i) as u64)
                    },
                self.spec_hier_edges() == old(self).spec_hier_edges(),
                self.spec_set_edges() == old(self).spec_set_edges(),
                self.spec_modified() == old(self).spec_modified(),
            decreases rest@.len(),
        {
            let (is_system, scheduling) = rest.remove(0);
            let ghost k = r@.len() as int;
            proof {
                assert(all[k] == (is_system, scheduling));
                let name = scheduling.name.unwrap();
                assert(label_id(old(self).spec_ids(), name) is None);
                if label_id(self.spec_ids(), name) is Some {
                    let w = choose|w: int| 0 <= w < self.spec_ids().len() && #[trigger] self.spec_ids()[w].0 == name;
                    if w < old(self).spec_ids().len() {
                        assert(self.spec_ids()[w] == old(self).spec_ids()[w]);
                    } else {
                        let q = w - old(self).spec_ids().len();
                        assert(self.spec_ids()[w].0 == all[q].1.name.unwrap());
                        assert(all[q].1.name != all[k].1.name);
                    }
                }
            }
            let id = if is_system {
                self.add_system(scheduling)
            } else {
                self.add_set(scheduling)
            };
            r.push(id);
            proof {
                assert(all.subrange(0, r@.len() as int).map_values(|n: (bool, Scheduling)| n.1.name.unwrap()).zip_with(r@)
                    =~= all.subrange(0, k).map_values(|n: (bool, Scheduling)| n.1.name.unwrap()).zip_with(
                    r@.subrange(0, k),
                ).push((all[k].1.name.unwrap(), id)));
                assert(r@.subrange(0, k) =~= r@.drop_last());
            }
        }
        r
    }

    /// The id registered for `label`, if any.
    pub fn id_of(&self, label: u64) -> (r: Option<RegId>)
        requires
            self.wf(),
        ensures
            r == label_id(self.spec_ids(), label),
    {
        find_label(&self.ids, label)
    }

    /// The edges of the hierarchy, from each set to its members.
    pub fn hier_edges(&self) -> (r: Vec<(RegId, RegId)>)
        ensures
            r@ == self.spec_hier_edges(),
    {
        graph_map_edges_vec(&self.hier)
    }

    /// The orderings inside sets: the set, then the node that runs first and
    /// the node that runs after it.
    pub fn set_edges(&self) -> (r: &Vec<(RegId, (RegId, RegId))>)
        ensures
            r@ == self.spec_set_edges(),
    {
        &self.set_edges
    }

    /// Whether the set is marked as changed.
    pub fn is_modified(&self, id: RegId) -> (r: bool)
        ensures
            r == self.spec_modified().contains(id),
    {
        let mut i: usize = 0;
        while i < self.modified.len()
            invariant
                i <= self.modified@.len(),
                forall|k: int| 0 <= k < i ==> self.modified@[k] != id,
            decreases self.modified@.len() - i,
        {
            if self.modified[i] == id {
                return true;
            }
            i = i + 1;
        }
        false
    }

    /// Gets the registry ready to run `label`, as the set or system it
    /// names. New nodes are taken in first, if there are any (see
    /// `initialize`), and their errors are returned. Then, when `label` names a
    /// set marked as changed, the part of the hierarchy below it is checked
    /// (see `walk_down`), then the graph of each set in that part (see
    /// `check_dependency_cycles`), then the nodes of that part that nothing
    /// orders are checked for conflicting accesses (see `check_conflicts`),
    /// with the accesses `accesses` lists for nodes (see `node_accesses`); the
    /// first error is returned. The result holds the id of `label` and
    /// whether its set must be rebuilt.
    pub fn refresh(&mut self, label: u64, accesses: &Vec<(RegId, Access<ComponentId>)>) -> (r: Result<
        (RegId, bool),
        ScheduleBuildError,
    >)
        requires
            old(self).wf(),
            label_id(old(self).spec_ids(), label) is Some,
            orderings_within_new(old(self).spec_uninit()),
            old(self).spec_hier_edges().len() + total_set_labels(old(self).spec_uninit()) + 1 < usize::MAX,
            access_keys_unique(accesses@),
            forall|k: int| 0 <= k < accesses@.len() ==> (#[trigger] accesses@[k]).1.wf(),
        ensures
            final(self).wf(),
            final(self).spec_ids() == old(self).spec_ids(),
            old(self).spec_uninit().len() > 0 ==> (first_node_error(old(self).spec_uninit(), old(self).spec_ids(), 0)
                matches Some(e) ==> r == Err::<(RegId, bool), ScheduleBuildError>(e) && *final(self) == *old(self)),
            old(self).spec_uninit().len() > 0 && first_node_error(old(self).spec_uninit(), old(self).spec_ids(), 0)
                is None && label_cross_dependency(old(self).spec_uninit(), old(self).spec_ids()) ==> r == Err::<
                (RegId, bool),
                ScheduleBuildError,
            >(ScheduleBuildError::CrossDependency),
            old(self).spec_uninit().len() == 0 ==> *final(self) == *old(self),
            old(self).spec_uninit().len() > 0 && pending_ok(*old(self)) ==> taken_in(*old(self), *final(self)),
            pending_ok(*old(self)) ==> refresh_outcome(
                *final(self),
                label_id(old(self).spec_ids(), label).unwrap(),
                accesses@,
                r,
            ),
    {
        if self.uninit_nodes.len() > 0 {
            match self.initialize() {
                Err(e) => {
                    return Err(e);
                },
                Ok(()) => {},
            }
        }
        proof {
            if old(self).spec_uninit().len() == 0 {
                assert(self.uninit_nodes@ =~= Seq::<Scheduling>::empty());
                assert(total_set_labels(old(self).spec_uninit()) == 0);
            }
        }
        let id = match find_label(&self.ids, label) {
            Some(id) => id,
            None => RegId::System(0),
        };
        if !(id.is_set() && self.is_modified(id)) {
            return Ok((id, false));
        }
        let mut orderings: Vec<(RegId, RegId)> = Vec::new();
        let mut t: usize = 0;
        while t < self.set_edges.len()
            invariant
                t <= self.set_edges@.len(),
                orderings@ == all_orderings(self.set_edges@.subrange(0, t as int)),
            decreases self.set_edges@.len() - t,
        {
            orderings.push(self.set_edges[t].1);
            proof {
                assert(all_orderings(self.set_edges@.subrange(0, t + 1)) =~= all_orderings(
                    self.set_edges@.subrange(0, t as int),
                ).push(self.set_edges@[t as int].1));
            }
            t = t + 1;
        }
        proof {
            assert(self.set_edges@.subrange(0, self.set_edges@.len() as int) =~= self.set_edges@);
        }
        let hier = graph_map_edges_vec(&self.hier);
        let walk = walk_down(&hier, id, &orderings);
        let sub = walk.0;
        let amb = walk.1;
        let walked = walk.2;
        let acc = node_accesses(&sub, accesses);
        proof {
            assert forall|k: int| 0 <= k < sub@.len() implies (#[trigger] sub@[k]).0 is SystemSet by {
                assert(sub@.contains(sub@[k]));
                let j = choose|j: int| 0 <= j < hier@.len() && hier@[j] == sub@[k];
            }
        }
        let inter = intersecting_sets(&sub);
        let pairs = intersection_pairs(&inter);
        proof {
            assert forall|p: (RegId, RegId)| #[trigger] pairs@.contains(p) <==> exists|m: RegId|
                intersections(sub@).contains((p, m)) by {
                if pairs@.contains(p) {
                    let k = choose|k: int| 0 <= k < pairs@.len() && pairs@[k] == p;
                    assert(inter@.contains(inter@[k]));
                    assert(intersections(sub@).contains((p, inter@[k].1)));
                }
                if exists|m: RegId| intersections(sub@).contains((p, m)) {
                    let m = choose|m: RegId| intersections(sub@).contains((p, m));
                    assert(inter@.contains((p, m)));
                    let k = choose|k: int| 0 <= k < inter@.len() && inter@[k] == (p, m);
                    assert(pairs@[k] == p);
                }
            }
            assert(lists_intersections(pairs@, sub@));
        }
        match walked {
            Err(e) => {
                return Err(e);
            },
            Ok(()) => {},
        }
        match check_dependency_cycles(&sub, &hier, &self.set_edges) {
            Err(e) => {
                return Err(e);
            },
            Ok(()) => {},
        }
        proof {
            assert forall|k: int| 0 <= k < amb@.len() implies crate::schedule::has_access(acc@, (#[trigger] amb@[k]).0)
                && crate::schedule::has_access(acc@, amb@[k].1) by {
                assert(graph_nodes(Seq::<RegId>::empty(), sub@).contains(amb@[k].0));
                assert(graph_nodes(Seq::<RegId>::empty(), sub@).contains(amb@[k].1));
            }
        }
        let conflicts = check_conflicts(&amb, &pairs, &acc);
        proof {
            let pred = |p: (RegId, RegId)| is_conflicting(pairs@, acc@, p);
            if exists|k: int| 0 <= k < amb@.len() && is_conflicting(pairs@, acc@, #[trigger] amb@[k]) {
                let k = choose|k: int| 0 <= k < amb@.len() && is_conflicting(pairs@, acc@, #[trigger] amb@[k]);
                amb@.lemma_filter_contains(pred, k);
            } else if amb@.filter(pred).len() > 0 {
                amb@.lemma_filter_pred(pred, 0);
                amb@.lemma_filter_contains_rev(pred, amb@.filter(pred)[0]);
                let k = choose|k: int| 0 <= k < amb@.len() && amb@[k] == amb@.filter(pred)[0];
                assert(is_conflicting(pairs@, acc@, amb@[k]));
            }
        }
        match conflicts {
            Err(e) => {
                return Err(e);
            },
            Ok(()) => {},
        }
        Ok((id, true))
    }
}

impl SystemRegistry {
    /// Whether `initialize` may be called: every node a new node is ordered
    /// with is new too, and the hierarchy can take the new edges.
    pub fn can_initialize(&self) -> (r: bool)
        ensures
            r == (orderings_within_new(self.spec_uninit()) && self.spec_hier_edges().len() + total_set_labels(
                self.spec_uninit(),
            ) + 1 < usize::MAX),
    {
        let nodes = &self.uninit_nodes;
        let hier = graph_map_edges_vec(&self.hier);
        let mut total: usize = hier.len();
        if total >= usize::MAX - 1 {
            proof {
                assert(total_set_labels(nodes@) >= 0);
            }
            return false;
        }
        let mut k: usize = 0;
        while k < nodes.len()
            invariant
                nodes@ == self.uninit_nodes@,
                k <= nodes@.len(),
                total < usize::MAX - 1,
                total == graph_map_edges(self.hier).len() + total_set_labels(nodes@.subrange(0, k as int)),
                forall|q: int, e: int|
                    0 <= q < k && 0 <= e < nodes@[q].edges@.len() ==> exists|m: int|
                        0 <= m < nodes@.len() && (#[trigger] nodes@[m]).name == Some(
                            (#[trigger] nodes@[q].edges@[e]).1,
                        ),
            decreases nodes@.len() - k,
        {
            proof {
                lemma_total_set_labels_prefix(nodes@, k as int);
            }
            let n = nodes[k].sets.len();
            if n >= usize::MAX - 1 - total {
                proof {
                    assert(n == nodes@[k as int].sets@.len());
                    assert(total_set_labels(nodes@.subrange(0, k + 1)) == total_set_labels(nodes@.subrange(0, k as int)) + n);
                    assert(total_set_labels(nodes@.subrange(0, k + 1)) <= total_set_labels(nodes@));
                    assert(graph_map_edges(self.hier).len() + total_set_labels(nodes@) + 1 >= usize::MAX);
                }
                return false;
            }
            total = total + n;
            let mut e: usize = 0;
            while e < nodes[k].edges.len()
                invariant
                    nodes@ == self.uninit_nodes@,
                    k < nodes@.len(),
                    e <= nodes@[k as int].edges@.len(),
                    forall|ee: int|
                        #![trigger nodes@[k as int].edges@[ee]]
                        0 <= ee < e ==> exists|m: int|
                            0 <= m < nodes@.len() && (#[trigger] nodes@[m]).name == Some(
                                nodes@[k as int].edges@[ee].1,
                            ),
                decreases nodes@[k as int].edges@.len() - e,
            {
                let target = nodes[k].edges[e].1;
                let mut found = false;
                let mut m: usize = 0;
                while m < nodes.len()
                    invariant
                        m <= nodes@.len(),
                        found <==> exists|mm: int| 0 <= mm < m && (#[trigger] nodes@[mm]).name == Some(target),
                    decreases nodes@.len() - m,
                {
                    let named = match nodes[m].name {
                        Some(l) => l == target,
                        None => false,
                    };
                    if named {
                        found = true;
                    }
                    m = m + 1;
                }
                if !found {
                    proof {
                        if orderings_within_new(nodes@) {
                            assert(nodes@[k as int].edges@[e as int].1 == target);
                            let mm = choose|mm: int|
                                0 <= mm < nodes@.len() && (#[trigger] nodes@[mm]).name == Some(
                                    (#[trigger] nodes@[k as int].edges@[e as int]).1,
                                );
                            assert(nodes@[mm].name == Some(target));
                            assert(false);
                        }
                    }
                    return false;
                }
                e = e + 1;
            }
            proof {
                assert forall|q: int, ee: int|
                    0 <= q < k + 1 && 0 <= ee < nodes@[q].edges@.len() implies exists|m: int|
                        0 <= m < nodes@.len() && (#[trigger] nodes@[m]).name == Some(
                            (#[trigger] nodes@[q].edges@[ee]).1,
                        ) by {
                    if q == k {
                        assert(nodes@[k as int].edges@[ee] == nodes@[q].edges@[ee]);
                    }
                }
            }
            k = k + 1;
        }
        proof {
            assert(nodes@.subrange(0, nodes@.len() as int) =~= nodes@);
        }
        true
    }
}

/// Different labels registered in a registry have different ids.
pub proof fn lemma_registered_ids_distinct(reg: SystemRegistry, a: u64, b: u64)
    requires
        reg.wf(),
        label_id(reg.spec_ids(), a) is Some,
        label_id(reg.spec_ids(), b) is Some,
        a != b,
    ensures
        label_id(reg.spec_ids(), a) != label_id(reg.spec_ids(), b),
{
    lemma_label_ids_distinct(reg.ids@, a, b);
}

} // verus!
