//! The checks that a system registry makes while it builds the graph of a
//! system set: cycles in the hierarchy or in the dependencies, redundant
//! hierarchy edges, intersecting sets that are ordered, and unordered nodes
//! whose accesses conflict.
//!
//! The graphs are given as lists of nodes and of directed edges between them.
//! Their strongly connected components come from `petgraph`.

use petgraph::algo::tarjan_scc;
use petgraph::graphmap::DiGraphMap;
use vstd::prelude::*;

use crate::access::{keys_of, spec_conflicts, Access};
use crate::bitset::ascending_listing;
use crate::component::ComponentId;
use crate::access::lemma_conflicts_symmetric;
use crate::descriptor::{lemma_sort_pair_ordered, sort_pair, spec_reg_id_le, RegId};

verus! {

/// Errors that make the system graph unsolvable.
#[derive(Debug, Clone, Copy, PartialEq, Eq, Structural)]
pub enum ScheduleBuildError {
    /// A node was assigned to an unknown set.
    UnknownSetLabel,
    /// A node was ordered with an unknown node.
    UnknownDependencyLabel,
    /// A system's name was used as a set label.
    InvalidSetLabel,
    /// A set contains itself.
    HierarchyLoop,
    /// System set hierarchy contains a cycle.
    HierarchyCycle,
    /// System set hierarchy contains an invalid edge.
    InvalidHierarchy,
    /// A node depends on itself.
    DependencyLoop,
    /// Dependency graph contains a cycle.
    DependencyCycle,
    /// Dependency graph has an edge between nodes that do not conflict.
    InvalidDependency,
    /// Dependency graph has an edge between nodes that have no set in common.
    CrossDependency,
    /// Intersecting system sets were found to have a dependent/hierarchical relation.
    MissingAmbiguity,
    /// Parallel nodes have an access conflict.
    Ambiguity,
}

/// Which graph a cycle was looked for in.
#[derive(Debug, Clone, Copy, PartialEq, Eq, Structural)]
pub enum Cycle {
    /// The hierarchy of sets and their members.
    Hierarchy,
    /// The ordering of the members of one set.
    Dependency,
}

/// The error that reports a cycle in the given graph.
pub open spec fn cycle_error(cycle: Cycle) -> ScheduleBuildError {
    match cycle {
        Cycle::Hierarchy => ScheduleBuildError::HierarchyCycle,
        Cycle::Dependency => ScheduleBuildError::DependencyCycle,
    }
}

/// The nodes of a graph built from a list of nodes and a list of edges: the
/// listed nodes and both ends of every edge.
pub open spec fn graph_nodes(nodes: Seq<RegId>, edges: Seq<(RegId, RegId)>) -> Set<RegId> {
    nodes.to_set().union(
        Set::new(|n: RegId| exists|k: int| 0 <= k < edges.len() && (edges[k].0 == n || edges[k].1 == n)),
    )
}

/// The strongly connected components that `petgraph::algo::tarjan_scc`
/// finds in the directed graph built by adding the nodes, then the edges, in
/// the order given.
pub uninterp spec fn tarjan_scc_of(nodes: Seq<RegId>, edges: Seq<(RegId, RegId)>) -> Seq<Seq<RegId>>;

/// The components of a list of components, each as a sequence.
pub open spec fn components_view(sccs: Seq<Vec<RegId>>) -> Seq<Seq<RegId>> {
    sccs.map_values(|c: Vec<RegId>| c@)
}

/// Builds a `petgraph::graphmap::DiGraphMap` from the nodes and then the
/// edges, and returns its node count and what `petgraph::algo::tarjan_scc`
/// finds in it. The components are named by `tarjan_scc_of`; the count is the
/// number of distinct nodes, as `GraphMap::add_edge` adds missing ends and
/// `GraphMap::add_node` adds a node once.
#[verifier::external_body]
fn strongly_connected_components(nodes: &Vec<RegId>, edges: &Vec<(RegId, RegId)>) -> (r: (
    usize,
    Vec<Vec<RegId>>,
))
    ensures
        components_view(r.1@) == tarjan_scc_of(nodes@, edges@),
        r.0 as int == graph_nodes(nodes@, edges@).len(),
{
    let mut graph = DiGraphMap::<RegId, ()>::new();
    for &node in nodes.iter() {
        graph.add_node(node);
    }
    for &(a, b) in edges.iter() {
        graph.add_edge(a, b, ());
    }
    (graph.node_count(), tarjan_scc(&graph))
}

/// Reports a cycle when the graph has fewer strongly connected components
/// than nodes, with the error that names the graph.
pub fn check_graph_cycles(node_count: usize, sccs: &Vec<Vec<RegId>>, cycle: Cycle) -> (r: Result<
    (),
    ScheduleBuildError,
>)
    ensures
        r is Ok <==> sccs@.len() == node_count,
        r is Err ==> r == Err::<(), ScheduleBuildError>(cycle_error(cycle)),
{
    if sccs.len() == node_count {
        return Ok(());
    }
    match cycle {
        Cycle::Dependency => Err(ScheduleBuildError::DependencyCycle),
        Cycle::Hierarchy => Err(ScheduleBuildError::HierarchyCycle),
    }
}

/// Whether a component holds more than one node, and so a cycle.
pub open spec fn is_cyclic_component(c: Seq<RegId>) -> bool {
    c.len() > 1
}

/// The components that hold more than one node, in their order; their number
/// is a lower bound on the number of cycles.
pub fn cyclic_components(sccs: &Vec<Vec<RegId>>) -> (r: Vec<Vec<RegId>>)
    ensures
        components_view(r@) == components_view(sccs@).filter(|c: Seq<RegId>| is_cyclic_component(c)),
{
    let mut r: Vec<Vec<RegId>> = Vec::new();
    let mut i: usize = 0;
    while i < sccs.len()
        invariant
            i <= sccs@.len(),
            components_view(r@) == components_view(sccs@.subrange(0, i as int)).filter(
                |c: Seq<RegId>| is_cyclic_component(c),
            ),
        decreases sccs@.len() - i,
    {
        let ghost pred = |c: Seq<RegId>| is_cyclic_component(c);
        proof {
            assert(components_view(sccs@.subrange(0, i + 1)).drop_last() =~= components_view(
                sccs@.subrange(0, i as int),
            ));
            assert(components_view(sccs@.subrange(0, i + 1)).last() == sccs@[i as int]@);
            reveal(Seq::filter);
        }
        if sccs[i].len() > 1 {
            r.push(sccs[i].clone());
            proof {
                assert(components_view(r@) =~= components_view(
                    sccs@.subrange(0, i as int),
                ).filter(pred).push(sccs@[i as int]@));
            }
        }
        i = i + 1;
    }
    proof {
        assert(sccs@.subrange(0, sccs@.len() as int) =~= sccs@);
    }
    r
}

/// Looks for cycles in the directed graph built from `nodes` and `edges`:
/// `Ok` when `petgraph` finds as many strongly connected components as the
/// graph has nodes, else the error that names the graph.
pub fn find_cycles(nodes: &Vec<RegId>, edges: &Vec<(RegId, RegId)>, cycle: Cycle) -> (r: Result<
    (),
    ScheduleBuildError,
>)
    ensures
        r is Ok <==> tarjan_scc_of(nodes@, edges@).len() == graph_nodes(nodes@, edges@).len(),
        r is Err ==> r == Err::<(), ScheduleBuildError>(cycle_error(cycle)),
{
    let (count, sccs) = strongly_connected_components(nodes, edges);
    check_graph_cycles(count, &sccs, cycle)
}

/// Reports the hierarchy as invalid when it has a redundant edge: a parent
/// that already lies above a child along a longer path.
pub fn check_hierarchy(transitive_edges: &Vec<(RegId, RegId)>) -> (r: Result<
    (),
    ScheduleBuildError,
>)
    ensures
        r is Ok <==> transitive_edges@.len() == 0,
        r is Err ==> r == Err::<(), ScheduleBuildError>(ScheduleBuildError::InvalidHierarchy),
{
    if transitive_edges.len() == 0 {
        Ok(())
    } else {
        Err(ScheduleBuildError::InvalidHierarchy)
    }
}

/// The two ids, smaller first.
pub open spec fn spec_sort_pair(a: RegId, b: RegId) -> (RegId, RegId) {
    if spec_reg_id_le(a, b) {
        (a, b)
    } else {
        (b, a)
    }
}

/// The pairs of sets that the graph leaves unordered, each sorted.
pub open spec fn unordered_set_pairs(ambiguities: Seq<(RegId, RegId)>) -> Set<(RegId, RegId)> {
    Set::new(
        |p: (RegId, RegId)|
            exists|k: int|
                0 <= k < ambiguities.len() && ambiguities[k].0 is SystemSet && ambiguities[k].1 is SystemSet
                    && spec_sort_pair(ambiguities[k].0, ambiguities[k].1) == p,
    )
}

/// Whether some listed pair of sets, sorted, is `p`.
fn is_unordered_set_pair(ambiguities: &Vec<(RegId, RegId)>, p: (RegId, RegId)) -> (r: bool)
    ensures
        r == unordered_set_pairs(ambiguities@).contains(p),
{
    let mut i: usize = 0;
    while i < ambiguities.len()
        invariant
            i <= ambiguities@.len(),
            forall|k: int|
                0 <= k < i ==> !(ambiguities@[k].0 is SystemSet && ambiguities@[k].1 is SystemSet
                    && spec_sort_pair(ambiguities@[k].0, ambiguities@[k].1) == p),
        decreases ambiguities@.len() - i,
    {
        let (a, b) = ambiguities[i];
        if a.is_set() && b.is_set() {
            let q = sort_pair(a, b);
            if q.0 == p.0 && q.1 == p.1 {
                return true;
            }
        }
        i = i + 1;
    }
    false
}

/// Reports a missing ambiguity when two sets that share members are not
/// among the pairs of sets that the graph leaves unordered. The sets that
/// share members are given as sorted pairs.
pub fn check_ambiguous(intersecting_sets: &Vec<(RegId, RegId)>, ambiguities: &Vec<(RegId, RegId)>) -> (r:
    Result<(), ScheduleBuildError>)
    ensures
        r is Ok <==> (forall|k: int|
            0 <= k < intersecting_sets@.len() ==> #[trigger] unordered_set_pairs(ambiguities@).contains(
                intersecting_sets@[k],
            )),
        r is Err ==> r == Err::<(), ScheduleBuildError>(ScheduleBuildError::MissingAmbiguity),
{
    let mut i: usize = 0;
    while i < intersecting_sets.len()
        invariant
            i <= intersecting_sets@.len(),
            forall|k: int|
                0 <= k < i ==> #[trigger] unordered_set_pairs(ambiguities@).contains(
                    intersecting_sets@[k],
                ),
        decreases intersecting_sets@.len() - i,
    {
        if !is_unordered_set_pair(ambiguities, intersecting_sets[i]) {
            return Err(ScheduleBuildError::MissingAmbiguity);
        }
        i = i + 1;
    }
    Ok(())
}

/// The indices read or written by any of the accesses.
pub open spec fn union_reads_and_writes(parts: Seq<Access<ComponentId>>) -> Set<usize>
    decreases parts.len(),
{
    if parts.len() == 0 {
        Set::empty()
    } else {
        union_reads_and_writes(parts.drop_last()).union(parts.last().spec_reads_and_writes())
    }
}

/// The indices written by any of the accesses.
pub open spec fn union_writes(parts: Seq<Access<ComponentId>>) -> Set<usize>
    decreases parts.len(),
{
    if parts.len() == 0 {
        Set::empty()
    } else {
        union_writes(parts.drop_last()).union(parts.last().spec_writes())
    }
}

/// The access of a node together with that of its run conditions: every
/// index that one of them reads or writes, and reading or writing all when
/// one of them does.
pub fn combined_access(parts: &Vec<Access<ComponentId>>) -> (r: Access<ComponentId>)
    requires
        forall|k: int| 0 <= k < parts@.len() ==> #[trigger] parts@[k].wf(),
    ensures
        r.wf(),
        r.spec_reads_and_writes() == union_reads_and_writes(parts@),
        r.spec_writes() == union_writes(parts@),
        r.spec_reads_all() == exists|k: int| 0 <= k < parts@.len() && #[trigger] parts@[k].spec_reads_all(),
        r.spec_writes_all() == exists|k: int| 0 <= k < parts@.len() && #[trigger] parts@[k].spec_writes_all(),
{
    let mut access = Access::<ComponentId>::default();
    let mut i: usize = 0;
    while i < parts.len()
        invariant
            i <= parts@.len(),
            forall|k: int| 0 <= k < parts@.len() ==> #[trigger] parts@[k].wf(),
            access.wf(),
            access.spec_reads_and_writes() == union_reads_and_writes(parts@.subrange(0, i as int)),
            access.spec_writes() == union_writes(parts@.subrange(0, i as int)),
            access.spec_reads_all() == exists|k: int| 0 <= k < i && #[trigger] parts@[k].spec_reads_all(),
            access.spec_writes_all() == exists|k: int| 0 <= k < i && #[trigger] parts@[k].spec_writes_all(),
        decreases parts@.len() - i,
    {
        proof {
            assert(parts@.subrange(0, i + 1).drop_last() =~= parts@.subrange(0, i as int));
            assert(parts@.subrange(0, i + 1).last() == parts@[i as int]);
        }
        access.extend(&parts[i]);
        i = i + 1;
    }
    proof {
        assert(parts@.subrange(0, parts@.len() as int) =~= parts@);
    }
    access
}

/// Every node has at most one listed access.
pub open spec fn access_keys_unique(accesses: Seq<(RegId, Access<ComponentId>)>) -> bool {
    forall|i: int, j: int|
        0 <= i < accesses.len() && 0 <= j < accesses.len() && #[trigger] accesses[i].0
            == #[trigger] accesses[j].0 ==> i == j
}

/// Whether the node has a listed access.
pub open spec fn has_access(accesses: Seq<(RegId, Access<ComponentId>)>, id: RegId) -> bool {
    exists|j: int| 0 <= j < accesses.len() && #[trigger] accesses[j].0 == id
}

/// The listed access of a node.
pub open spec fn access_of(accesses: Seq<(RegId, Access<ComponentId>)>, id: RegId) -> Access<
    ComponentId,
> {
    accesses[choose|j: int| 0 <= j < accesses.len() && #[trigger] accesses[j].0 == id].1
}

/// Where the access of a node is listed.
fn find_access(accesses: &Vec<(RegId, Access<ComponentId>)>, id: RegId) -> (j: usize)
    requires
        access_keys_unique(accesses@),
        has_access(accesses@, id),
    ensures
        j < accesses@.len(),
        accesses@[j as int].0 == id,
        accesses@[j as int].1 == access_of(accesses@, id),
{
    let mut j: usize = 0;
    while j < accesses.len()
        invariant
            j <= accesses@.len(),
            forall|k: int| 0 <= k < j ==> accesses@[k].0 != id,
            has_access(accesses@, id),
            access_keys_unique(accesses@),
        decreases accesses@.len() - j,
    {
        if accesses[j].0 == id {
            proof {
                assert(accesses@[j as int].0 == id);
                let w = choose|k: int| 0 <= k < accesses@.len() && #[trigger] accesses@[k].0 == id;
                assert(0 <= w < accesses@.len() && accesses@[w].0 == id);
                assert(accesses@[w].0 == accesses@[j as int].0);
                assert(w == j as int);
            }
            return j;
        }
        j = j + 1;
    }
    proof {
        let w = choose|k: int| 0 <= k < accesses@.len() && #[trigger] accesses@[k].0 == id;
        assert(accesses@[w].0 == id);
    }
    0
}

/// Whether an unordered pair is left out of the conflict check: two sets
/// that share members.
pub open spec fn skipped_pair(intersecting_sets: Seq<(RegId, RegId)>, a: RegId, b: RegId) -> bool {
    a is SystemSet && b is SystemSet && intersecting_sets.contains(spec_sort_pair(a, b))
}

/// Whether an unordered pair is reported: it is checked, and the accesses of
/// its two nodes conflict on some component.
pub open spec fn is_conflicting(
    intersecting_sets: Seq<(RegId, RegId)>,
    accesses: Seq<(RegId, Access<ComponentId>)>,
    p: (RegId, RegId),
) -> bool {
    !skipped_pair(intersecting_sets, p.0, p.1) && !spec_conflicts(
        access_of(accesses, p.0),
        access_of(accesses, p.1),
    ).is_empty()
}

/// The components listed with a reported pair are those on which the
/// accesses of its two nodes conflict, in ascending order.
pub open spec fn conflicts_listed(
    accesses: Seq<(RegId, Access<ComponentId>)>,
    t: (RegId, RegId, Vec<ComponentId>),
) -> bool {
    exists|v: Seq<usize>|
        ascending_listing(v, spec_conflicts(access_of(accesses, t.0), access_of(accesses, t.1)))
            && #[trigger] keys_of(t.2@, v)
}

/// The pairs of a report, without their components.
pub open spec fn reported_pairs(r: Seq<(RegId, RegId, Vec<ComponentId>)>) -> Seq<(RegId, RegId)> {
    r.map_values(|t: (RegId, RegId, Vec<ComponentId>)| (t.0, t.1))
}

/// What the conflict check needs of its inputs: every node has one access,
/// and every unordered node has one.
pub open spec fn conflict_inputs_ok(
    ambiguities: Seq<(RegId, RegId)>,
    accesses: Seq<(RegId, Access<ComponentId>)>,
) -> bool {
    &&& access_keys_unique(accesses)
    &&& forall|k: int| 0 <= k < accesses.len() ==> (#[trigger] accesses[k]).1.wf()
    &&& forall|k: int|
        0 <= k < ambiguities.len() ==> has_access(accesses, (#[trigger] ambiguities[k]).0)
            && has_access(accesses, ambiguities[k].1)
}

/// The unordered pairs whose combined accesses conflict, in their order, each
/// with the components they conflict on in ascending order. Pairs of sets
/// that share members are left out.
pub fn conflicting_pairs(
    ambiguities: &Vec<(RegId, RegId)>,
    intersecting_sets: &Vec<(RegId, RegId)>,
    accesses: &Vec<(RegId, Access<ComponentId>)>,
) -> (r: Vec<(RegId, RegId, Vec<ComponentId>)>)
    requires
        conflict_inputs_ok(ambiguities@, accesses@),
    ensures
        reported_pairs(r@) == ambiguities@.filter(
            |p: (RegId, RegId)| is_conflicting(intersecting_sets@, accesses@, p),
        ),
        forall|k: int| 0 <= k < r@.len() ==> conflicts_listed(accesses@, #[trigger] r@[k]),
{
    let mut r: Vec<(RegId, RegId, Vec<ComponentId>)> = Vec::new();
    let mut i: usize = 0;
    while i < ambiguities.len()
        invariant
            i <= ambiguities@.len(),
            conflict_inputs_ok(ambiguities@, accesses@),
            reported_pairs(r@) == ambiguities@.subrange(0, i as int).filter(
                |p: (RegId, RegId)| is_conflicting(intersecting_sets@, accesses@, p),
            ),
            access_keys_unique(accesses@),
            forall|k: int| 0 <= k < r@.len() ==> conflicts_listed(accesses@, #[trigger] r@[k]),
        decreases ambiguities@.len() - i,
    {
        let ghost pred = |p: (RegId, RegId)| is_conflicting(intersecting_sets@, accesses@, p);
        let (a, b) = ambiguities[i];
        proof {
            assert(ambiguities@.subrange(0, i + 1).drop_last() =~= ambiguities@.subrange(0, i as int));
            assert(ambiguities@.subrange(0, i + 1).last() == ambiguities@[i as int]);
            reveal(Seq::filter);
            assert(has_access(accesses@, ambiguities@[i as int].0));
        }
        let skip = a.is_set() && b.is_set() && vec_contains_pair(intersecting_sets, sort_pair(a, b));
        if !skip {
            let ja = find_access(accesses, a);
            let jb = find_access(accesses, b);
            let conflicts = accesses[ja].1.get_conflicts(&accesses[jb].1);
            let ghost sc = spec_conflicts(access_of(accesses@, a), access_of(accesses@, b));
            proof {
                let v = choose|v: Seq<usize>|
                    ascending_listing(v, sc) && #[trigger] keys_of(conflicts@, v);
                if v.len() == 0 {
                    assert forall|x: usize| !sc.contains(x) by {
                        if sc.contains(x) {
                            assert(v.contains(x));
                        }
                    }
                    assert(sc =~= Set::<usize>::empty());
                } else {
                    assert(v.contains(v[0]));
                    assert(sc.contains(v[0]));
                }
            }
            if conflicts.len() > 0 {
                proof {
                    let v0 = choose|v: Seq<usize>|
                        ascending_listing(v, sc) && #[trigger] keys_of(conflicts@, v);
                    assert(ascending_listing(v0, sc));
                    assert(keys_of((a, b, conflicts).2@, v0));
                    assert(conflicts_listed(accesses@, (a, b, conflicts)));
                }
                let ghost old_r = r@;
                r.push((a, b, conflicts));
                proof {
                    assert(reported_pairs(r@) =~= reported_pairs(old_r).push((a, b)));
                    assert forall|k: int| 0 <= k < r@.len() implies conflicts_listed(
                        accesses@,
                        #[trigger] r@[k],
                    ) by {
                        if k < old_r.len() {
                            assert(r@[k] == old_r[k]);
                        }
                    }
                }
            }
        }
        i = i + 1;
    }
    proof {
        assert(ambiguities@.subrange(0, ambiguities@.len() as int) =~= ambiguities@);
    }
    r
}

/// Whether the list holds the pair.
fn vec_contains_pair(v: &Vec<(RegId, RegId)>, p: (RegId, RegId)) -> (r: bool)
    ensures
        r == v@.contains(p),
{
    let mut i: usize = 0;
    while i < v.len()
        invariant
            i <= v@.len(),
            forall|k: int| 0 <= k < i ==> v@[k] != p,
        decreases v@.len() - i,
    {
        if v[i].0 == p.0 && v[i].1 == p.1 {
            proof {
                assert(v@[i as int] == p);
            }
            return true;
        }
        i = i + 1;
    }
    false
}

/// Reports an ambiguity when some pair of nodes that the graph leaves
/// unordered, other than two sets that share members, has conflicting
/// combined accesses.
pub fn check_conflicts(
    ambiguities: &Vec<(RegId, RegId)>,
    intersecting_sets: &Vec<(RegId, RegId)>,
    accesses: &Vec<(RegId, Access<ComponentId>)>,
) -> (r: Result<(), ScheduleBuildError>)
    requires
        conflict_inputs_ok(ambiguities@, accesses@),
    ensures
        r is Ok <==> ambiguities@.filter(
            |p: (RegId, RegId)| is_conflicting(intersecting_sets@, accesses@, p),
        ).len() == 0,
        r is Err ==> r == Err::<(), ScheduleBuildError>(ScheduleBuildError::Ambiguity),
{
    let pairs = conflicting_pairs(ambiguities, intersecting_sets, accesses);
    if pairs.len() == 0 {
        Ok(())
    } else {
        Err(ScheduleBuildError::Ambiguity)
    }
}

/// A pair of ids is sorted the same whichever way round it is given, so a
/// pair of sets counts as unordered however the graph lists it.
pub proof fn lemma_sort_pair_symmetric(a: RegId, b: RegId)
    ensures
        spec_sort_pair(a, b) == spec_sort_pair(b, a),
{
    lemma_sort_pair_ordered(a, b);
}

/// Whether an unordered pair is reported does not depend on which of its
/// two nodes is listed first.
pub proof fn lemma_conflict_check_symmetric(
    intersecting_sets: Seq<(RegId, RegId)>,
    accesses: Seq<(RegId, Access<ComponentId>)>,
    a: RegId,
    b: RegId,
)
    ensures
        is_conflicting(intersecting_sets, accesses, (a, b)) == is_conflicting(
            intersecting_sets,
            accesses,
            (b, a),
        ),
{
    lemma_sort_pair_symmetric(a, b);
    lemma_conflicts_symmetric(access_of(accesses, a), access_of(accesses, b));
}

} // verus!
