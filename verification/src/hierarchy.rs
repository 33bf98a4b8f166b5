//! Walks over the hierarchy of systems and system sets, given as its list of
//! edges from each set to its members: the sets whose layout must be built
//! again above a changed node, the part of the hierarchy below a set, and the
//! sets that share a member.

use petgraph::graphmap::{DiGraphMap, GraphMap};
use petgraph::Directed;
use std::collections::hash_map::RandomState;
use std::hash::BuildHasher;
use vstd::prelude::*;

use crate::access::Access;
use crate::component::ComponentId;
use crate::descriptor::{sort_pair, RegId};
use crate::schedule::{
    access_keys_unique, access_of, check_ambiguous, check_hierarchy, find_cycles, graph_nodes, has_access,
    spec_sort_pair, tarjan_scc_of, unordered_set_pairs, Cycle, ScheduleBuildError,
};

verus! {

/// The node a step along an edge leaves: its start going down, its end going up.
pub open spec fn edge_source(e: (RegId, RegId), up: bool) -> RegId {
    if up {
        e.1
    } else {
        e.0
    }
}

/// The node a step along an edge reaches: its end going down, its start going up.
pub open spec fn edge_target(e: (RegId, RegId), up: bool) -> RegId {
    if up {
        e.0
    } else {
        e.1
    }
}

/// Whether a walk goes on from a node: not from a set listed in `stop`.
pub open spec fn expands(stop: Seq<RegId>, x: RegId) -> bool {
    !(x is SystemSet && stop.contains(x))
}

/// Whether a walk may reach a node: any node going up, only sets going down.
pub open spec fn admits(up: bool, y: RegId) -> bool {
    up || y is SystemSet
}

/// The nodes that a walk from `start` reaches in at most `k` steps.
pub open spec fn reached_within(
    edges: Seq<(RegId, RegId)>,
    up: bool,
    stop: Seq<RegId>,
    start: RegId,
    k: nat,
) -> Set<RegId>
    decreases k,
{
    if k == 0 {
        set![start]
    } else {
        let prev = reached_within(edges, up, stop, start, (k - 1) as nat);
        prev.union(
            Set::new(
                |y: RegId|
                    admits(up, y) && exists|j: int|
                        0 <= j < edges.len() && edge_target(#[trigger] edges[j], up) == y
                            && prev.contains(edge_source(edges[j], up)) && expands(
                            stop,
                            edge_source(edges[j], up),
                        ),
            ),
        )
    }
}

/// The nodes that a walk from `start` reaches.
pub open spec fn reached(edges: Seq<(RegId, RegId)>, up: bool, stop: Seq<RegId>, start: RegId) -> Set<
    RegId,
> {
    Set::new(|n: RegId| exists|k: nat| #[trigger] reached_within(edges, up, stop, start, k).contains(n))
}

/// A queue that holds each node once, and a node after the first only where
/// some edge leads to it, is at most one longer than the list of edges.
proof fn lemma_queue_bound(q: Seq<RegId>, edges: Seq<(RegId, RegId)>, up: bool)
    requires
        q.len() >= 1,
        q.no_duplicates(),
        forall|i: int|
            #![trigger q[i]]
            1 <= i < q.len() ==> exists|j: int|
                0 <= j < edges.len() && edge_target(#[trigger] edges[j], up) == q[i],
    ensures
        q.len() <= edges.len() + 1,
{
    let t = q.subrange(1, q.len() as int);
    let targets = edges.map_values(|e: (RegId, RegId)| edge_target(e, up));
    assert(t.no_duplicates());
    t.unique_seq_to_set();
    targets.lemma_cardinality_of_set();
    assert forall|x: RegId| #[trigger] t.to_set().contains(x) implies targets.to_set().contains(x) by {
        let i = choose|i: int| 0 <= i < t.len() && t[i] == x;
        assert(q[i + 1] == x);
        let j = choose|j: int| 0 <= j < edges.len() && edge_target(#[trigger] edges[j], up) == q[i + 1];
        assert(targets[j] == x);
    }
    vstd::set_lib::lemma_len_subset(t.to_set(), targets.to_set());
}

/// A queue that holds its start and is closed under the steps of a walk from
/// each node holds every node the walk reaches in `k` steps.
proof fn lemma_closed_queue_holds_reached(
    q: Seq<RegId>,
    edges: Seq<(RegId, RegId)>,
    up: bool,
    stop: Seq<RegId>,
    start: RegId,
    k: nat,
)
    requires
        q.contains(start),
        forall|i: int, j: int|
            0 <= i < q.len() && 0 <= j < edges.len() && expands(stop, q[i]) && edge_source(
                #[trigger] edges[j],
                up,
            ) == #[trigger] q[i] && admits(up, edge_target(edges[j], up)) ==> q.contains(
                edge_target(edges[j], up),
            ),
    ensures
        forall|n: RegId| reached_within(edges, up, stop, start, k).contains(n) ==> #[trigger] q.contains(n),
    decreases k,
{
    if k > 0 {
        lemma_closed_queue_holds_reached(q, edges, up, stop, start, (k - 1) as nat);
        let prev = reached_within(edges, up, stop, start, (k - 1) as nat);
        assert forall|n: RegId| reached_within(edges, up, stop, start, k).contains(n) implies #[trigger] q.contains(
            n,
        ) by {
            if !prev.contains(n) {
                let j = choose|j: int|
                    0 <= j < edges.len() && edge_target(#[trigger] edges[j], up) == n && prev.contains(
                        edge_source(edges[j], up),
                    ) && expands(stop, edge_source(edges[j], up));
                let x = edge_source(edges[j], up);
                assert(q.contains(x));
                let i = choose|i: int| 0 <= i < q.len() && q[i] == x;
                assert(edge_source(edges[j], up) == q[i]);
            }
        }
    }
}

/// Whether the list holds the id.
fn contains_id(v: &Vec<RegId>, id: RegId) -> (r: bool)
    ensures
        r == v@.contains(id),
{
    let mut i: usize = 0;
    while i < v.len()
        invariant
            i <= v@.len(),
            forall|k: int| 0 <= k < i ==> v@[k] != id,
        decreases v@.len() - i,
    {
        if v[i] == id {
            return true;
        }
        i = i + 1;
    }
    false
}

/// A breadth-first walk from `start` along the edges (downwards, or upwards
/// when `up`), that goes on from every node but the sets in `stop` and, going
/// down, reaches only sets. Returns the nodes reached, each once, in the
/// order they were reached, `start` first.
fn breadth_first(edges: &Vec<(RegId, RegId)>, up: bool, stop: &Vec<RegId>, start: RegId) -> (q: Vec<RegId>)
    ensures
        q@.len() >= 1,
        q@[0] == start,
        q@.no_duplicates(),
        forall|n: RegId| #[trigger] q@.contains(n) <==> reached(edges@, up, stop@, start).contains(n),
{
    let mut q: Vec<RegId> = Vec::new();
    q.push(start);
    proof {
        assert(reached_within(edges@, up, stop@, start, 0).contains(start));
    }
    let mut h: usize = 0;
    while h < q.len()
        invariant
            h <= q@.len(),
            q@.len() <= edges@.len() + 1,
            q@.len() >= 1,
            q@[0] == start,
            q@.no_duplicates(),
            forall|i: int|
                #![trigger q@[i]]
                1 <= i < q@.len() ==> exists|j: int|
                    0 <= j < edges@.len() && edge_target(#[trigger] edges@[j], up) == q@[i],
            forall|i: int|
                0 <= i < q@.len() ==> reached(edges@, up, stop@, start).contains(#[trigger] q@[i]),
            forall|i: int, j: int|
                0 <= i < h && 0 <= j < edges@.len() && expands(stop@, q@[i]) && edge_source(
                    #[trigger] edges@[j],
                    up,
                ) == #[trigger] q@[i] && admits(up, edge_target(edges@[j], up)) ==> q@.contains(
                    edge_target(edges@[j], up),
                ),
        decreases edges@.len() + 1 - h,
    {
        let x = q[h];
        let stopped = x.is_set() && contains_id(stop, x);
        if !stopped {
            let ghost kx = choose|k: nat| #[trigger] reached_within(edges@, up, stop@, start, k).contains(x);
            proof {
                assert(reached(edges@, up, stop@, start).contains(q@[h as int]));
            }
            let mut j: usize = 0;
            while j < edges.len()
                invariant
                            h < q@.len(),
                    q@[h as int] == x,
                    expands(stop@, x),
                    reached_within(edges@, up, stop@, start, kx).contains(x),
                    j <= edges@.len(),
                    q@.len() <= edges@.len() + 1,
                    q@.len() >= 1,
                    q@[0] == start,
                    q@.no_duplicates(),
                    forall|i: int|
                        #![trigger q@[i]]
                        1 <= i < q@.len() ==> exists|j: int|
                            0 <= j < edges@.len() && edge_target(#[trigger] edges@[j], up) == q@[i],
                    forall|i: int|
                        0 <= i < q@.len() ==> reached(edges@, up, stop@, start).contains(#[trigger] q@[i]),
                    forall|i: int, j: int|
                        0 <= i < h && 0 <= j < edges@.len() && expands(stop@, q@[i]) && edge_source(
                            #[trigger] edges@[j],
                            up,
                        ) == #[trigger] q@[i] && admits(up, edge_target(edges@[j], up)) ==> q@.contains(
                            edge_target(edges@[j], up),
                        ),
                    forall|jj: int|
                        0 <= jj < j && edge_source(#[trigger] edges@[jj], up) == x && admits(
                            up,
                            edge_target(edges@[jj], up),
                        ) ==> q@.contains(edge_target(edges@[jj], up)),
                decreases edges@.len() - j,
            {
                let (a, b) = edges[j];
                let (src, dst) = if up {
                    (b, a)
                } else {
                    (a, b)
                };
                if src == x && (up || dst.is_set()) && !contains_id(&q, dst) {
                    let ghost old_q = q@;
                    proof {
                        let prev = reached_within(edges@, up, stop@, start, kx);
                        assert(edge_target(edges@[j as int], up) == dst);
                        assert(reached_within(edges@, up, stop@, start, kx + 1).contains(dst));
                    }
                    q.push(dst);
                    proof {
                        assert forall|i: int|
                            #![trigger q@[i]]
                            1 <= i < q@.len() implies exists|jj: int|
                            0 <= jj < edges@.len() && edge_target(#[trigger] edges@[jj], up) == q@[i] by {
                            if i < old_q.len() {
                                assert(q@[i] == old_q[i]);
                            } else {
                                assert(edge_target(edges@[j as int], up) == q@[i]);
                            }
                        }
                        assert forall|i: int| 0 <= i < q@.len() implies reached(
                            edges@,
                            up,
                            stop@,
                            start,
                        ).contains(#[trigger] q@[i]) by {
                            if i < old_q.len() {
                                assert(q@[i] == old_q[i]);
                            } else {
                                assert(reached_within(edges@, up, stop@, start, kx + 1).contains(q@[i]));
                            }
                        }
                        assert(q@.no_duplicates()) by {
                            assert forall|i: int, k: int|
                                0 <= i < q@.len() && 0 <= k < q@.len() && i != k implies q@[i] != q@[k] by {
                                if i < old_q.len() && k < old_q.len() {
                                } else if i < old_q.len() {
                                    assert(old_q.contains(q@[i]));
                                } else if k < old_q.len() {
                                    assert(old_q.contains(q@[k]));
                                }
                            }
                        }
                        lemma_queue_bound(q@, edges@, up);
                        assert forall|i: int, jj: int|
                            0 <= i < h && 0 <= jj < edges@.len() && expands(stop@, q@[i]) && edge_source(
                                #[trigger] edges@[jj],
                                up,
                            ) == #[trigger] q@[i] && admits(up, edge_target(edges@[jj], up)) implies q@.contains(
                            edge_target(edges@[jj], up),
                        ) by {
                            assert(q@[i] == old_q[i]);
                            assert(old_q.contains(edge_target(edges@[jj], up)));
                            let w = choose|w: int| 0 <= w < old_q.len() && old_q[w] == edge_target(edges@[jj], up);
                            assert(q@[w] == edge_target(edges@[jj], up));
                        }
                        assert forall|jj: int|
                            0 <= jj < j + 1 && edge_source(#[trigger] edges@[jj], up) == x && admits(
                                up,
                                edge_target(edges@[jj], up),
                            ) implies q@.contains(edge_target(edges@[jj], up)) by {
                            if jj < j {
                                assert(old_q.contains(edge_target(edges@[jj], up)));
                                let w = choose|w: int| 0 <= w < old_q.len() && old_q[w] == edge_target(edges@[jj], up);
                                assert(q@[w] == edge_target(edges@[jj], up));
                            } else {
                                assert(q@[q@.len() - 1] == edge_target(edges@[jj], up));
                            }
                        }
                    }
                } else {
                    proof {
                        if src == x && (up || dst is SystemSet) {
                            assert(q@.contains(edge_target(edges@[j as int], up)));
                        }
                    }
                }
                j = j + 1;
            }
        }
        h = h + 1;
    }
    proof {
        assert forall|n: RegId| #[trigger] q@.contains(n) <==> reached(edges@, up, stop@, start).contains(n) by {
            if q@.contains(n) {
                let i = choose|i: int| 0 <= i < q@.len() && q@[i] == n;
                assert(reached(edges@, up, stop@, start).contains(q@[i]));
            }
            if reached(edges@, up, stop@, start).contains(n) {
                let k = choose|k: nat| #[trigger] reached_within(edges@, up, stop@, start, k).contains(n);
                assert(q@[0] == start);
                lemma_closed_queue_holds_reached(q@, edges@, up, stop@, start, k);
            }
        }
    }
    q
}

/// Only sets have members.
pub open spec fn members_below_sets(edges: Seq<(RegId, RegId)>) -> bool {
    forall|k: int| 0 <= k < edges.len() ==> (#[trigger] edges[k]).0 is SystemSet
}

/// The sets to mark as changed when the node `id` changes: a walk up the
/// hierarchy from `id` that does not go on past a set already marked, and
/// that marks every set it reaches that was not marked before. Returned in
/// the order they are reached, each once.
pub fn walk_up(hier_edges: &Vec<(RegId, RegId)>, id: RegId, modified: &Vec<RegId>) -> (r: Vec<RegId>)
    requires
        members_below_sets(hier_edges@),
    ensures
        r@.no_duplicates(),
        forall|n: RegId|
            #[trigger] r@.contains(n) <==> (reached(hier_edges@, true, modified@, id).contains(n)
                && n is SystemSet && !modified@.contains(n)),
{
    let q = breadth_first(hier_edges, true, modified, id);
    let mut r: Vec<RegId> = Vec::new();
    let mut i: usize = 0;
    while i < q.len()
        invariant
            i <= q@.len(),
            q@.no_duplicates(),
            r@.no_duplicates(),
            forall|n: RegId|
                #[trigger] r@.contains(n) <==> (exists|k: int| 0 <= k < i && q@[k] == n) && n is SystemSet
                    && !modified@.contains(n),
        decreases q@.len() - i,
    {
        let n = q[i];
        if n.is_set() && !contains_id(modified, n) {
            let ghost old_r = r@;
            proof {
                assert(!old_r.contains(n)) by {
                    if old_r.contains(n) {
                        let k = choose|k: int| 0 <= k < i && q@[k] == n;
                        assert(q@[k] == q@[i as int]);
                    }
                }
            }
            r.push(n);
            proof {
                assert forall|m: RegId| #[trigger] r@.contains(m) <==> (exists|k: int|
                    0 <= k < i + 1 && q@[k] == m) && m is SystemSet && !modified@.contains(m) by {
                    if r@.contains(m) && m != n {
                        let w = choose|w: int| 0 <= w < r@.len() && r@[w] == m;
                        assert(old_r[w] == m);
                        assert(old_r.contains(m));
                    }
                    if (exists|k: int| 0 <= k < i + 1 && q@[k] == m) && m is SystemSet && !modified@.contains(m) {
                        if m != n {
                            let k = choose|k: int| 0 <= k < i + 1 && q@[k] == m;
                            assert(k != i);
                            assert(old_r.contains(m));
                            let w = choose|w: int| 0 <= w < old_r.len() && old_r[w] == m;
                            assert(r@[w] == m);
                        } else {
                            assert(r@[r@.len() - 1] == m);
                        }
                    }
                }
                assert(r@.no_duplicates()) by {
                    assert forall|a: int, b: int| 0 <= a < r@.len() && 0 <= b < r@.len() && a != b implies r@[a]
                        != r@[b] by {
                        if a < old_r.len() && b < old_r.len() {
                        } else if a < old_r.len() {
                            assert(old_r.contains(r@[a]));
                        } else if b < old_r.len() {
                            assert(old_r.contains(r@[b]));
                        }
                    }
                }
            }
        } else {
            proof {
                assert forall|m: RegId| #[trigger] r@.contains(m) <==> (exists|k: int|
                    0 <= k < i + 1 && q@[k] == m) && m is SystemSet && !modified@.contains(m) by {
                    if (exists|k: int| 0 <= k < i + 1 && q@[k] == m) && m is SystemSet && !modified@.contains(m) {
                        let k = choose|k: int| 0 <= k < i + 1 && q@[k] == m;
                        assert(k != i);
                    }
                }
            }
        }
        i = i + 1;
    }
    proof {
        assert forall|n: RegId| #[trigger] r@.contains(n) <==> (reached(hier_edges@, true, modified@, id).contains(n)
            && n is SystemSet && !modified@.contains(n)) by {
            if r@.contains(n) {
                let k = choose|k: int| 0 <= k < q@.len() && q@[k] == n;
                assert(q@.contains(n));
            }
            if reached(hier_edges@, true, modified@, id).contains(n) {
                assert(q@.contains(n));
                let k = choose|k: int| 0 <= k < q@.len() && q@[k] == n;
                assert(exists|k: int| 0 <= k < q@.len() && q@[k] == n);
            }
        }
    }
    r
}

/// The part of the hierarchy below the set `id`: every edge that starts at
/// `id` or at a set below it, in the order of the list.
pub fn sub_hierarchy(hier_edges: &Vec<(RegId, RegId)>, id: RegId) -> (r: Vec<(RegId, RegId)>)
    requires
        id is SystemSet,
    ensures
        r@.len() <= hier_edges@.len(),
        forall|e: (RegId, RegId)|
            #[trigger] r@.contains(e) <==> (hier_edges@.contains(e) && reached(
                hier_edges@,
                false,
                Seq::<RegId>::empty(),
                id,
            ).contains(e.0)),
{
    let no_stop: Vec<RegId> = Vec::new();
    let q = breadth_first(hier_edges, false, &no_stop, id);
    proof {
        assert(no_stop@ =~= Seq::<RegId>::empty());
    }
    let mut r: Vec<(RegId, RegId)> = Vec::new();
    let mut j: usize = 0;
    while j < hier_edges.len()
        invariant
            j <= hier_edges@.len(),
            r@.len() <= j,
            forall|n: RegId| #[trigger] q@.contains(n) <==> reached(hier_edges@, false, Seq::<RegId>::empty(), id).contains(n),
            forall|e: (RegId, RegId)|
                #[trigger] r@.contains(e) <==> (q@.contains(e.0) && exists|jj: int| 0 <= jj < j && hier_edges@[jj] == e),
        decreases hier_edges@.len() - j,
    {
        let e = hier_edges[j];
        let ghost old_r = r@;
        if contains_id(&q, e.0) {
            r.push(e);
        }
        proof {
            assert forall|f: (RegId, RegId)| #[trigger] r@.contains(f) <==> (q@.contains(f.0) && exists|jj: int|
                0 <= jj < j + 1 && hier_edges@[jj] == f) by {
                if r@.contains(f) {
                    let w = choose|w: int| 0 <= w < r@.len() && r@[w] == f;
                    if w < old_r.len() {
                        assert(old_r[w] == f);
                        assert(old_r.contains(f));
                    } else {
                        assert(hier_edges@[j as int] == f);
                    }
                }
                if q@.contains(f.0) && exists|jj: int| 0 <= jj < j + 1 && hier_edges@[jj] == f {
                    let jj = choose|jj: int| 0 <= jj < j + 1 && hier_edges@[jj] == f;
                    if jj == j {
                        assert(r@[r@.len() - 1] == f);
                    } else {
                        assert(old_r.contains(f));
                        let w = choose|w: int| 0 <= w < old_r.len() && old_r[w] == f;
                        assert(r@[w] == f);
                    }
                }
            }
        }
        j = j + 1;
    }
    proof {
        assert forall|e: (RegId, RegId)| #[trigger] r@.contains(e) <==> (hier_edges@.contains(e) && reached(
            hier_edges@,
            false,
            Seq::<RegId>::empty(),
            id,
        ).contains(e.0)) by {
            if hier_edges@.contains(e) {
                let jj = choose|jj: int| 0 <= jj < hier_edges@.len() && hier_edges@[jj] == e;
                assert(exists|jj: int| 0 <= jj < hier_edges@.len() && hier_edges@[jj] == e);
            }
        }
    }
    r
}

/// The sets that share a member below them, as the sorted pair of the two
/// sets with the member: for any two edges that end at the same node, the
/// pair of their starts.
pub open spec fn intersections(edges: Seq<(RegId, RegId)>) -> Set<((RegId, RegId), RegId)> {
    Set::new(
        |t: ((RegId, RegId), RegId)|
            exists|k1: int, k2: int|
                0 <= k1 < k2 < edges.len() && #[trigger] edges[k1].1 == t.1 && #[trigger] edges[k2].1
                    == t.1 && spec_sort_pair(edges[k1].0, edges[k2].0) == t.0,
    )
}

/// Every two sets that share a member, each time they share one, as the
/// sorted pair of the sets with the shared member.
pub fn intersecting_sets(edges: &Vec<(RegId, RegId)>) -> (r: Vec<((RegId, RegId), RegId)>)
    requires
        members_below_sets(edges@),
    ensures
        forall|t: ((RegId, RegId), RegId)| #[trigger] r@.contains(t) <==> intersections(edges@).contains(t),
{
    let mut r: Vec<((RegId, RegId), RegId)> = Vec::new();
    let mut k2: usize = 0;
    while k2 < edges.len()
        invariant
            k2 <= edges@.len(),
            forall|t: ((RegId, RegId), RegId)|
                #[trigger] r@.contains(t) <==> exists|a: int, b: int|
                    0 <= a < b < k2 && #[trigger] edges@[a].1 == t.1 && #[trigger] edges@[b].1 == t.1
                        && spec_sort_pair(edges@[a].0, edges@[b].0) == t.0,
        decreases edges@.len() - k2,
    {
        let mut k1: usize = 0;
        while k1 < k2
            invariant
                k1 <= k2 < edges@.len(),
                forall|t: ((RegId, RegId), RegId)|
                    #[trigger] r@.contains(t) <==> (exists|a: int, b: int|
                        0 <= a < b < k2 && #[trigger] edges@[a].1 == t.1 && #[trigger] edges@[b].1 == t.1
                            && spec_sort_pair(edges@[a].0, edges@[b].0) == t.0) || (exists|a: int|
                        0 <= a < k1 && #[trigger] edges@[a].1 == t.1 && edges@[k2 as int].1 == t.1
                            && spec_sort_pair(edges@[a].0, edges@[k2 as int].0) == t.0),
            decreases k2 - k1,
        {
            let (pa, na) = edges[k1];
            let (pb, nb) = edges[k2];
            if na == nb {
                let t = (sort_pair(pa, pb), nb);
                let ghost old_r = r@;
                r.push(t);
                proof {
                    assert forall|u: ((RegId, RegId), RegId)| #[trigger] r@.contains(u) <==> (exists|a: int, b: int|
                        0 <= a < b < k2 && #[trigger] edges@[a].1 == u.1 && #[trigger] edges@[b].1 == u.1
                            && spec_sort_pair(edges@[a].0, edges@[b].0) == u.0) || (exists|a: int|
                        0 <= a < k1 + 1 && #[trigger] edges@[a].1 == u.1 && edges@[k2 as int].1 == u.1
                            && spec_sort_pair(edges@[a].0, edges@[k2 as int].0) == u.0) by {
                        if r@.contains(u) {
                            if u == t {
                                assert(edges@[k1 as int].1 == u.1);
                            } else {
                                let w = choose|w: int| 0 <= w < r@.len() && r@[w] == u;
                                assert(old_r[w] == u);
                                assert(old_r.contains(u));
                            }
                        }
                        let p1 = exists|a: int, b: int|
                            0 <= a < b < k2 && #[trigger] edges@[a].1 == u.1 && #[trigger] edges@[b].1 == u.1
                                && spec_sort_pair(edges@[a].0, edges@[b].0) == u.0;
                        let p2 = exists|a: int|
                            0 <= a < k1 + 1 && #[trigger] edges@[a].1 == u.1 && edges@[k2 as int].1 == u.1
                                && spec_sort_pair(edges@[a].0, edges@[k2 as int].0) == u.0;
                        if p1 || p2 {
                            if u == t {
                                assert(r@[r@.len() - 1] == u);
                            } else {
                                if p2 && !p1 {
                                    let a = choose|a: int|
                                        0 <= a < k1 + 1 && #[trigger] edges@[a].1 == u.1 && edges@[k2 as int].1
                                            == u.1 && spec_sort_pair(edges@[a].0, edges@[k2 as int].0) == u.0;
                                    assert(a != k1);
                                }
                                assert(old_r.contains(u));
                                let w = choose|w: int| 0 <= w < old_r.len() && old_r[w] == u;
                                assert(r@[w] == u);
                            }
                        }
                    }
                }
            } else {
                proof {
                    assert forall|u: ((RegId, RegId), RegId)| #[trigger] r@.contains(u) <==> (exists|a: int, b: int|
                        0 <= a < b < k2 && #[trigger] edges@[a].1 == u.1 && #[trigger] edges@[b].1 == u.1
                            && spec_sort_pair(edges@[a].0, edges@[b].0) == u.0) || (exists|a: int|
                        0 <= a < k1 + 1 && #[trigger] edges@[a].1 == u.1 && edges@[k2 as int].1 == u.1
                            && spec_sort_pair(edges@[a].0, edges@[k2 as int].0) == u.0) by {
                        if exists|a: int|
                            0 <= a < k1 + 1 && #[trigger] edges@[a].1 == u.1 && edges@[k2 as int].1 == u.1
                                && spec_sort_pair(edges@[a].0, edges@[k2 as int].0) == u.0 {
                            let a = choose|a: int|
                                0 <= a < k1 + 1 && #[trigger] edges@[a].1 == u.1 && edges@[k2 as int].1 == u.1
                                    && spec_sort_pair(edges@[a].0, edges@[k2 as int].0) == u.0;
                            assert(a != k1);
                        }
                    }
                }
            }
            k1 = k1 + 1;
        }
        proof {
            assert forall|u: ((RegId, RegId), RegId)| #[trigger] r@.contains(u) <==> exists|a: int, b: int|
                0 <= a < b < k2 + 1 && #[trigger] edges@[a].1 == u.1 && #[trigger] edges@[b].1 == u.1
                    && spec_sort_pair(edges@[a].0, edges@[b].0) == u.0 by {
                if exists|a: int, b: int|
                    0 <= a < b < k2 + 1 && #[trigger] edges@[a].1 == u.1 && #[trigger] edges@[b].1 == u.1
                        && spec_sort_pair(edges@[a].0, edges@[b].0) == u.0 {
                    let (a, b) = choose|a: int, b: int|
                        0 <= a < b < k2 + 1 && #[trigger] edges@[a].1 == u.1 && #[trigger] edges@[b].1 == u.1
                            && spec_sort_pair(edges@[a].0, edges@[b].0) == u.0;
                    if b == k2 {
                        assert(0 <= a < k2 && edges@[a].1 == u.1 && edges@[k2 as int].1 == u.1
                            && spec_sort_pair(edges@[a].0, edges@[k2 as int].0) == u.0);
                    }
                }
            }
        }
        k2 = k2 + 1;
    }
    proof {
        assert forall|t: ((RegId, RegId), RegId)| #[trigger] r@.contains(t) <==> intersections(edges@).contains(t) by {
        }
    }
    r
}

/// The sorted pairs of sets of a list of intersections.
pub fn intersection_pairs(v: &Vec<((RegId, RegId), RegId)>) -> (r: Vec<(RegId, RegId)>)
    ensures
        r@ == v@.map_values(|t: ((RegId, RegId), RegId)| t.0),
{
    let mut r: Vec<(RegId, RegId)> = Vec::new();
    let mut i: usize = 0;
    while i < v.len()
        invariant
            i <= v@.len(),
            r@ == v@.subrange(0, i as int).map_values(|t: ((RegId, RegId), RegId)| t.0),
        decreases v@.len() - i,
    {
        r.push(v[i].0);
        proof {
            assert(r@ =~= v@.subrange(0, i + 1).map_values(|t: ((RegId, RegId), RegId)| t.0));
        }
        i = i + 1;
    }
    proof {
        assert(v@.subrange(0, v@.len() as int) =~= v@);
    }
    r
}

/// The flattened graph of a set below another: its systems and the
/// dependencies between them.
pub open spec fn flat_of(
    subsets: Seq<(RegId, Vec<RegId>, Vec<(RegId, RegId)>)>,
    set: RegId,
) -> (Seq<RegId>, Seq<(RegId, RegId)>) {
    let e = subsets[choose|j: int| 0 <= j < subsets.len() && #[trigger] subsets[j].0 == set];
    (e.1@, e.2@)
}

/// The systems a node of a set's graph stands for: a system itself, a set
/// the nodes of its flattened graph.
pub open spec fn stands_for(
    subsets: Seq<(RegId, Vec<RegId>, Vec<(RegId, RegId)>)>,
    n: RegId,
) -> Seq<RegId> {
    if n is SystemSet {
        flat_of(subsets, n).0
    } else {
        seq![n]
    }
}

/// Whether a dependency between systems comes from an edge of a set's
/// graph: it goes from a system the edge's start stands for to one its end
/// stands for.
pub open spec fn from_graph_edge(
    subsets: Seq<(RegId, Vec<RegId>, Vec<(RegId, RegId)>)>,
    g: (RegId, RegId),
    e: (RegId, RegId),
) -> bool {
    stands_for(subsets, g.0).contains(e.0) && stands_for(subsets, g.1).contains(e.1)
}

/// The dependencies of a set's flattened graph: those of the flattened
/// graphs of its member sets, and those that the edges of its graph stand
/// for.
pub open spec fn is_flat_edge(
    graph_nodes: Seq<RegId>,
    graph_edges: Seq<(RegId, RegId)>,
    subsets: Seq<(RegId, Vec<RegId>, Vec<(RegId, RegId)>)>,
    e: (RegId, RegId),
) -> bool {
    ||| exists|c: int|
        0 <= c < graph_nodes.len() && (#[trigger] graph_nodes[c]) is SystemSet && flat_of(
            subsets,
            graph_nodes[c],
        ).1.contains(e)
    ||| exists|k: int| 0 <= k < graph_edges.len() && from_graph_edge(subsets, #[trigger] graph_edges[k], e)
}

/// Whether a node is an end of one of the edges.
pub open spec fn is_endpoint(edges: Seq<(RegId, RegId)>, n: RegId) -> bool {
    exists|k: int| 0 <= k < edges.len() && ((#[trigger] edges[k]).0 == n || edges[k].1 == n)
}

/// Each member set of a graph has one flattened graph listed.
pub open spec fn subsets_ok(
    graph_nodes: Seq<RegId>,
    graph_edges: Seq<(RegId, RegId)>,
    subsets: Seq<(RegId, Vec<RegId>, Vec<(RegId, RegId)>)>,
) -> bool {
    &&& forall|i: int, j: int|
        0 <= i < subsets.len() && 0 <= j < subsets.len() && #[trigger] subsets[i].0
            == #[trigger] subsets[j].0 ==> i == j
    &&& forall|c: int|
        0 <= c < graph_nodes.len() && (#[trigger] graph_nodes[c]) is SystemSet ==> exists|j: int|
            0 <= j < subsets.len() && #[trigger] subsets[j].0 == graph_nodes[c]
    &&& forall|k: int|
        0 <= k < graph_edges.len() && (#[trigger] graph_edges[k]).0 is SystemSet ==> exists|j: int|
            0 <= j < subsets.len() && #[trigger] subsets[j].0 == graph_edges[k].0
    &&& forall|k: int|
        0 <= k < graph_edges.len() && (#[trigger] graph_edges[k]).1 is SystemSet ==> exists|j: int|
            0 <= j < subsets.len() && #[trigger] subsets[j].0 == graph_edges[k].1
}

/// Where the flattened graph of a set is listed.
fn find_subset(subsets: &Vec<(RegId, Vec<RegId>, Vec<(RegId, RegId)>)>, set: RegId) -> (j: usize)
    requires
        forall|i: int, j: int|
            0 <= i < subsets@.len() && 0 <= j < subsets@.len() && #[trigger] subsets@[i].0
                == #[trigger] subsets@[j].0 ==> i == j,
        exists|j: int| 0 <= j < subsets@.len() && #[trigger] subsets@[j].0 == set,
    ensures
        j < subsets@.len(),
        subsets@[j as int].1@ == flat_of(subsets@, set).0,
        subsets@[j as int].2@ == flat_of(subsets@, set).1,
{
    let mut j: usize = 0;
    while j < subsets.len()
        invariant
            j <= subsets@.len(),
            forall|k: int| 0 <= k < j ==> subsets@[k].0 != set,
            forall|i: int, j: int|
                0 <= i < subsets@.len() && 0 <= j < subsets@.len() && #[trigger] subsets@[i].0
                    == #[trigger] subsets@[j].0 ==> i == j,
            exists|j: int| 0 <= j < subsets@.len() && #[trigger] subsets@[j].0 == set,
        decreases subsets@.len() - j,
    {
        if subsets[j].0 == set {
            proof {
                let w = choose|k: int| 0 <= k < subsets@.len() && #[trigger] subsets@[k].0 == set;
                assert(subsets@[w].0 == subsets@[j as int].0);
            }
            return j;
        }
        j = j + 1;
    }
    proof {
        let w = choose|k: int| 0 <= k < subsets@.len() && #[trigger] subsets@[k].0 == set;
        assert(subsets@[w].0 == set);
    }
    0
}

#[verifier::external_type_specification]
#[verifier::external_body]
#[verifier::reject_recursive_types(N)]
#[verifier::reject_recursive_types(E)]
#[verifier::reject_recursive_types(Ty)]
#[verifier::reject_recursive_types(S)]
pub struct ExGraphMap<N, E, Ty, S: BuildHasher>(GraphMap<N, E, Ty, S>);

#[verifier::external_type_specification]
#[verifier::external_body]
pub struct ExDirected(Directed);

/// The nodes of a directed graph map, in the order they were first added.
pub uninterp spec fn graph_map_nodes(g: GraphMap<RegId, (), Directed, RandomState>) -> Seq<RegId>;

/// The edges of a directed graph map, in the order they were first added.
pub uninterp spec fn graph_map_edges(g: GraphMap<RegId, (), Directed, RandomState>) -> Seq<(RegId, RegId)>;

/// `s` with `x` appended, unless `x` is in it.
pub open spec fn with_missing<T>(s: Seq<T>, x: T) -> Seq<T> {
    if s.contains(x) {
        s
    } else {
        s.push(x)
    }
}

/// `petgraph::graphmap::GraphMap::new`: a graph with no node and no edge.
#[verifier::external_body]
pub(crate) fn graph_map_new() -> (r: GraphMap<RegId, (), Directed, RandomState>)
    ensures
        graph_map_nodes(r) == Seq::<RegId>::empty(),
        graph_map_edges(r) == Seq::<(RegId, RegId)>::empty(),
{
    DiGraphMap::new()
}

/// `GraphMap::add_node`: the node is appended to the nodes unless it is one
/// of them already (the nodes are the keys of an `IndexMap`, kept in
/// insertion order); the edges stay.
#[verifier::external_body]
fn graph_map_add_node(g: &mut GraphMap<RegId, (), Directed, RandomState>, n: RegId)
    ensures
        graph_map_nodes(*final(g)) == with_missing(graph_map_nodes(*old(g)), n),
        graph_map_edges(*final(g)) == graph_map_edges(*old(g)),
{
    g.add_node(n);
}

/// `GraphMap::add_edge`: an edge that is there already changes nothing;
/// otherwise the edge is appended to the edges (keys of an `IndexMap`) and its
/// start, then its end, to the nodes, each unless it is there.
#[verifier::external_body]
fn graph_map_add_edge(g: &mut GraphMap<RegId, (), Directed, RandomState>, a: RegId, b: RegId)
    ensures
        graph_map_edges(*old(g)).contains((a, b)) ==> graph_map_nodes(*final(g)) == graph_map_nodes(*old(g))
            && graph_map_edges(*final(g)) == graph_map_edges(*old(g)),
        !graph_map_edges(*old(g)).contains((a, b)) ==> graph_map_nodes(*final(g)) == with_missing(
            with_missing(graph_map_nodes(*old(g)), a),
            b,
        ) && graph_map_edges(*final(g)) == graph_map_edges(*old(g)).push((a, b)),
{
    g.add_edge(a, b, ());
}

/// `GraphMap::nodes`, collected: the nodes in their order.
#[verifier::external_body]
fn graph_map_nodes_vec(g: &GraphMap<RegId, (), Directed, RandomState>) -> (r: Vec<RegId>)
    ensures
        r@ == graph_map_nodes(*g),
{
    g.nodes().collect()
}

/// `GraphMap::all_edges`, collected without their weights: the edges in
/// their order.
#[verifier::external_body]
pub(crate) fn graph_map_edges_vec(g: &GraphMap<RegId, (), Directed, RandomState>) -> (r: Vec<(RegId, RegId)>)
    ensures
        r@ == graph_map_edges(*g),
{
    g.all_edges().map(|(a, b, _)| (a, b)).collect()
}

/// Appending what is missing keeps a sequence free of duplicates, and adds
/// just that element.
proof fn lemma_with_missing<T>(s: Seq<T>, x: T)
    requires
        s.no_duplicates(),
    ensures
        with_missing(s, x).no_duplicates(),
        forall|y: T| #[trigger] with_missing(s, x).contains(y) <==> (s.contains(y) || y == x),
{
    let t = with_missing(s, x);
    if !s.contains(x) {
        assert forall|y: T| #[trigger] t.contains(y) <==> (s.contains(y) || y == x) by {
            if s.contains(y) {
                let w = choose|w: int| 0 <= w < s.len() && s[w] == y;
                assert(t[w] == y);
            }
            if y == x {
                assert(t[t.len() - 1] == y);
            }
            if t.contains(y) && y != x {
                let w = choose|w: int| 0 <= w < t.len() && t[w] == y;
                assert(s[w] == y);
            }
        }
        assert forall|a: int, b: int| 0 <= a < t.len() && 0 <= b < t.len() && a != b implies t[a] != t[b] by {
            if a < s.len() && b < s.len() {
            } else if a < s.len() {
                assert(s.contains(t[a]));
            } else if b < s.len() {
                assert(s.contains(t[b]));
            }
        }
    }
}

/// Adds a node to a graph whose nodes are distinct, unless it is there.
fn add_node(g: &mut GraphMap<RegId, (), Directed, RandomState>, n: RegId)
    requires
        graph_map_nodes(*old(g)).no_duplicates(),
    ensures
        graph_map_nodes(*final(g)).no_duplicates(),
        forall|x: RegId|
            #[trigger] graph_map_nodes(*final(g)).contains(x) <==> (graph_map_nodes(*old(g)).contains(x) || x == n),
        graph_map_edges(*final(g)) == graph_map_edges(*old(g)),
{
    proof {
        lemma_with_missing(graph_map_nodes(*g), n);
    }
    graph_map_add_node(g, n);
}

/// Adds an edge, and its ends, to a graph whose nodes and edges are
/// distinct.
pub(crate) fn add_edge(g: &mut GraphMap<RegId, (), Directed, RandomState>, e: (RegId, RegId))
    requires
        graph_map_nodes(*old(g)).no_duplicates(),
        graph_map_edges(*old(g)).no_duplicates(),
    ensures
        graph_map_nodes(*final(g)).no_duplicates(),
        graph_map_edges(*final(g)).no_duplicates(),
        graph_map_edges(*final(g)).len() <= graph_map_edges(*old(g)).len() + 1,
        forall|x: RegId|
            #[trigger] graph_map_nodes(*final(g)).contains(x) <==> (graph_map_nodes(*old(g)).contains(x) || (
            !graph_map_edges(*old(g)).contains(e) && (x == e.0 || x == e.1))),
        forall|f: (RegId, RegId)|
            #[trigger] graph_map_edges(*final(g)).contains(f) <==> (graph_map_edges(*old(g)).contains(f) || f == e),
{
    let ghost nodes0 = graph_map_nodes(*g);
    let ghost edges0 = graph_map_edges(*g);
    proof {
        lemma_with_missing(nodes0, e.0);
        lemma_with_missing(with_missing(nodes0, e.0), e.1);
        lemma_with_missing(edges0, e);
        if edges0.contains(e) {
            assert(with_missing(edges0, e) == edges0);
        } else {
            assert(with_missing(edges0, e) == edges0.push(e));
        }
    }
    graph_map_add_edge(g, e.0, e.1);
}

/// The flattened graph of a set: the systems among the nodes of its graph
/// and the dependencies of its flattened graph (see `is_flat_edge`) with
/// their ends, each once. Member sets contribute the edges of their own
/// flattened graphs (with the ends of those edges), and each edge of the
/// set's graph becomes an edge from every system its start stands for to
/// every system its end stands for.
pub fn flatten(
    graph_nodes: &Vec<RegId>,
    graph_edges: &Vec<(RegId, RegId)>,
    subsets: &Vec<(RegId, Vec<RegId>, Vec<(RegId, RegId)>)>,
) -> (r: (Vec<RegId>, Vec<(RegId, RegId)>))
    requires
        subsets_ok(graph_nodes@, graph_edges@, subsets@),
    ensures
        r.0@.no_duplicates(),
        r.1@.no_duplicates(),
        forall|e: (RegId, RegId)|
            #[trigger] r.1@.contains(e) <==> is_flat_edge(graph_nodes@, graph_edges@, subsets@, e),
        forall|n: RegId|
            #[trigger] r.0@.contains(n) <==> ((graph_nodes@.contains(n) && n is System) || is_endpoint(
                r.1@,
                n,
            )),
{
    let mut flat = graph_map_new();
    let mut i: usize = 0;
    while i < graph_nodes.len()
        invariant
            i <= graph_nodes@.len(),
            subsets_ok(graph_nodes@, graph_edges@, subsets@),
            graph_map_nodes(flat).no_duplicates(),
            graph_map_edges(flat).no_duplicates(),
            forall|e: (RegId, RegId)|
                #[trigger] graph_map_edges(flat).contains(e) <==> exists|c: int|
                    0 <= c < i && (#[trigger] graph_nodes@[c]) is SystemSet && flat_of(
                        subsets@,
                        graph_nodes@[c],
                    ).1.contains(e),
            forall|n: RegId|
                #[trigger] graph_map_nodes(flat).contains(n) <==> ((exists|c: int|
                    0 <= c < i && graph_nodes@[c] == n && n is System) || is_endpoint(graph_map_edges(flat), n)),
        decreases graph_nodes@.len() - i,
    {
        let c = graph_nodes[i];
        if c.is_set() {
            let j = find_subset(subsets, c);
            let sub_edges = &subsets[j].2;
            let mut k: usize = 0;
            while k < sub_edges.len()
                invariant
                    i < graph_nodes@.len(),
                    graph_nodes@[i as int] == c,
                    c is SystemSet,
                    k <= sub_edges@.len(),
                    sub_edges@ == flat_of(subsets@, c).1,
                    graph_map_nodes(flat).no_duplicates(),
                    graph_map_edges(flat).no_duplicates(),
                    forall|e: (RegId, RegId)|
                        #[trigger] graph_map_edges(flat).contains(e) <==> (exists|cc: int|
                            0 <= cc < i && (#[trigger] graph_nodes@[cc]) is SystemSet && flat_of(
                                subsets@,
                                graph_nodes@[cc],
                            ).1.contains(e)) || (exists|kk: int| 0 <= kk < k && sub_edges@[kk] == e),
                    forall|n: RegId|
                        #[trigger] graph_map_nodes(flat).contains(n) <==> ((exists|cc: int|
                            0 <= cc < i && graph_nodes@[cc] == n && n is System) || is_endpoint(graph_map_edges(flat), n)),
                decreases sub_edges@.len() - k,
            {
                let ghost old_edges = graph_map_edges(flat);
                let ghost old_nodes = graph_map_nodes(flat);
                let e = sub_edges[k];
                add_edge(&mut flat, e);
                proof {
                    assert forall|f: (RegId, RegId)| #[trigger] graph_map_edges(flat).contains(f) <==> (exists|cc: int|
                        0 <= cc < i && (#[trigger] graph_nodes@[cc]) is SystemSet && flat_of(
                            subsets@,
                            graph_nodes@[cc],
                        ).1.contains(f)) || (exists|kk: int| 0 <= kk < k + 1 && sub_edges@[kk] == f) by {
                        if exists|kk: int| 0 <= kk < k + 1 && sub_edges@[kk] == f {
                            let kk = choose|kk: int| 0 <= kk < k + 1 && sub_edges@[kk] == f;
                            if kk < k {
                                assert(old_edges.contains(f));
                            }
                        }
                        if old_edges.contains(f) {
                        }
                    }
                    assert forall|n: RegId| #[trigger] graph_map_nodes(flat).contains(n) <==> ((exists|cc: int|
                        0 <= cc < i && graph_nodes@[cc] == n && n is System) || is_endpoint(graph_map_edges(flat), n)) by {
                        if is_endpoint(graph_map_edges(flat), n) {
                            let w = choose|w: int| 0 <= w < graph_map_edges(flat).len() && ((#[trigger] graph_map_edges(flat)[w]).0 == n || graph_map_edges(flat)[w].1 == n);
                            assert(graph_map_edges(flat).contains(graph_map_edges(flat)[w]));
                            if graph_map_edges(flat)[w] != e {
                                assert(old_edges.contains(graph_map_edges(flat)[w]));
                                let w2 = choose|w2: int| 0 <= w2 < old_edges.len() && old_edges[w2] == graph_map_edges(flat)[w];
                                assert(is_endpoint(old_edges, n));
                            }
                        }
                        if is_endpoint(old_edges, n) {
                            let w = choose|w: int| 0 <= w < old_edges.len() && ((#[trigger] old_edges[w]).0 == n || old_edges[w].1 == n);
                            assert(graph_map_edges(flat).contains(old_edges[w]));
                            let w2 = choose|w2: int| 0 <= w2 < graph_map_edges(flat).len() && graph_map_edges(flat)[w2] == old_edges[w];
                            assert(is_endpoint(graph_map_edges(flat), n));
                        }
                        if n == e.0 || n == e.1 {
                            assert(graph_map_edges(flat).contains(e));
                            let w2 = choose|w2: int| 0 <= w2 < graph_map_edges(flat).len() && graph_map_edges(flat)[w2] == e;
                            assert(is_endpoint(graph_map_edges(flat), n));
                        }
                    }
                }
                k = k + 1;
            }
            proof {
                assert forall|f: (RegId, RegId)| #[trigger] graph_map_edges(flat).contains(f) <==> exists|cc: int|
                    0 <= cc < i + 1 && (#[trigger] graph_nodes@[cc]) is SystemSet && flat_of(
                        subsets@,
                        graph_nodes@[cc],
                    ).1.contains(f) by {
                    if flat_of(subsets@, c).1.contains(f) {
                        let kk = choose|kk: int| 0 <= kk < sub_edges@.len() && sub_edges@[kk] == f;
                        assert(exists|kk: int| 0 <= kk < sub_edges@.len() && sub_edges@[kk] == f);
                    }
                    if exists|cc: int|
                        0 <= cc < i + 1 && (#[trigger] graph_nodes@[cc]) is SystemSet && flat_of(
                            subsets@,
                            graph_nodes@[cc],
                        ).1.contains(f) {
                        let cc = choose|cc: int|
                            0 <= cc < i + 1 && (#[trigger] graph_nodes@[cc]) is SystemSet && flat_of(
                                subsets@,
                                graph_nodes@[cc],
                            ).1.contains(f);
                        if cc == i {
                            let kk = choose|kk: int| 0 <= kk < sub_edges@.len() && sub_edges@[kk] == f;
                        }
                    }
                }
                assert forall|n: RegId| #[trigger] graph_map_nodes(flat).contains(n) <==> ((exists|cc: int|
                    0 <= cc < i + 1 && graph_nodes@[cc] == n && n is System) || is_endpoint(graph_map_edges(flat), n)) by {
                    if exists|cc: int| 0 <= cc < i + 1 && graph_nodes@[cc] == n && n is System {
                        let cc = choose|cc: int| 0 <= cc < i + 1 && graph_nodes@[cc] == n && n is System;
                        assert(cc != i);
                    }
                }
            }
        } else {
            let ghost old_nodes = graph_map_nodes(flat);
            add_node(&mut flat, c);
            proof {
                assert forall|f: (RegId, RegId)| #[trigger] graph_map_edges(flat).contains(f) <==> exists|cc: int|
                    0 <= cc < i + 1 && (#[trigger] graph_nodes@[cc]) is SystemSet && flat_of(
                        subsets@,
                        graph_nodes@[cc],
                    ).1.contains(f) by {
                    if exists|cc: int|
                        0 <= cc < i + 1 && (#[trigger] graph_nodes@[cc]) is SystemSet && flat_of(
                            subsets@,
                            graph_nodes@[cc],
                        ).1.contains(f) {
                        let cc = choose|cc: int|
                            0 <= cc < i + 1 && (#[trigger] graph_nodes@[cc]) is SystemSet && flat_of(
                                subsets@,
                                graph_nodes@[cc],
                            ).1.contains(f);
                        assert(cc != i);
                    }
                }
                assert forall|n: RegId| #[trigger] graph_map_nodes(flat).contains(n) <==> ((exists|cc: int|
                    0 <= cc < i + 1 && graph_nodes@[cc] == n && n is System) || is_endpoint(graph_map_edges(flat), n)) by {
                    if n == c {
                        assert(graph_nodes@[i as int] == n);
                    }
                    if exists|cc: int| 0 <= cc < i + 1 && graph_nodes@[cc] == n && n is System {
                        let cc = choose|cc: int| 0 <= cc < i + 1 && graph_nodes@[cc] == n && n is System;
                        if cc < i {
                            assert(old_nodes.contains(n));
                        }
                    }
                }
            }
        }
        i = i + 1;
    }
    let ghost stage1_nodes = graph_map_nodes(flat);
    let ghost stage1_edges = graph_map_edges(flat);
    let mut g: usize = 0;
    while g < graph_edges.len()
        invariant
            g <= graph_edges@.len(),
            subsets_ok(graph_nodes@, graph_edges@, subsets@),
            graph_map_nodes(flat).no_duplicates(),
            graph_map_edges(flat).no_duplicates(),
            forall|e: (RegId, RegId)|
                #[trigger] graph_map_edges(flat).contains(e) <==> (stage1_edges.contains(e) || exists|k: int|
                    0 <= k < g && from_graph_edge(subsets@, #[trigger] graph_edges@[k], e)),
            forall|e: (RegId, RegId)|
                #[trigger] stage1_edges.contains(e) <==> exists|c: int|
                    0 <= c < graph_nodes@.len() && (#[trigger] graph_nodes@[c]) is SystemSet && flat_of(
                        subsets@,
                        graph_nodes@[c],
                    ).1.contains(e),
            forall|n: RegId|
                #[trigger] graph_map_nodes(flat).contains(n) <==> ((graph_nodes@.contains(n) && n is System)
                    || is_endpoint(graph_map_edges(flat), n)),
        decreases graph_edges@.len() - g,
    {
        let (before, after) = graph_edges[g];
        let us = expansion(subsets, before);
        let vs = expansion(subsets, after);
        let mut a: usize = 0;
        while a < us.len()
            invariant
                g < graph_edges@.len(),
                graph_edges@[g as int] == (before, after),
                us@ == stands_for(subsets@, before),
                vs@ == stands_for(subsets@, after),
                a <= us@.len(),
                graph_map_nodes(flat).no_duplicates(),
                graph_map_edges(flat).no_duplicates(),
                forall|e: (RegId, RegId)|
                    #[trigger] graph_map_edges(flat).contains(e) <==> (stage1_edges.contains(e) || (exists|k: int|
                        0 <= k < g && from_graph_edge(subsets@, #[trigger] graph_edges@[k], e)) || (
                    exists|aa: int| 0 <= aa < a && us@[aa] == e.0) && vs@.contains(e.1)),
                forall|n: RegId|
                    #[trigger] graph_map_nodes(flat).contains(n) <==> ((graph_nodes@.contains(n) && n is System)
                        || is_endpoint(graph_map_edges(flat), n)),
            decreases us@.len() - a,
        {
            let mut b: usize = 0;
            while b < vs.len()
                invariant
                    g < graph_edges@.len(),
                    graph_edges@[g as int] == (before, after),
                    us@ == stands_for(subsets@, before),
                    vs@ == stands_for(subsets@, after),
                    a < us@.len(),
                    b <= vs@.len(),
                    graph_map_nodes(flat).no_duplicates(),
                    graph_map_edges(flat).no_duplicates(),
                    forall|e: (RegId, RegId)|
                        #[trigger] graph_map_edges(flat).contains(e) <==> (stage1_edges.contains(e) || (exists|k: int|
                            0 <= k < g && from_graph_edge(subsets@, #[trigger] graph_edges@[k], e)) || (
                        exists|aa: int| 0 <= aa < a && us@[aa] == e.0) && vs@.contains(e.1) || (e.0
                            == us@[a as int] && exists|bb: int| 0 <= bb < b && vs@[bb] == e.1)),
                    forall|n: RegId|
                        #[trigger] graph_map_nodes(flat).contains(n) <==> ((graph_nodes@.contains(n) && n is System)
                            || is_endpoint(graph_map_edges(flat), n)),
                decreases vs@.len() - b,
            {
                let ghost old_edges = graph_map_edges(flat);
                let e = (us[a], vs[b]);
                add_edge(&mut flat, e);
                proof {
                    assert forall|f: (RegId, RegId)| #[trigger] graph_map_edges(flat).contains(f) <==> (stage1_edges.contains(f)
                        || (exists|k: int| 0 <= k < g && from_graph_edge(subsets@, #[trigger] graph_edges@[k], f))
                        || (exists|aa: int| 0 <= aa < a && us@[aa] == f.0) && vs@.contains(f.1) || (f.0
                        == us@[a as int] && exists|bb: int| 0 <= bb < b + 1 && vs@[bb] == f.1)) by {
                        if f == e {
                            assert(vs@[b as int] == f.1);
                        }
                        if f.0 == us@[a as int] && exists|bb: int| 0 <= bb < b + 1 && vs@[bb] == f.1 {
                            let bb = choose|bb: int| 0 <= bb < b + 1 && vs@[bb] == f.1;
                            if bb < b {
                                assert(old_edges.contains(f));
                            }
                        }
                    }
                    assert forall|n: RegId| #[trigger] graph_map_nodes(flat).contains(n) <==> ((graph_nodes@.contains(n) && n is System)
                        || is_endpoint(graph_map_edges(flat), n)) by {
                        if is_endpoint(graph_map_edges(flat), n) {
                            let w = choose|w: int| 0 <= w < graph_map_edges(flat).len() && ((#[trigger] graph_map_edges(flat)[w]).0 == n || graph_map_edges(flat)[w].1 == n);
                            assert(graph_map_edges(flat).contains(graph_map_edges(flat)[w]));
                            if graph_map_edges(flat)[w] != e {
                                assert(old_edges.contains(graph_map_edges(flat)[w]));
                                let w2 = choose|w2: int| 0 <= w2 < old_edges.len() && old_edges[w2] == graph_map_edges(flat)[w];
                                assert(is_endpoint(old_edges, n));
                            }
                        }
                        if is_endpoint(old_edges, n) {
                            let w = choose|w: int| 0 <= w < old_edges.len() && ((#[trigger] old_edges[w]).0 == n || old_edges[w].1 == n);
                            assert(graph_map_edges(flat).contains(old_edges[w]));
                            let w2 = choose|w2: int| 0 <= w2 < graph_map_edges(flat).len() && graph_map_edges(flat)[w2] == old_edges[w];
                            assert(is_endpoint(graph_map_edges(flat), n));
                        }
                        if n == e.0 || n == e.1 {
                            assert(graph_map_edges(flat).contains(e));
                            let w2 = choose|w2: int| 0 <= w2 < graph_map_edges(flat).len() && graph_map_edges(flat)[w2] == e;
                            assert(is_endpoint(graph_map_edges(flat), n));
                        }
                    }
                }
                b = b + 1;
            }
            proof {
                assert forall|f: (RegId, RegId)| #[trigger] graph_map_edges(flat).contains(f) <==> (stage1_edges.contains(f)
                    || (exists|k: int| 0 <= k < g && from_graph_edge(subsets@, #[trigger] graph_edges@[k], f))
                    || (exists|aa: int| 0 <= aa < a + 1 && us@[aa] == f.0) && vs@.contains(f.1)) by {
                    if (exists|aa: int| 0 <= aa < a + 1 && us@[aa] == f.0) && vs@.contains(f.1) {
                        let aa = choose|aa: int| 0 <= aa < a + 1 && us@[aa] == f.0;
                        if aa == a {
                            let bb = choose|bb: int| 0 <= bb < vs@.len() && vs@[bb] == f.1;
                            assert(exists|bb: int| 0 <= bb < vs@.len() && vs@[bb] == f.1);
                        }
                    }
                    if f.0 == us@[a as int] && exists|bb: int| 0 <= bb < vs@.len() && vs@[bb] == f.1 {
                        let bb = choose|bb: int| 0 <= bb < vs@.len() && vs@[bb] == f.1;
                        assert(vs@.contains(f.1));
                    }
                }
            }
            a = a + 1;
        }
        proof {
            assert forall|f: (RegId, RegId)| #[trigger] graph_map_edges(flat).contains(f) <==> (stage1_edges.contains(f)
                || exists|k: int| 0 <= k < g + 1 && from_graph_edge(subsets@, #[trigger] graph_edges@[k], f)) by {
                if exists|k: int| 0 <= k < g + 1 && from_graph_edge(subsets@, #[trigger] graph_edges@[k], f) {
                    let k = choose|k: int| 0 <= k < g + 1 && from_graph_edge(subsets@, #[trigger] graph_edges@[k], f);
                    if k == g {
                        let aa = choose|aa: int| 0 <= aa < us@.len() && us@[aa] == f.0;
                        assert(exists|aa: int| 0 <= aa < us@.len() && us@[aa] == f.0);
                    }
                }
                if (exists|aa: int| 0 <= aa < us@.len() && us@[aa] == f.0) && vs@.contains(f.1) {
                    assert(from_graph_edge(subsets@, graph_edges@[g as int], f));
                }
            }
        }
        g = g + 1;
    }
    proof {
        assert forall|e: (RegId, RegId)| #[trigger] graph_map_edges(flat).contains(e) <==> is_flat_edge(
            graph_nodes@,
            graph_edges@,
            subsets@,
            e,
        ) by {
        }
    }
    (graph_map_nodes_vec(&flat), graph_map_edges_vec(&flat))
}

/// The systems a node of a set's graph stands for.
fn expansion(subsets: &Vec<(RegId, Vec<RegId>, Vec<(RegId, RegId)>)>, n: RegId) -> (r: Vec<RegId>)
    requires
        forall|i: int, j: int|
            0 <= i < subsets@.len() && 0 <= j < subsets@.len() && #[trigger] subsets@[i].0
                == #[trigger] subsets@[j].0 ==> i == j,
        n is SystemSet ==> exists|j: int| 0 <= j < subsets@.len() && #[trigger] subsets@[j].0 == n,
    ensures
        r@ == stands_for(subsets@, n),
{
    if n.is_set() {
        let j = find_subset(subsets, n);
        subsets[j].1.clone()
    } else {
        let mut r: Vec<RegId> = Vec::new();
        r.push(n);
        proof {
            assert(r@ =~= seq![n]);
        }
        r
    }
}

/// Whether the edge `e` is redundant in the graph of `edges`: its end has
/// another parent that `e`'s start lies above, so the end also lies below
/// the start along a longer path.
pub open spec fn is_redundant(edges: Seq<(RegId, RegId)>, e: (RegId, RegId)) -> bool {
    exists|j: int|
        0 <= j < edges.len() && (#[trigger] edges[j]).1 == e.1 && edges[j].0 != e.0 && reached(
            edges,
            true,
            Seq::<RegId>::empty(),
            edges[j].0,
        ).contains(e.0)
}

/// Whether some edge of the graph is redundant.
pub open spec fn has_redundant_edge(edges: Seq<(RegId, RegId)>) -> bool {
    exists|k: int| 0 <= k < edges.len() && is_redundant(edges, #[trigger] edges[k])
}

/// The redundant edges of the graph of `edges` (see `is_redundant`), in their
/// order.
pub fn redundant_edges(edges: &Vec<(RegId, RegId)>) -> (r: Vec<(RegId, RegId)>)
    ensures
        forall|e: (RegId, RegId)| #[trigger] r@.contains(e) <==> (edges@.contains(e) && is_redundant(edges@, e)),
{
    let empty: Vec<RegId> = Vec::new();
    let mut r: Vec<(RegId, RegId)> = Vec::new();
    let mut k: usize = 0;
    while k < edges.len()
        invariant
            k <= edges@.len(),
            empty@ == Seq::<RegId>::empty(),
            forall|e: (RegId, RegId)|
                #[trigger] r@.contains(e) <==> (exists|kk: int| 0 <= kk < k && edges@[kk] == e) && is_redundant(
                    edges@,
                    e,
                ),
        decreases edges@.len() - k,
    {
        let e = edges[k];
        let mut found = false;
        let mut j: usize = 0;
        while j < edges.len()
            invariant
                j <= edges@.len(),
                k < edges@.len(),
                    empty@ == Seq::<RegId>::empty(),
                e == edges@[k as int],
                found <==> exists|jj: int|
                    0 <= jj < j && (#[trigger] edges@[jj]).1 == e.1 && edges@[jj].0 != e.0 && reached(
                        edges@,
                        true,
                        Seq::<RegId>::empty(),
                        edges@[jj].0,
                    ).contains(e.0),
            decreases edges@.len() - j,
        {
            let f = edges[j];
            if f.1 == e.1 && f.0 != e.0 {
                let anc = breadth_first(edges, true, &empty, f.0);
                if contains_id(&anc, e.0) {
                    found = true;
                }
            }
            j = j + 1;
        }
        let ghost before = r@;
        if found {
            r.push(e);
        }
        proof {
            assert forall|x: (RegId, RegId)| #[trigger] r@.contains(x) <==> (exists|kk: int|
                0 <= kk < k + 1 && edges@[kk] == x) && is_redundant(edges@, x) by {
                if r@.contains(x) {
                    if x != e {
                        let w = choose|w: int| 0 <= w < r@.len() && r@[w] == x;
                        assert(before[w] == x);
                        assert(before.contains(x));
                    }
                }
                if (exists|kk: int| 0 <= kk < k + 1 && edges@[kk] == x) && is_redundant(edges@, x) {
                    if x == e {
                        assert(found);
                        assert(r@[r@.len() - 1] == x);
                    } else {
                        let kk = choose|kk: int| 0 <= kk < k + 1 && edges@[kk] == x;
                        assert(kk < k);
                        assert(before.contains(x));
                        let w = choose|w: int| 0 <= w < before.len() && before[w] == x;
                        assert(r@[w] == x);
                    }
                }
            }
        }
        k = k + 1;
    }
    r
}

/// Whether neither of `a` and `b` lies above the other in the graph of `g`.
pub open spec fn is_unordered(g: Seq<(RegId, RegId)>, a: RegId, b: RegId) -> bool {
    !reached(g, true, Seq::<RegId>::empty(), b).contains(a) && !reached(g, true, Seq::<RegId>::empty(), a).contains(b)
}

/// `amb` lists the pairs of nodes of the graph of `sub` that the graph of `g`
/// leaves unordered, each one way round at least, and nothing else.
pub open spec fn lists_unordered(amb: Seq<(RegId, RegId)>, sub: Seq<(RegId, RegId)>, g: Seq<(RegId, RegId)>) -> bool {
    &&& forall|k: int|
        0 <= k < amb.len() ==> graph_nodes(Seq::<RegId>::empty(), sub).contains((#[trigger] amb[k]).0)
            && graph_nodes(Seq::<RegId>::empty(), sub).contains(amb[k].1) && is_unordered(g, amb[k].0, amb[k].1)
    &&& forall|a: RegId, b: RegId|
        graph_nodes(Seq::<RegId>::empty(), sub).contains(a) && graph_nodes(Seq::<RegId>::empty(), sub).contains(b)
            && #[trigger] is_unordered(g, a, b) ==> amb.contains((a, b)) || amb.contains((b, a))
}

/// The nodes of the graph of `edges`, each once.
pub fn node_list(edges: &Vec<(RegId, RegId)>) -> (r: Vec<RegId>)
    ensures
        r@.no_duplicates(),
        forall|n: RegId| #[trigger] r@.contains(n) <==> graph_nodes(Seq::<RegId>::empty(), edges@).contains(n),
{
    let mut r: Vec<RegId> = Vec::new();
    let mut k: usize = 0;
    while k < edges.len()
        invariant
            k <= edges@.len(),
            r@.no_duplicates(),
            forall|n: RegId|
                #[trigger] r@.contains(n) <==> exists|kk: int| 0 <= kk < k && (edges@[kk].0 == n || edges@[kk].1 == n),
        decreases edges@.len() - k,
    {
        let (a, b) = edges[k];
        let ghost r0 = r@;
        if !contains_id(&r, a) {
            r.push(a);
        }
        let ghost r1 = r@;
        if !contains_id(&r, b) {
            r.push(b);
        }
        proof {
            assert(r1 == with_missing(r0, a));
            lemma_with_missing(r0, a);
            assert(r@ == with_missing(r1, b));
            lemma_with_missing(r1, b);
            assert forall|n: RegId| r0.contains(n) implies #[trigger] r1.contains(n) by {
                if r0.contains(n) {
                    let w = choose|w: int| 0 <= w < r0.len() && r0[w] == n;
                    assert(r1[w] == n);
                }
            }
            assert forall|n: RegId| r1.contains(n) implies #[trigger] r@.contains(n) by {
                if r1.contains(n) {
                    let w = choose|w: int| 0 <= w < r1.len() && r1[w] == n;
                    assert(r@[w] == n);
                }
            }
            if !r0.contains(a) {
                assert(r1[r1.len() - 1] == a);
            }
            assert(r1.contains(a));
            if !r1.contains(b) {
                assert(r@[r@.len() - 1] == b);
            }
            assert(r@.contains(b));
            assert forall|n: RegId| #[trigger] r@.contains(n) <==> exists|kk: int|
                0 <= kk < k + 1 && (edges@[kk].0 == n || edges@[kk].1 == n) by {
                if r@.contains(n) && n != a && n != b {
                    let w = choose|w: int| 0 <= w < r@.len() && r@[w] == n;
                    if w < r1.len() {
                        assert(r1[w] == n);
                        let w1 = choose|w1: int| 0 <= w1 < r1.len() && r1[w1] == n;
                        if w1 < r0.len() {
                            assert(r0[w1] == n);
                            assert(r0.contains(n));
                        }
                    }
                }
                if exists|kk: int| 0 <= kk < k + 1 && (edges@[kk].0 == n || edges@[kk].1 == n) {
                    let kk = choose|kk: int| 0 <= kk < k + 1 && (edges@[kk].0 == n || edges@[kk].1 == n);
                    if kk < k {
                        assert(r0.contains(n));
                    }
                }
            }
        }
        k = k + 1;
    }
    proof {
        assert forall|n: RegId| #[trigger] r@.contains(n) <==> graph_nodes(Seq::<RegId>::empty(), edges@).contains(n) by {
            assert(!Seq::<RegId>::empty().to_set().contains(n));
        }
    }
    r
}

/// A node lies above itself, so no node is unordered with itself.
proof fn lemma_reached_start(g: Seq<(RegId, RegId)>, a: RegId)
    ensures
        reached(g, true, Seq::<RegId>::empty(), a).contains(a),
{
    assert(reached_within(g, true, Seq::<RegId>::empty(), a, 0).contains(a));
}

/// The pairs of nodes of the graph of `sub` that the graph of `g` leaves
/// unordered (see `lists_unordered`).
pub fn unordered_pairs(sub: &Vec<(RegId, RegId)>, g: &Vec<(RegId, RegId)>) -> (r: Vec<(RegId, RegId)>)
    ensures
        lists_unordered(r@, sub@, g@),
{
    let nodes = node_list(sub);
    let empty: Vec<RegId> = Vec::new();
    let mut r: Vec<(RegId, RegId)> = Vec::new();
    let mut i: usize = 0;
    while i < nodes.len()
        invariant
            i <= nodes@.len(),
            empty@ == Seq::<RegId>::empty(),
            forall|n: RegId| #[trigger] nodes@.contains(n) <==> graph_nodes(Seq::<RegId>::empty(), sub@).contains(n),
            forall|k: int|
                0 <= k < r@.len() ==> nodes@.contains((#[trigger] r@[k]).0) && nodes@.contains(r@[k].1)
                    && is_unordered(g@, r@[k].0, r@[k].1),
            forall|ii: int, jj: int|
                0 <= ii < i && ii < jj < nodes@.len() && is_unordered(g@, #[trigger] nodes@[ii], #[trigger] nodes@[jj])
                    ==> r@.contains((nodes@[ii], nodes@[jj])),
        decreases nodes@.len() - i,
    {
        let a = nodes[i];
        let anc_a = breadth_first(g, true, &empty, a);
        let mut j: usize = i + 1;
        while j < nodes.len()
            invariant
                i < nodes@.len(),
                i + 1 <= j <= nodes@.len(),
                a == nodes@[i as int],
                    empty@ == Seq::<RegId>::empty(),
                forall|n: RegId| #[trigger] anc_a@.contains(n) <==> reached(g@, true, empty@, a).contains(n),
                forall|k: int|
                    0 <= k < r@.len() ==> nodes@.contains((#[trigger] r@[k]).0) && nodes@.contains(r@[k].1)
                        && is_unordered(g@, r@[k].0, r@[k].1),
                forall|ii: int, jj: int|
                    0 <= ii < i && ii < jj < nodes@.len() && is_unordered(g@, #[trigger] nodes@[ii], #[trigger] nodes@[jj])
                        ==> r@.contains((nodes@[ii], nodes@[jj])),
                forall|jj: int|
                    i < jj < j && is_unordered(g@, nodes@[i as int], #[trigger] nodes@[jj]) ==> r@.contains(
                        (nodes@[i as int], nodes@[jj]),
                    ),
            decreases nodes@.len() - j,
        {
            let b = nodes[j];
            let anc_b = breadth_first(g, true, &empty, b);
            let ghost before = r@;
            if !contains_id(&anc_b, a) && !contains_id(&anc_a, b) {
                r.push((a, b));
                proof {
                    assert(nodes@.contains(a) && nodes@.contains(b));
                }
            }
            proof {
                assert forall|x: (RegId, RegId)| before.contains(x) implies #[trigger] r@.contains(x) by {
                    let w = choose|w: int| 0 <= w < before.len() && before[w] == x;
                    assert(r@[w] == x);
                }
                if is_unordered(g@, a, b) {
                    assert(r@[r@.len() - 1] == (a, b));
                    assert(r@.contains((a, b)));
                }
            }
            j = j + 1;
        }
        i = i + 1;
    }
    proof {
        assert forall|x: RegId, y: RegId|
            graph_nodes(Seq::<RegId>::empty(), sub@).contains(x) && graph_nodes(Seq::<RegId>::empty(), sub@).contains(y)
                && #[trigger] is_unordered(g@, x, y) implies r@.contains((x, y)) || r@.contains((y, x)) by {
            assert(nodes@.contains(x) && nodes@.contains(y));
            let ix = choose|ix: int| 0 <= ix < nodes@.len() && nodes@[ix] == x;
            let iy = choose|iy: int| 0 <= iy < nodes@.len() && nodes@[iy] == y;
            lemma_reached_start(g@, x);
            assert(x != y);
            assert(ix != iy);
            if ix < iy {
                assert(is_unordered(g@, nodes@[ix], nodes@[iy]));
            } else {
                assert(is_unordered(g@, nodes@[iy], nodes@[ix]));
            }
        }
    }
    r
}

/// Whether two sets that share a member, as a sorted pair, are among the
/// pairs of sets that the graph leaves unordered.
pub open spec fn intersections_unordered(
    sub: Seq<(RegId, RegId)>,
    ambiguities: Seq<(RegId, RegId)>,
) -> bool {
    forall|t: ((RegId, RegId), RegId)|
        #[trigger] intersections(sub).contains(t) ==> unordered_set_pairs(ambiguities).contains(t.0)
}

/// The indices that the access listed for `x` reads or writes; none when no
/// access is listed.
pub open spec fn listed_rw(own: Seq<(RegId, Access<ComponentId>)>, x: RegId) -> Set<usize> {
    if has_access(own, x) {
        access_of(own, x).spec_reads_and_writes()
    } else {
        Set::empty()
    }
}

/// The indices that the access listed for `x` writes; none when no access is
/// listed.
pub open spec fn listed_w(own: Seq<(RegId, Access<ComponentId>)>, x: RegId) -> Set<usize> {
    if has_access(own, x) {
        access_of(own, x).spec_writes()
    } else {
        Set::empty()
    }
}

/// Whether the access listed for `x` reads everything.
pub open spec fn listed_reads_all(own: Seq<(RegId, Access<ComponentId>)>, x: RegId) -> bool {
    has_access(own, x) && access_of(own, x).spec_reads_all()
}

/// Whether the access listed for `x` writes everything.
pub open spec fn listed_writes_all(own: Seq<(RegId, Access<ComponentId>)>, x: RegId) -> bool {
    has_access(own, x) && access_of(own, x).spec_writes_all()
}

/// Whether `x` is a system of the part `sub` of the hierarchy that lies below
/// the set `s`.
pub open spec fn system_below(sub: Seq<(RegId, RegId)>, s: RegId, x: RegId) -> bool {
    graph_nodes(Seq::<RegId>::empty(), sub).contains(x) && x is System && reached(
        sub,
        true,
        Seq::<RegId>::empty(),
        x,
    ).contains(s)
}

/// The indices a node reads or writes, given what is listed for each node: a
/// system's own; a set's own (its conditions) with those of the systems below
/// it.
pub open spec fn node_rw(sub: Seq<(RegId, RegId)>, own: Seq<(RegId, Access<ComponentId>)>, n: RegId) -> Set<usize> {
    if n is System {
        listed_rw(own, n)
    } else {
        listed_rw(own, n).union(
            Set::new(|i: usize| exists|x: RegId| #[trigger] system_below(sub, n, x) && listed_rw(own, x).contains(i)),
        )
    }
}

/// The indices a node writes, in the same way.
pub open spec fn node_w(sub: Seq<(RegId, RegId)>, own: Seq<(RegId, Access<ComponentId>)>, n: RegId) -> Set<usize> {
    if n is System {
        listed_w(own, n)
    } else {
        listed_w(own, n).union(
            Set::new(|i: usize| exists|x: RegId| #[trigger] system_below(sub, n, x) && listed_w(own, x).contains(i)),
        )
    }
}

/// Whether a node reads everything, in the same way.
pub open spec fn node_reads_all(sub: Seq<(RegId, RegId)>, own: Seq<(RegId, Access<ComponentId>)>, n: RegId) -> bool {
    listed_reads_all(own, n) || (n is SystemSet && exists|x: RegId|
        #[trigger] system_below(sub, n, x) && listed_reads_all(own, x))
}

/// Whether a node writes everything, in the same way.
pub open spec fn node_writes_all(sub: Seq<(RegId, RegId)>, own: Seq<(RegId, Access<ComponentId>)>, n: RegId) -> bool {
    listed_writes_all(own, n) || (n is SystemSet && exists|x: RegId|
        #[trigger] system_below(sub, n, x) && listed_writes_all(own, x))
}

/// `acc` gives each node of the part `sub` one access, as `node_rw`,
/// `node_w`, `node_reads_all` and `node_writes_all` say.
pub open spec fn gives_node_accesses(
    acc: Seq<(RegId, Access<ComponentId>)>,
    sub: Seq<(RegId, RegId)>,
    own: Seq<(RegId, Access<ComponentId>)>,
) -> bool {
    &&& access_keys_unique(acc)
    &&& forall|k: int| 0 <= k < acc.len() ==> (#[trigger] acc[k]).1.wf()
    &&& forall|n: RegId|
        #[trigger] graph_nodes(Seq::<RegId>::empty(), sub).contains(n) ==> {
            &&& has_access(acc, n)
            &&& access_of(acc, n).spec_reads_and_writes() == node_rw(sub, own, n)
            &&& access_of(acc, n).spec_writes() == node_w(sub, own, n)
            &&& access_of(acc, n).spec_reads_all() == node_reads_all(sub, own, n)
            &&& access_of(acc, n).spec_writes_all() == node_writes_all(sub, own, n)
        }
}

/// The access listed for `x`, or an empty one.
fn listed_access(own: &Vec<(RegId, Access<ComponentId>)>, x: RegId) -> (r: Access<ComponentId>)
    requires
        access_keys_unique(own@),
        forall|k: int| 0 <= k < own@.len() ==> (#[trigger] own@[k]).1.wf(),
    ensures
        r.wf(),
        r.spec_reads_and_writes() == listed_rw(own@, x),
        r.spec_writes() == listed_w(own@, x),
        r.spec_reads_all() == listed_reads_all(own@, x),
        r.spec_writes_all() == listed_writes_all(own@, x),
{
    let mut j: usize = 0;
    while j < own.len()
        invariant
            j <= own@.len(),
            access_keys_unique(own@),
            forall|k: int| 0 <= k < own@.len() ==> (#[trigger] own@[k]).1.wf(),
            forall|k: int| 0 <= k < j ==> own@[k].0 != x,
        decreases own@.len() - j,
    {
        if own[j].0 == x {
            proof {
                assert(own@[j as int].0 == x);
                let w = choose|k: int| 0 <= k < own@.len() && #[trigger] own@[k].0 == x;
                assert(own@[w].0 == own@[j as int].0);
                assert(own@[j as int].1.wf());
            }
            return own[j].1.clone();
        }
        j = j + 1;
    }
    Access::default()
}

/// The access of each node of the part `sub` of the hierarchy (see
/// `gives_node_accesses`), from the accesses `own` listed for the nodes.
pub fn node_accesses(sub: &Vec<(RegId, RegId)>, own: &Vec<(RegId, Access<ComponentId>)>) -> (r: Vec<
    (RegId, Access<ComponentId>),
>)
    requires
        access_keys_unique(own@),
        forall|k: int| 0 <= k < own@.len() ==> (#[trigger] own@[k]).1.wf(),
    ensures
        gives_node_accesses(r@, sub@, own@),
{
    let nodes = node_list(sub);
    let empty: Vec<RegId> = Vec::new();
    let mut r: Vec<(RegId, Access<ComponentId>)> = Vec::new();
    let mut i: usize = 0;
    while i < nodes.len()
        invariant
            i <= nodes@.len(),
            nodes@.no_duplicates(),
            empty@ == Seq::<RegId>::empty(),
            access_keys_unique(own@),
            forall|k: int| 0 <= k < own@.len() ==> (#[trigger] own@[k]).1.wf(),
            forall|n: RegId| #[trigger] nodes@.contains(n) <==> graph_nodes(Seq::<RegId>::empty(), sub@).contains(n),
            r@.len() == i,
            forall|k: int|
                0 <= k < i ==> {
                    &&& (#[trigger] r@[k]).0 == nodes@[k]
                    &&& r@[k].1.wf()
                    &&& r@[k].1.spec_reads_and_writes() == node_rw(sub@, own@, nodes@[k])
                    &&& r@[k].1.spec_writes() == node_w(sub@, own@, nodes@[k])
                    &&& r@[k].1.spec_reads_all() == node_reads_all(sub@, own@, nodes@[k])
                    &&& r@[k].1.spec_writes_all() == node_writes_all(sub@, own@, nodes@[k])
                },
        decreases nodes@.len() - i,
    {
        let n = nodes[i];
        let mut a = listed_access(own, n);
        if n.is_set() {
            let mut j: usize = 0;
            while j < nodes.len()
                invariant
                    i < nodes@.len(),
                    n == nodes@[i as int],
                    n is SystemSet,
                    j <= nodes@.len(),
                    empty@ == Seq::<RegId>::empty(),
                    access_keys_unique(own@),
                    forall|k: int| 0 <= k < own@.len() ==> (#[trigger] own@[k]).1.wf(),
                    forall|m: RegId| #[trigger] nodes@.contains(m) <==> graph_nodes(Seq::<RegId>::empty(), sub@).contains(m),
                    a.wf(),
                    a.spec_reads_and_writes() == listed_rw(own@, n).union(
                        Set::new(|ix: usize| exists|jj: int|
                            0 <= jj < j && #[trigger] system_below(sub@, n, nodes@[jj]) && listed_rw(own@, nodes@[jj]).contains(ix)),
                    ),
                    a.spec_writes() == listed_w(own@, n).union(
                        Set::new(|ix: usize| exists|jj: int|
                            0 <= jj < j && #[trigger] system_below(sub@, n, nodes@[jj]) && listed_w(own@, nodes@[jj]).contains(ix)),
                    ),
                    a.spec_reads_all() == (listed_reads_all(own@, n) || exists|jj: int|
                        0 <= jj < j && #[trigger] system_below(sub@, n, nodes@[jj]) && listed_reads_all(own@, nodes@[jj])),
                    a.spec_writes_all() == (listed_writes_all(own@, n) || exists|jj: int|
                        0 <= jj < j && #[trigger] system_below(sub@, n, nodes@[jj]) && listed_writes_all(own@, nodes@[jj])),
                decreases nodes@.len() - j,
            {
                let x = nodes[j];
                let ghost rw0 = a.spec_reads_and_writes();
                let ghost w0 = a.spec_writes();
                let ghost ra0 = a.spec_reads_all();
                let ghost wa0 = a.spec_writes_all();
                let mut below = false;
                if !x.is_set() {
                    let anc = breadth_first(sub, true, &empty, x);
                    below = contains_id(&anc, n);
                }
                proof {
                    assert(nodes@.contains(x));
                    assert(below == system_below(sub@, n, x));
                }
                if below {
                    let ax = listed_access(own, x);
                    a.extend(&ax);
                }
                proof {
                    assert(a.spec_reads_and_writes() =~= listed_rw(own@, n).union(
                        Set::new(|ix: usize| exists|jj: int|
                            0 <= jj < j + 1 && #[trigger] system_below(sub@, n, nodes@[jj]) && listed_rw(own@, nodes@[jj]).contains(ix)),
                    ));
                    assert(a.spec_writes() =~= listed_w(own@, n).union(
                        Set::new(|ix: usize| exists|jj: int|
                            0 <= jj < j + 1 && #[trigger] system_below(sub@, n, nodes@[jj]) && listed_w(own@, nodes@[jj]).contains(ix)),
                    ));
                }
                j = j + 1;
            }
            proof {
                assert(a.spec_reads_and_writes() =~= node_rw(sub@, own@, n)) by {
                    assert forall|ix: usize| a.spec_reads_and_writes().contains(ix) <==> node_rw(sub@, own@, n).contains(ix) by {
                        if exists|x: RegId| #[trigger] system_below(sub@, n, x) && listed_rw(own@, x).contains(ix) {
                            let x = choose|x: RegId| #[trigger] system_below(sub@, n, x) && listed_rw(own@, x).contains(ix);
                            assert(nodes@.contains(x));
                            let jj = choose|jj: int| 0 <= jj < nodes@.len() && nodes@[jj] == x;
                            assert(system_below(sub@, n, nodes@[jj]));
                        }
                    }
                }
                assert(a.spec_writes() =~= node_w(sub@, own@, n)) by {
                    assert forall|ix: usize| a.spec_writes().contains(ix) <==> node_w(sub@, own@, n).contains(ix) by {
                        if exists|x: RegId| #[trigger] system_below(sub@, n, x) && listed_w(own@, x).contains(ix) {
                            let x = choose|x: RegId| #[trigger] system_below(sub@, n, x) && listed_w(own@, x).contains(ix);
                            assert(nodes@.contains(x));
                            let jj = choose|jj: int| 0 <= jj < nodes@.len() && nodes@[jj] == x;
                            assert(system_below(sub@, n, nodes@[jj]));
                        }
                    }
                }
                if exists|x: RegId| #[trigger] system_below(sub@, n, x) && listed_reads_all(own@, x) {
                    let x = choose|x: RegId| #[trigger] system_below(sub@, n, x) && listed_reads_all(own@, x);
                    assert(nodes@.contains(x));
                    let jj = choose|jj: int| 0 <= jj < nodes@.len() && nodes@[jj] == x;
                    assert(system_below(sub@, n, nodes@[jj]));
                }
                if exists|x: RegId| #[trigger] system_below(sub@, n, x) && listed_writes_all(own@, x) {
                    let x = choose|x: RegId| #[trigger] system_below(sub@, n, x) && listed_writes_all(own@, x);
                    assert(nodes@.contains(x));
                    let jj = choose|jj: int| 0 <= jj < nodes@.len() && nodes@[jj] == x;
                    assert(system_below(sub@, n, nodes@[jj]));
                }
                assert(a.spec_reads_all() == node_reads_all(sub@, own@, n));
                assert(a.spec_writes_all() == node_writes_all(sub@, own@, n));
            }
        }
        r.push((n, a));
        i = i + 1;
    }
    proof {
        assert forall|p: int, q: int|
            0 <= p < r@.len() && 0 <= q < r@.len() && #[trigger] r@[p].0 == #[trigger] r@[q].0 implies p == q by {
            assert(nodes@[p] == nodes@[q]);
        }
        assert forall|n: RegId| #[trigger] graph_nodes(Seq::<RegId>::empty(), sub@).contains(n) implies {
            &&& has_access(r@, n)
            &&& access_of(r@, n).spec_reads_and_writes() == node_rw(sub@, own@, n)
            &&& access_of(r@, n).spec_writes() == node_w(sub@, own@, n)
            &&& access_of(r@, n).spec_reads_all() == node_reads_all(sub@, own@, n)
            &&& access_of(r@, n).spec_writes_all() == node_writes_all(sub@, own@, n)
        } by {
            assert(nodes@.contains(n));
            let k = choose|k: int| 0 <= k < nodes@.len() && nodes@[k] == n;
            assert(r@[k].0 == n);
            let w = choose|j: int| 0 <= j < r@.len() && #[trigger] r@[j].0 == n;
            assert(r@[w].0 == r@[k].0);
        }
    }
    r
}

/// The first check that the part `sub` of the hierarchy below a set fails,
/// given `amb`, the pairs of its nodes that are left unordered: a cycle
/// (fewer strongly connected components than nodes), then a redundant edge,
/// then two sets sharing a member that are not left unordered.
pub open spec fn hierarchy_error(sub: Seq<(RegId, RegId)>, amb: Seq<(RegId, RegId)>) -> Option<ScheduleBuildError> {
    if tarjan_scc_of(Seq::<RegId>::empty(), sub).len() != graph_nodes(Seq::<RegId>::empty(), sub).len() {
        Some(ScheduleBuildError::HierarchyCycle)
    } else if has_redundant_edge(sub) {
        Some(ScheduleBuildError::InvalidHierarchy)
    } else if !intersections_unordered(sub, amb) {
        Some(ScheduleBuildError::MissingAmbiguity)
    } else {
        None
    }
}

/// Takes the part of the hierarchy below the set `id` (see `sub_hierarchy`),
/// lists the pairs of its nodes that neither it nor the `orderings` put one
/// before the other (see `unordered_pairs`), and checks it (see
/// `hierarchy_error`): for a cycle (by the strongly connected components of
/// the graph of its edges), then for redundant edges (see
/// `redundant_edges`), then that sets sharing a member are left unordered.
/// Returns the part, the unordered pairs, and the first check that failed.
pub fn walk_down(
    hier_edges: &Vec<(RegId, RegId)>,
    id: RegId,
    orderings: &Vec<(RegId, RegId)>,
) -> (r: (Vec<(RegId, RegId)>, Vec<(RegId, RegId)>, Result<(), ScheduleBuildError>))
    requires
        id is SystemSet,
        members_below_sets(hier_edges@),
    ensures
        forall|e: (RegId, RegId)|
            #[trigger] r.0@.contains(e) <==> (hier_edges@.contains(e) && reached(
                hier_edges@,
                false,
                Seq::<RegId>::empty(),
                id,
            ).contains(e.0)),
        r.0@.len() <= hier_edges@.len(),
        lists_unordered(r.1@, r.0@, r.0@ + orderings@),
        r.2 is Ok <==> hierarchy_error(r.0@, r.1@) is None,
        hierarchy_error(r.0@, r.1@) matches Some(e) ==> r.2 == Err::<(), ScheduleBuildError>(e),
{
    let sub = sub_hierarchy(hier_edges, id);
    proof {
        assert forall|k: int| 0 <= k < sub@.len() implies (#[trigger] sub@[k]).0 is SystemSet by {
            assert(sub@.contains(sub@[k]));
            let j = choose|j: int| 0 <= j < hier_edges@.len() && hier_edges@[j] == sub@[k];
        }
    }
    let mut g: Vec<(RegId, RegId)> = Vec::new();
    let mut i: usize = 0;
    while i < sub.len()
        invariant
            i <= sub@.len(),
            g@ == sub@.subrange(0, i as int),
        decreases sub@.len() - i,
    {
        g.push(sub[i]);
        i = i + 1;
    }
    let mut i: usize = 0;
    while i < orderings.len()
        invariant
            i <= orderings@.len(),
            g@ == sub@ + orderings@.subrange(0, i as int),
        decreases orderings@.len() - i,
    {
        g.push(orderings[i]);
        i = i + 1;
    }
    proof {
        assert(orderings@.subrange(0, orderings@.len() as int) =~= orderings@);
    }
    let ambiguities = unordered_pairs(&sub, &g);
    let inter = intersecting_sets(&sub);
    let pairs = intersection_pairs(&inter);
    let no_nodes: Vec<RegId> = Vec::new();
    proof {
        assert(no_nodes@ =~= Seq::<RegId>::empty());
    }
    let cycles = find_cycles(&no_nodes, &sub, Cycle::Hierarchy);
    let ghost ok_pairs = forall|k: int|
        0 <= k < pairs@.len() ==> #[trigger] unordered_set_pairs(ambiguities@).contains(pairs@[k]);
    proof {
        assert(ok_pairs <==> intersections_unordered(sub@, ambiguities@)) by {
            if ok_pairs {
                assert forall|t: ((RegId, RegId), RegId)| #[trigger] intersections(sub@).contains(t) implies unordered_set_pairs(
                    ambiguities@,
                ).contains(t.0) by {
                    assert(inter@.contains(t));
                    let k = choose|k: int| 0 <= k < inter@.len() && inter@[k] == t;
                    assert(pairs@[k] == t.0);
                }
            }
            if intersections_unordered(sub@, ambiguities@) {
                assert forall|k: int| 0 <= k < pairs@.len() implies #[trigger] unordered_set_pairs(
                    ambiguities@,
                ).contains(pairs@[k]) by {
                    assert(inter@.contains(inter@[k]));
                    assert(intersections(sub@).contains(inter@[k]));
                }
            }
        }
    }
    match cycles {
        Err(e) => {
            return (sub, ambiguities, Err(e));
        },
        Ok(()) => {},
    }
    let transitive = redundant_edges(&sub);
    proof {
        if transitive@.len() > 0 {
            assert(transitive@.contains(transitive@[0]));
            let k = choose|k: int| 0 <= k < sub@.len() && sub@[k] == transitive@[0];
            assert(is_redundant(sub@, sub@[k]));
        }
        if has_redundant_edge(sub@) {
            let k = choose|k: int| 0 <= k < sub@.len() && is_redundant(sub@, #[trigger] sub@[k]);
            assert(sub@.contains(sub@[k]));
            assert(transitive@.contains(sub@[k]));
        }
    }
    match check_hierarchy(&transitive) {
        Err(e) => {
            return (sub, ambiguities, Err(e));
        },
        Ok(()) => {},
    }
    let result = check_ambiguous(&pairs, &ambiguities);
    (sub, ambiguities, result)
}

} // verus!
