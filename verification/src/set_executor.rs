//! How the members of a system set are laid out for a runner: the systems in
//! dependency order with their dependencies, the sets below the set in
//! hierarchy order, and bit sets that say which systems lie below which sets.

use fixedbitset::FixedBitSet;
use vstd::prelude::*;

use crate::bitset::{
    bitset_contains, bitset_len, bitset_ones, bitset_set, bitset_union_with, bitset_wf,
    bitset_with_capacity,
};
use crate::descriptor::RegId;

verus! {

/// Each id occurs once.
pub open spec fn distinct_ids(s: Seq<RegId>) -> bool {
    forall|i: int, j: int|
        0 <= i < s.len() && 0 <= j < s.len() && #[trigger] s[i] == #[trigger] s[j] ==> i == j
}

/// The position of an id in a sequence that holds it once.
pub open spec fn index_in(s: Seq<RegId>, id: RegId) -> int {
    choose|j: int| 0 <= j < s.len() && #[trigger] s[j] == id
}

/// The positions of the sets in a topological order of a hierarchy.
pub open spec fn set_positions(s: Seq<RegId>) -> Seq<usize>
    decreases s.len(),
{
    if s.len() == 0 {
        Seq::empty()
    } else if s.last() is SystemSet {
        set_positions(s.drop_last()).push((s.len() - 1) as usize)
    } else {
        set_positions(s.drop_last())
    }
}

/// The sets of a topological order of a hierarchy, in that order.
pub open spec fn sets_in_order(s: Seq<RegId>) -> Seq<RegId> {
    set_positions(s).map_values(|p: usize| s[p as int])
}

/// The position of entry `(row, col)` of a matrix with `cols` columns that is
/// stored row by row.
pub open spec fn matrix_index(row: int, col: int, cols: int) -> int {
    row * cols + col
}

/// The edges that end at a node.
pub open spec fn incoming(edges: Seq<(RegId, RegId)>, id: RegId) -> Seq<(RegId, RegId)> {
    edges.filter(|e: (RegId, RegId)| e.1 == id)
}

/// The edges that start at a node.
pub open spec fn outgoing(edges: Seq<(RegId, RegId)>, id: RegId) -> Seq<(RegId, RegId)> {
    edges.filter(|e: (RegId, RegId)| e.0 == id)
}

/// The dependents of a system, each by its position in the dependency order.
pub open spec fn dependents_of(edges: Seq<(RegId, RegId)>, topsort: Seq<RegId>, id: RegId) -> Seq<
    usize,
> {
    outgoing(edges, id).map_values(|e: (RegId, RegId)| index_in(topsort, e.1) as usize)
}

/// The listed systems of a set.
pub open spec fn members_of(set_members: Seq<(RegId, Vec<RegId>)>, set: RegId) -> Seq<RegId> {
    set_members[choose|j: int| 0 <= j < set_members.len() && #[trigger] set_members[j].0 == set].1@
}

/// The positions, in the dependency order, of the listed systems.
pub open spec fn member_ones(topsort: Seq<RegId>, members: Seq<RegId>) -> Set<usize> {
    Set::new(
        |b: usize| exists|j: int| 0 <= j < members.len() && index_in(topsort, #[trigger] members[j]) == b,
    )
}

/// The sets above the set at position `col` among the sets: those before it
/// from which the hierarchy reaches it.
pub open spec fn above_set_ones(
    reachable: Set<usize>,
    positions: Seq<usize>,
    col: int,
    cols: int,
) -> Set<usize> {
    Set::new(
        |row: usize|
            row < col && reachable.contains(
                matrix_index(positions[row as int] as int, positions[col] as int, cols) as usize,
            ),
    )
}

/// The sets above a system: those above each set that holds it directly.
pub open spec fn system_set_ones(
    reachable: Set<usize>,
    hier_topsort: Seq<RegId>,
    hier_edges: Seq<(RegId, RegId)>,
    sys: RegId,
    cols: int,
) -> Set<usize> {
    Set::new(
        |b: usize|
            exists|k: int|
                0 <= k < hier_edges.len() && (#[trigger] hier_edges[k]).1 == sys && above_set_ones(
                    reachable,
                    set_positions(hier_topsort),
                    index_in(sets_in_order(hier_topsort), hier_edges[k].0),
                    cols,
                ).contains(b),
    )
}

/// The positions of the sets are increasing, lie within the order, hold
/// sets, and every set of the order has one.
pub proof fn lemma_set_positions(s: Seq<RegId>)
    requires
        s.len() <= usize::MAX,
    ensures
        set_positions(s).len() <= s.len(),
        forall|k: int|
            0 <= k < set_positions(s).len() ==> (#[trigger] set_positions(s)[k]) < s.len() && s[set_positions(s)[k] as int] is SystemSet,
        forall|k: int, l: int|
            0 <= k < l < set_positions(s).len() ==> #[trigger] set_positions(s)[k]
                < #[trigger] set_positions(s)[l],
        forall|j: int|
            0 <= j < s.len() && (#[trigger] s[j]) is SystemSet ==> exists|k: int|
                0 <= k < set_positions(s).len() && set_positions(s)[k] == j,
    decreases s.len(),
{
    if s.len() > 0 {
        let t = s.drop_last();
        lemma_set_positions(t);
        assert forall|j: int| 0 <= j < s.len() && (#[trigger] s[j]) is SystemSet implies exists|k: int|
            0 <= k < set_positions(s).len() && set_positions(s)[k] == j by {
            if j < s.len() - 1 {
                assert(t[j] == s[j]);
                let k = choose|k: int| 0 <= k < set_positions(t).len() && set_positions(t)[k] == j;
                assert(set_positions(s)[k] == j);
            } else {
                assert(s.last() == s[j]);
                assert(set_positions(s)[set_positions(s).len() - 1] == j);
            }
        }
    }
}

/// The sets of an order that holds each id once also occur once each, and
/// they are the sets of the order.
pub proof fn lemma_sets_in_order(s: Seq<RegId>)
    requires
        distinct_ids(s),
        s.len() <= usize::MAX,
    ensures
        distinct_ids(sets_in_order(s)),
        sets_in_order(s).len() == set_positions(s).len(),
        forall|k: int|
            0 <= k < sets_in_order(s).len() ==> #[trigger] sets_in_order(s)[k] == s[set_positions(
                s,
            )[k] as int],
        forall|j: int|
            0 <= j < s.len() && (#[trigger] s[j]) is SystemSet ==> sets_in_order(s).contains(s[j]),
{
    lemma_set_positions(s);
    let p = set_positions(s);
    let o = sets_in_order(s);
    assert forall|i: int, j: int|
        0 <= i < o.len() && 0 <= j < o.len() && #[trigger] o[i] == #[trigger] o[j] implies i == j by {
        assert(s[p[i] as int] == s[p[j] as int]);
        if i < j {
            assert(p[i] < p[j]);
        } else if j < i {
            assert(p[j] < p[i]);
        }
    }
    assert forall|j: int| 0 <= j < s.len() && (#[trigger] s[j]) is SystemSet implies o.contains(
        s[j],
    ) by {
        let k = choose|k: int| 0 <= k < p.len() && p[k] == j;
        assert(o[k] == s[j]);
    }
}

/// Where an id lies in a sequence that holds it once.
fn position_in(s: &Vec<RegId>, id: RegId) -> (r: usize)
    requires
        distinct_ids(s@),
        s@.contains(id),
    ensures
        r < s@.len(),
        s@[r as int] == id,
        r == index_in(s@, id),
{
    let mut j: usize = 0;
    while j < s.len()
        invariant
            j <= s@.len(),
            forall|k: int| 0 <= k < j ==> s@[k] != id,
            s@.contains(id),
            distinct_ids(s@),
        decreases s@.len() - j,
    {
        if s[j] == id {
            proof {
                let w = choose|k: int| 0 <= k < s@.len() && #[trigger] s@[k] == id;
                assert(s@[w] == s@[j as int]);
            }
            return j;
        }
        j = j + 1;
    }
    proof {
        let w = choose|k: int| 0 <= k < s@.len() && s@[k] == id;
        assert(s@[w] == id);
    }
    0
}

/// The positions of the sets in a topological order, and the sets.
fn sets_of_order(s: &Vec<RegId>) -> (r: (Vec<usize>, Vec<RegId>))
    ensures
        r.0@ == set_positions(s@),
        r.1@ == sets_in_order(s@),
{
    let mut positions: Vec<usize> = Vec::new();
    let mut sets: Vec<RegId> = Vec::new();
    let mut i: usize = 0;
    while i < s.len()
        invariant
            i <= s@.len(),
            positions@ == set_positions(s@.subrange(0, i as int)),
            sets@ == positions@.map_values(|p: usize| s@[p as int]),
        decreases s@.len() - i,
    {
        proof {
            assert(s@.subrange(0, i + 1).drop_last() =~= s@.subrange(0, i as int));
            assert(s@.subrange(0, i + 1).last() == s@[i as int]);
        }
        if s[i].is_set() {
            positions.push(i);
            sets.push(s[i]);
            proof {
                assert(sets@ =~= positions@.map_values(|p: usize| s@[p as int]));
            }
        }
        i = i + 1;
    }
    proof {
        assert(s@.subrange(0, s@.len() as int) =~= s@);
    }
    (positions, sets)
}

/// The number of edges that end at `id`.
fn count_incoming(edges: &Vec<(RegId, RegId)>, id: RegId) -> (r: usize)
    ensures
        r == incoming(edges@, id).len(),
{
    let mut n: usize = 0;
    let mut i: usize = 0;
    while i < edges.len()
        invariant
            i <= edges@.len(),
            n == incoming(edges@.subrange(0, i as int), id).len(),
            n <= i,
        decreases edges@.len() - i,
    {
        proof {
            assert(edges@.subrange(0, i + 1).drop_last() =~= edges@.subrange(0, i as int));
            assert(edges@.subrange(0, i + 1).last() == edges@[i as int]);
            reveal(Seq::filter);
        }
        if edges[i].1 == id {
            n = n + 1;
        }
        i = i + 1;
    }
    proof {
        assert(edges@.subrange(0, edges@.len() as int) =~= edges@);
    }
    n
}

/// The positions, in the dependency order, of the ends of the edges that
/// start at `id`, in the order of the edges.
fn dependents(edges: &Vec<(RegId, RegId)>, topsort: &Vec<RegId>, id: RegId) -> (r: Vec<usize>)
    requires
        distinct_ids(topsort@),
        forall|k: int| 0 <= k < edges@.len() ==> topsort@.contains((#[trigger] edges@[k]).1),
    ensures
        r@ == dependents_of(edges@, topsort@, id),
{
    let mut r: Vec<usize> = Vec::new();
    let mut i: usize = 0;
    while i < edges.len()
        invariant
            i <= edges@.len(),
            distinct_ids(topsort@),
            forall|k: int| 0 <= k < edges@.len() ==> topsort@.contains((#[trigger] edges@[k]).1),
            r@ == dependents_of(edges@.subrange(0, i as int), topsort@, id),
        decreases edges@.len() - i,
    {
        proof {
            assert(edges@.subrange(0, i + 1).drop_last() =~= edges@.subrange(0, i as int));
            assert(edges@.subrange(0, i + 1).last() == edges@[i as int]);
            reveal(Seq::filter);
        }
        let (a, b) = edges[i];
        if a == id {
            let p = position_in(topsort, b);
            r.push(p);
            proof {
                assert(r@ =~= dependents_of(edges@.subrange(0, i + 1), topsort@, id));
            }
        }
        i = i + 1;
    }
    proof {
        assert(edges@.subrange(0, edges@.len() as int) =~= edges@);
    }
    r
}

/// Each set has at most one listing of its systems.
pub open spec fn member_keys_unique(set_members: Seq<(RegId, Vec<RegId>)>) -> bool {
    forall|i: int, j: int|
        0 <= i < set_members.len() && 0 <= j < set_members.len() && #[trigger] set_members[i].0
            == #[trigger] set_members[j].0 ==> i == j
}

/// Whether the set has a listing of its systems.
pub open spec fn has_members(set_members: Seq<(RegId, Vec<RegId>)>, set: RegId) -> bool {
    exists|j: int| 0 <= j < set_members.len() && #[trigger] set_members[j].0 == set
}

/// Where the systems of a set are listed.
fn find_members(set_members: &Vec<(RegId, Vec<RegId>)>, set: RegId) -> (j: usize)
    requires
        member_keys_unique(set_members@),
        has_members(set_members@, set),
    ensures
        j < set_members@.len(),
        set_members@[j as int].1@ == members_of(set_members@, set),
{
    let mut j: usize = 0;
    while j < set_members.len()
        invariant
            j <= set_members@.len(),
            forall|k: int| 0 <= k < j ==> set_members@[k].0 != set,
            has_members(set_members@, set),
            member_keys_unique(set_members@),
        decreases set_members@.len() - j,
    {
        if set_members[j].0 == set {
            proof {
                let w = choose|k: int| 0 <= k < set_members@.len() && #[trigger] set_members@[k].0 == set;
                assert(set_members@[w].0 == set_members@[j as int].0);
            }
            return j;
        }
        j = j + 1;
    }
    proof {
        let w = choose|k: int| 0 <= k < set_members@.len() && #[trigger] set_members@[k].0 == set;
        assert(set_members@[w].0 == set);
    }
    0
}

/// A bit set as long as the dependency order, with the positions of the
/// listed systems enabled.
fn members_bitset(topsort: &Vec<RegId>, members: &Vec<RegId>) -> (r: FixedBitSet)
    requires
        distinct_ids(topsort@),
        forall|k: int| 0 <= k < members@.len() ==> topsort@.contains(#[trigger] members@[k]),
    ensures
        bitset_wf(r),
        bitset_len(r) == topsort@.len(),
        bitset_ones(r) == member_ones(topsort@, members@),
{
    let mut bits = bitset_with_capacity(topsort.len());
    let mut j: usize = 0;
    while j < members.len()
        invariant
            j <= members@.len(),
            distinct_ids(topsort@),
            forall|k: int| 0 <= k < members@.len() ==> topsort@.contains(#[trigger] members@[k]),
            bitset_wf(bits),
            bitset_len(bits) == topsort@.len(),
            bitset_ones(bits) == member_ones(topsort@, members@.subrange(0, j as int)),
        decreases members@.len() - j,
    {
        let p = position_in(topsort, members[j]);
        let ghost before = bitset_ones(bits);
        bitset_set(&mut bits, p, true);
        proof {
            let sub = members@.subrange(0, j + 1);
            assert forall|b: usize| #[trigger] member_ones(topsort@, sub).contains(b) <==> before.insert(
                p,
            ).contains(b) by {
                if member_ones(topsort@, sub).contains(b) {
                    let w = choose|w: int| 0 <= w < sub.len() && index_in(topsort@, #[trigger] sub[w]) == b;
                    if w < j {
                        assert(members@.subrange(0, j as int)[w] == sub[w]);
                    }
                }
                if before.contains(b) {
                    let w = choose|w: int|
                        0 <= w < j && index_in(topsort@, #[trigger] members@.subrange(0, j as int)[w]) == b;
                    assert(sub[w] == members@.subrange(0, j as int)[w]);
                }
                if b == p {
                    assert(sub[j as int] == members@[j as int]);
                }
            }
            assert(member_ones(topsort@, sub) =~= bitset_ones(bits));
        }
        j = j + 1;
    }
    proof {
        assert(members@.subrange(0, members@.len() as int) =~= members@);
    }
    bits
}

/// The sets above the set at position `col` among the sets, as a bit set as
/// long as the hierarchy order.
fn above_bitset(
    reachable: &FixedBitSet,
    positions: &Vec<usize>,
    col: usize,
    set_count: usize,
    cols: usize,
) -> (r: FixedBitSet)
    requires
        col < positions@.len(),
        positions@.len() <= set_count,
        forall|k: int| 0 <= k < positions@.len() ==> (#[trigger] positions@[k]) < set_count,
        set_count <= cols,
        set_count * cols <= usize::MAX,
    ensures
        bitset_wf(r),
        bitset_len(r) == set_count,
        bitset_ones(r) == above_set_ones(bitset_ones(*reachable), positions@, col as int, cols as int),
{
    let mut bits = bitset_with_capacity(set_count);
    let mut row: usize = 0;
    while row < col
        invariant
            row <= col,
            col < positions@.len(),
            positions@.len() <= set_count,
            forall|k: int| 0 <= k < positions@.len() ==> (#[trigger] positions@[k]) < set_count,
            set_count <= cols,
            set_count * cols <= usize::MAX,
            bitset_wf(bits),
            bitset_len(bits) == set_count,
            bitset_ones(bits) == Set::new(
                |b: usize|
                    b < row && bitset_ones(*reachable).contains(
                        matrix_index(positions@[b as int] as int, positions@[col as int] as int, cols as int) as usize,
                    ),
            ),
        decreases col - row,
    {
        let old_row = positions[row];
        let old_col = positions[col];
        proof {
            assert(old_row * cols + old_col < set_count * cols) by (nonlinear_arith)
                requires
                    old_row < set_count,
                    old_col < set_count,
                    set_count <= cols,
            {
                assert(old_row * cols <= (set_count - 1) * cols);
                assert((set_count - 1) * cols + cols == set_count * cols);
            }
        }
        let bit = bitset_contains(reachable, old_row * cols + old_col);
        let ghost before = bitset_ones(bits);
        bitset_set(&mut bits, row, bit);
        proof {
            assert(bitset_ones(bits) =~= Set::new(
                |b: usize|
                    b < row + 1 && bitset_ones(*reachable).contains(
                        matrix_index(positions@[b as int] as int, positions@[col as int] as int, cols as int) as usize,
                    ),
            ));
        }
        row = row + 1;
    }
    proof {
        assert(bitset_ones(bits) =~= above_set_ones(
            bitset_ones(*reachable),
            positions@,
            col as int,
            cols as int,
        ));
    }
    bits
}

/// The sets above a system, as a bit set as long as the hierarchy order: the
/// union of the sets above each set that holds it directly.
fn system_bitset(
    reachable: &FixedBitSet,
    hier_topsort: Ghost<Seq<RegId>>,
    sets: &Vec<RegId>,
    above: &Vec<FixedBitSet>,
    hier_edges: &Vec<(RegId, RegId)>,
    sys: RegId,
    set_count: usize,
    cols: Ghost<int>,
) -> (r: FixedBitSet)
    requires
        sets@ == sets_in_order(hier_topsort@),
        distinct_ids(sets@),
        above@.len() == sets@.len(),
        forall|k: int|
            0 <= k < above@.len() ==> bitset_wf(#[trigger] above@[k]) && bitset_len(above@[k])
                == set_count && bitset_ones(above@[k]) == above_set_ones(
                bitset_ones(*reachable),
                set_positions(hier_topsort@),
                k,
                cols@,
            ),
        forall|k: int|
            0 <= k < hier_edges@.len() && (#[trigger] hier_edges@[k]).1 == sys ==> sets@.contains(
                hier_edges@[k].0,
            ),
    ensures
        bitset_wf(r),
        bitset_len(r) == set_count,
        bitset_ones(r) == system_set_ones(
            bitset_ones(*reachable),
            hier_topsort@,
            hier_edges@,
            sys,
            cols@,
        ),
{
    let mut bits = bitset_with_capacity(set_count);
    let mut i: usize = 0;
    while i < hier_edges.len()
        invariant
            i <= hier_edges@.len(),
            sets@ == sets_in_order(hier_topsort@),
            distinct_ids(sets@),
            above@.len() == sets@.len(),
            forall|k: int|
                0 <= k < above@.len() ==> bitset_wf(#[trigger] above@[k]) && bitset_len(above@[k])
                    == set_count && bitset_ones(above@[k]) == above_set_ones(
                    bitset_ones(*reachable),
                    set_positions(hier_topsort@),
                    k,
                    cols@,
                ),
            forall|k: int|
                0 <= k < hier_edges@.len() && (#[trigger] hier_edges@[k]).1 == sys ==> sets@.contains(
                    hier_edges@[k].0,
                ),
            bitset_wf(bits),
            bitset_len(bits) == set_count,
            bitset_ones(bits) == Set::new(
                |b: usize|
                    exists|k: int|
                        0 <= k < i && (#[trigger] hier_edges@[k]).1 == sys && above_set_ones(
                            bitset_ones(*reachable),
                            set_positions(hier_topsort@),
                            index_in(sets_in_order(hier_topsort@), hier_edges@[k].0),
                            cols@,
                        ).contains(b),
            ),
        decreases hier_edges@.len() - i,
    {
        let ghost before = bitset_ones(bits);
        let ghost step = |n: int|
            Set::new(
                |b: usize|
                    exists|k: int|
                        0 <= k < n && (#[trigger] hier_edges@[k]).1 == sys && above_set_ones(
                            bitset_ones(*reachable),
                            set_positions(hier_topsort@),
                            index_in(sets_in_order(hier_topsort@), hier_edges@[k].0),
                            cols@,
                        ).contains(b),
            );
        if hier_edges[i].1 == sys {
            let p = position_in(sets, hier_edges[i].0);
            bitset_union_with(&mut bits, &above[p]);
            proof {
                assert forall|b: usize| #[trigger] step(i + 1).contains(b) <==> bitset_ones(bits).contains(
                    b,
                ) by {
                    if step(i + 1).contains(b) {
                        let k = choose|k: int|
                            0 <= k < i + 1 && (#[trigger] hier_edges@[k]).1 == sys && above_set_ones(
                                bitset_ones(*reachable),
                                set_positions(hier_topsort@),
                                index_in(sets_in_order(hier_topsort@), hier_edges@[k].0),
                                cols@,
                            ).contains(b);
                        if k < i {
                            assert(step(i as int).contains(b));
                        }
                    }
                    if before.contains(b) {
                        assert(step(i as int).contains(b));
                        let k = choose|k: int|
                            0 <= k < i && (#[trigger] hier_edges@[k]).1 == sys && above_set_ones(
                                bitset_ones(*reachable),
                                set_positions(hier_topsort@),
                                index_in(sets_in_order(hier_topsort@), hier_edges@[k].0),
                                cols@,
                            ).contains(b);
                        assert(step(i + 1).contains(b));
                    }
                    if bitset_ones(above@[p as int]).contains(b) {
                        assert(hier_edges@[i as int].1 == sys);
                        assert(step(i + 1).contains(b));
                    }
                }
                assert(bitset_ones(bits) =~= step(i + 1));
            }
        } else {
            proof {
                assert forall|b: usize| #[trigger] step(i + 1).contains(b) <==> before.contains(b) by {
                    if step(i + 1).contains(b) {
                        let k = choose|k: int|
                            0 <= k < i + 1 && (#[trigger] hier_edges@[k]).1 == sys && above_set_ones(
                                bitset_ones(*reachable),
                                set_positions(hier_topsort@),
                                index_in(sets_in_order(hier_topsort@), hier_edges@[k].0),
                                cols@,
                            ).contains(b);
                        assert(k != i);
                        assert(step(i as int).contains(b));
                    }
                    if before.contains(b) {
                        assert(step(i as int).contains(b));
                        let k = choose|k: int|
                            0 <= k < i && (#[trigger] hier_edges@[k]).1 == sys && above_set_ones(
                                bitset_ones(*reachable),
                                set_positions(hier_topsort@),
                                index_in(sets_in_order(hier_topsort@), hier_edges@[k].0),
                                cols@,
                            ).contains(b);
                        assert(step(i + 1).contains(b));
                    }
                }
                assert(bitset_ones(bits) =~= step(i + 1));
            }
        }
        i = i + 1;
    }
    proof {
        assert(bitset_ones(bits) =~= system_set_ones(
            bitset_ones(*reachable),
            hier_topsort@,
            hier_edges@,
            sys,
            cols@,
        ));
    }
    bits
}

/// How the members of a system set are laid out for a runner.
pub struct Schedule {
    /// The systems below the set, in dependency order.
    pub systems_topsort: Vec<RegId>,
    /// The sets of the hierarchy below the set, in hierarchy order.
    pub sets_topsort: Vec<RegId>,
    /// For each system: the number of its dependencies, and the positions of
    /// its dependents in the dependency order.
    pub system_deps: Vec<(usize, Vec<usize>)>,
    /// For each system: the sets above it, by position in `sets_topsort`.
    pub system_sets: Vec<FixedBitSet>,
    /// For each set: the systems below it, by position in `systems_topsort`.
    pub set_systems: Vec<FixedBitSet>,
}

/// What laying out a set needs of its graphs: each node is listed once,
/// every dependency ends at a listed system, every set of the hierarchy has
/// one listing of its systems, each of them listed in the dependency order,
/// every system is held directly only by listed sets, and the reachability
/// matrix can be indexed.
pub open spec fn executor_inputs_ok(
    flat_topsort: Seq<RegId>,
    flat_edges: Seq<(RegId, RegId)>,
    hier_topsort: Seq<RegId>,
    hier_edges: Seq<(RegId, RegId)>,
    set_members: Seq<(RegId, Vec<RegId>)>,
) -> bool {
    &&& distinct_ids(flat_topsort)
    &&& distinct_ids(hier_topsort)
    &&& forall|k: int| 0 <= k < flat_edges.len() ==> flat_topsort.contains((#[trigger] flat_edges[k]).1)
    &&& member_keys_unique(set_members)
    &&& forall|j: int|
        0 <= j < hier_topsort.len() && (#[trigger] hier_topsort[j]) is SystemSet ==> has_members(
            set_members,
            hier_topsort[j],
        )
    &&& forall|k: int, m: int|
        0 <= k < set_members.len() && 0 <= m < set_members[k].1@.len() ==> flat_topsort.contains(
            #[trigger] set_members[k].1@[m],
        )
    &&& forall|k: int|
        0 <= k < hier_edges.len() && flat_topsort.contains((#[trigger] hier_edges[k]).1) ==> hier_edges[k].0 is SystemSet
            && hier_topsort.contains(hier_edges[k].0)
    &&& flat_topsort.len() + hier_topsort.len() <= usize::MAX
    &&& hier_topsort.len() * (flat_topsort.len() + hier_topsort.len()) <= usize::MAX
}

/// Lays out a system set for a runner, from its systems in dependency order
/// and the dependencies between them, the nodes of the hierarchy below it in
/// hierarchy order and the edges of that hierarchy, the systems listed below
/// each set, and the reachability matrix of the hierarchy (entry `(i, j)` at
/// `i * (systems + nodes) + j`, for positions in the hierarchy order).
///
/// Each system gets the number of its dependencies and its dependents; each
/// set the systems listed below it; each system the sets that lie above the
/// sets holding it directly, counting only sets earlier in the order.
pub fn rebuild_set_executor(
    flat_topsort: &Vec<RegId>,
    flat_edges: &Vec<(RegId, RegId)>,
    hier_topsort: &Vec<RegId>,
    hier_edges: &Vec<(RegId, RegId)>,
    set_members: &Vec<(RegId, Vec<RegId>)>,
    reachable: &FixedBitSet,
) -> (r: Schedule)
    requires
        executor_inputs_ok(flat_topsort@, flat_edges@, hier_topsort@, hier_edges@, set_members@),
    ensures
        r.systems_topsort@ == flat_topsort@,
        r.sets_topsort@ == sets_in_order(hier_topsort@),
        r.system_deps@.len() == flat_topsort@.len(),
        forall|i: int|
            0 <= i < flat_topsort@.len() ==> (#[trigger] r.system_deps@[i]).0 == incoming(
                flat_edges@,
                flat_topsort@[i],
            ).len() && r.system_deps@[i].1@ == dependents_of(flat_edges@, flat_topsort@, flat_topsort@[i]),
        r.set_systems@.len() == r.sets_topsort@.len(),
        forall|k: int|
            0 <= k < r.set_systems@.len() ==> bitset_wf(#[trigger] r.set_systems@[k]) && bitset_len(
                r.set_systems@[k],
            ) == flat_topsort@.len() && bitset_ones(r.set_systems@[k]) == member_ones(
                flat_topsort@,
                members_of(set_members@, r.sets_topsort@[k]),
            ),
        r.system_sets@.len() == flat_topsort@.len(),
        forall|i: int|
            0 <= i < r.system_sets@.len() ==> bitset_wf(#[trigger] r.system_sets@[i]) && bitset_len(
                r.system_sets@[i],
            ) == hier_topsort@.len() && bitset_ones(r.system_sets@[i]) == system_set_ones(
                bitset_ones(*reachable),
                hier_topsort@,
                hier_edges@,
                flat_topsort@[i],
                (flat_topsort@.len() + hier_topsort@.len()) as int,
            ),
        forall|i: int, k: int|
            0 <= i < r.system_sets@.len() && 0 <= k < hier_edges@.len() && (#[trigger] hier_edges@[k]).1
                == flat_topsort@[i] ==> above_set_ones(
                bitset_ones(*reachable),
                set_positions(hier_topsort@),
                index_in(sets_in_order(hier_topsort@), hier_edges@[k].0),
                (flat_topsort@.len() + hier_topsort@.len()) as int,
            ).subset_of(bitset_ones(#[trigger] r.system_sets@[i])),
{
    let sys_count = flat_topsort.len();
    let set_count = hier_topsort.len();
    let cols = sys_count + set_count;
    let (positions, sets) = sets_of_order(hier_topsort);
    proof {
        lemma_set_positions(hier_topsort@);
        lemma_sets_in_order(hier_topsort@);
    }

    let mut system_deps: Vec<(usize, Vec<usize>)> = Vec::new();
    let mut i: usize = 0;
    while i < sys_count
        invariant
            i <= sys_count,
            sys_count == flat_topsort@.len(),
            executor_inputs_ok(flat_topsort@, flat_edges@, hier_topsort@, hier_edges@, set_members@),
            system_deps@.len() == i,
            forall|j: int|
                0 <= j < i ==> (#[trigger] system_deps@[j]).0 == incoming(
                    flat_edges@,
                    flat_topsort@[j],
                ).len() && system_deps@[j].1@ == dependents_of(flat_edges@, flat_topsort@, flat_topsort@[j]),
        decreases sys_count - i,
    {
        let sys = flat_topsort[i];
        let n = count_incoming(flat_edges, sys);
        let deps = dependents(flat_edges, flat_topsort, sys);
        system_deps.push((n, deps));
        i = i + 1;
    }

    let mut set_systems: Vec<FixedBitSet> = Vec::new();
    let mut k: usize = 0;
    while k < sets.len()
        invariant
            k <= sets@.len(),
            sets@ == sets_in_order(hier_topsort@),
            sets@.len() == set_positions(hier_topsort@).len(),
            forall|q: int| 0 <= q < sets@.len() ==> #[trigger] sets@[q] == hier_topsort@[set_positions(
                hier_topsort@,
            )[q] as int],
            forall|q: int|
                0 <= q < set_positions(hier_topsort@).len() ==> (#[trigger] set_positions(
                    hier_topsort@,
                )[q]) < hier_topsort@.len() && hier_topsort@[set_positions(hier_topsort@)[q] as int] is SystemSet,
            executor_inputs_ok(flat_topsort@, flat_edges@, hier_topsort@, hier_edges@, set_members@),
            set_systems@.len() == k,
            forall|q: int|
                0 <= q < k ==> bitset_wf(#[trigger] set_systems@[q]) && bitset_len(set_systems@[q])
                    == flat_topsort@.len() && bitset_ones(set_systems@[q]) == member_ones(
                    flat_topsort@,
                    members_of(set_members@, sets@[q]),
                ),
        decreases sets@.len() - k,
    {
        let set = sets[k];
        proof {
            let pos = set_positions(hier_topsort@)[k as int] as int;
            assert(hier_topsort@[pos] is SystemSet);
            assert(has_members(set_members@, hier_topsort@[pos]));
        }
        let j = find_members(set_members, set);
        proof {
            assert forall|m: int| 0 <= m < set_members@[j as int].1@.len() implies flat_topsort@.contains(
                #[trigger] set_members@[j as int].1@[m],
            ) by {
                assert(flat_topsort@.contains(set_members@[j as int].1@[m]));
            }
        }
        let bits = members_bitset(flat_topsort, &set_members[j].1);
        set_systems.push(bits);
        k = k + 1;
    }

    let mut above: Vec<FixedBitSet> = Vec::new();
    let mut c: usize = 0;
    proof {
        assert(set_count * cols <= usize::MAX);
    }
    while c < positions.len()
        invariant
            c <= positions@.len(),
            positions@ == set_positions(hier_topsort@),
            positions@.len() <= set_count,
            forall|q: int| 0 <= q < positions@.len() ==> (#[trigger] positions@[q]) < set_count,
            set_count <= cols,
            set_count * cols <= usize::MAX,
            above@.len() == c,
            forall|q: int|
                0 <= q < c ==> bitset_wf(#[trigger] above@[q]) && bitset_len(above@[q]) == set_count
                    && bitset_ones(above@[q]) == above_set_ones(
                    bitset_ones(*reachable),
                    set_positions(hier_topsort@),
                    q,
                    cols as int,
                ),
        decreases positions@.len() - c,
    {
        let bits = above_bitset(reachable, &positions, c, set_count, cols);
        above.push(bits);
        c = c + 1;
    }

    let mut system_sets: Vec<FixedBitSet> = Vec::new();
    let mut i: usize = 0;
    while i < sys_count
        invariant
            i <= sys_count,
            sys_count == flat_topsort@.len(),
            cols == flat_topsort@.len() + hier_topsort@.len(),
            set_count == hier_topsort@.len(),
            sets@ == sets_in_order(hier_topsort@),
            distinct_ids(sets@),
            forall|j: int|
                0 <= j < hier_topsort@.len() && (#[trigger] hier_topsort@[j]) is SystemSet ==> sets@.contains(
                    hier_topsort@[j],
                ),
            executor_inputs_ok(flat_topsort@, flat_edges@, hier_topsort@, hier_edges@, set_members@),
            above@.len() == sets@.len(),
            forall|q: int|
                0 <= q < above@.len() ==> bitset_wf(#[trigger] above@[q]) && bitset_len(above@[q])
                    == set_count && bitset_ones(above@[q]) == above_set_ones(
                    bitset_ones(*reachable),
                    set_positions(hier_topsort@),
                    q,
                    cols as int,
                ),
            system_sets@.len() == i,
            forall|q: int|
                0 <= q < i ==> bitset_wf(#[trigger] system_sets@[q]) && bitset_len(system_sets@[q])
                    == set_count && bitset_ones(system_sets@[q]) == system_set_ones(
                    bitset_ones(*reachable),
                    hier_topsort@,
                    hier_edges@,
                    flat_topsort@[q],
                    cols as int,
                ),
        decreases sys_count - i,
    {
        let sys = flat_topsort[i];
        proof {
            assert forall|q: int|
                0 <= q < hier_edges@.len() && (#[trigger] hier_edges@[q]).1 == sys implies sets@.contains(
                hier_edges@[q].0,
            ) by {
                assert(flat_topsort@[i as int] == sys);
                assert(flat_topsort@.contains(hier_edges@[q].1));
                let w = choose|w: int| 0 <= w < hier_topsort@.len() && hier_topsort@[w] == hier_edges@[q].0;
                assert(hier_topsort@[w] is SystemSet);
            }
        }
        let bits = system_bitset(
            reachable,
            Ghost(hier_topsort@),
            &sets,
            &above,
            hier_edges,
            sys,
            set_count,
            Ghost(cols as int),
        );
        system_sets.push(bits);
        i = i + 1;
    }

    proof {
        assert forall|i: int, k: int|
            0 <= i < system_sets@.len() && 0 <= k < hier_edges@.len() && (#[trigger] hier_edges@[k]).1
                == flat_topsort@[i] implies above_set_ones(
            bitset_ones(*reachable),
            set_positions(hier_topsort@),
            index_in(sets_in_order(hier_topsort@), hier_edges@[k].0),
            cols as int,
        ).subset_of(bitset_ones(#[trigger] system_sets@[i])) by {
            lemma_system_sets_hold_each_holding_set(
                bitset_ones(*reachable),
                hier_topsort@,
                hier_edges@,
                flat_topsort@[i],
                cols as int,
            );
        }
    }
    Schedule {
        systems_topsort: flat_topsort.clone(),
        sets_topsort: sets,
        system_deps,
        system_sets,
        set_systems,
    }
}

/// The sets above a system are exactly the union of the sets above each set
/// that holds it directly: every such set contributes all the sets above it,
/// whatever the position of its edge among the hierarchy edges, and no set
/// comes from anywhere else.
pub proof fn lemma_system_sets_hold_each_holding_set(
    reachable: Set<usize>,
    hier_topsort: Seq<RegId>,
    hier_edges: Seq<(RegId, RegId)>,
    sys: RegId,
    cols: int,
)
    ensures
        forall|k: int|
            0 <= k < hier_edges.len() && (#[trigger] hier_edges[k]).1 == sys ==> above_set_ones(
                reachable,
                set_positions(hier_topsort),
                index_in(sets_in_order(hier_topsort), hier_edges[k].0),
                cols,
            ).subset_of(system_set_ones(reachable, hier_topsort, hier_edges, sys, cols)),
        forall|b: usize|
            #[trigger] system_set_ones(reachable, hier_topsort, hier_edges, sys, cols).contains(b) ==> exists|
                k: int,
            |
                0 <= k < hier_edges.len() && (#[trigger] hier_edges[k]).1 == sys && above_set_ones(
                    reachable,
                    set_positions(hier_topsort),
                    index_in(sets_in_order(hier_topsort), hier_edges[k].0),
                    cols,
                ).contains(b),
{
    assert forall|k: int|
        0 <= k < hier_edges.len() && (#[trigger] hier_edges[k]).1 == sys implies above_set_ones(
        reachable,
        set_positions(hier_topsort),
        index_in(sets_in_order(hier_topsort), hier_edges[k].0),
        cols,
    ).subset_of(system_set_ones(reachable, hier_topsort, hier_edges, sys, cols)) by {
        assert forall|b: usize|
            above_set_ones(
                reachable,
                set_positions(hier_topsort),
                index_in(sets_in_order(hier_topsort), hier_edges[k].0),
                cols,
            ).contains(b) implies #[trigger] system_set_ones(
            reachable,
            hier_topsort,
            hier_edges,
            sys,
            cols,
        ).contains(b) by {
            assert(0 <= k < hier_edges.len() && hier_edges[k].1 == sys);
        }
    }
}

/// The sets above a system are counted among the sets of the hierarchy:
/// every bit of a system's set bits names a set of `sets_topsort`, so a
/// layout can be handed to a runner as it is.
pub proof fn lemma_system_sets_name_sets(
    reachable: Set<usize>,
    hier_topsort: Seq<RegId>,
    hier_edges: Seq<(RegId, RegId)>,
    sys: RegId,
    cols: int,
)
    requires
        forall|k: int|
            0 <= k < hier_edges.len() && (#[trigger] hier_edges[k]).1 == sys ==> sets_in_order(
                hier_topsort,
            ).contains(hier_edges[k].0),
    ensures
        forall|b: usize|
            #[trigger] system_set_ones(reachable, hier_topsort, hier_edges, sys, cols).contains(b) ==> b
                < sets_in_order(hier_topsort).len(),
{
    assert forall|b: usize|
        #[trigger] system_set_ones(reachable, hier_topsort, hier_edges, sys, cols).contains(b) implies b
            < sets_in_order(hier_topsort).len() by {
        let k = choose|k: int|
            0 <= k < hier_edges.len() && (#[trigger] hier_edges[k]).1 == sys && above_set_ones(
                reachable,
                set_positions(hier_topsort),
                index_in(sets_in_order(hier_topsort), hier_edges[k].0),
                cols,
            ).contains(b);
        let sets = sets_in_order(hier_topsort);
        let p = hier_edges[k].0;
        assert(sets.contains(p));
        let w = choose|w: int| 0 <= w < sets.len() && sets[w] == p;
        assert(0 <= w < sets.len() && #[trigger] sets[w] == p);
        let col = index_in(sets, p);
        assert(0 <= col < sets.len());
    }
}

} // verus!
