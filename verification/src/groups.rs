//! Building how nodes ask to be scheduled: one node at a time, a group of
//! nodes configured alike, or a chain of nodes that run one after another.

use vstd::prelude::*;

use crate::descriptor::Order;
use crate::registry::Scheduling;

verus! {

/// The sets of a request after it is put under the set `label`: the label
/// is added unless it is there.
pub open spec fn sets_with(sets: Seq<u64>, label: u64) -> Seq<u64> {
    if sets.contains(label) {
        sets
    } else {
        sets.push(label)
    }
}

/// A request named `label`, in no set and ordered with nothing.
pub fn new_set(label: u64) -> (r: Scheduling)
    ensures
        r.name == Some(label),
        r.sets@.len() == 0,
        r.edges@.len() == 0,
{
    Scheduling { name: Some(label), sets: Vec::new(), edges: Vec::new() }
}

/// A request without a name yet, in no set and ordered with nothing.
pub fn new_system() -> (r: Scheduling)
    ensures
        r.name is None,
        r.sets@.len() == 0,
        r.edges@.len() == 0,
{
    Scheduling { name: None, sets: Vec::new(), edges: Vec::new() }
}

impl Scheduling {
    /// Names the node `name`.
    pub fn named(self, name: u64) -> (r: Scheduling)
        ensures
            r.name == Some(name),
            r.sets@ == self.sets@,
            r.edges@ == self.edges@,
    {
        Scheduling { name: Some(name), sets: self.sets, edges: self.edges }
    }

    /// Puts the node under the set `label`.
    pub fn to(self, label: u64) -> (r: Scheduling)
        ensures
            r.name == self.name,
            r.sets@ == sets_with(self.sets@, label),
            r.edges@ == self.edges@,
    {
        let mut s = self;
        add_set_label(&mut s.sets, label);
        s
    }

    /// Runs the node before `label`.
    pub fn before(self, label: u64) -> (r: Scheduling)
        ensures
            r.name == self.name,
            r.sets@ == self.sets@,
            r.edges@ == self.edges@.push((Order::Before, label)),
    {
        let mut s = self;
        s.edges.push((Order::Before, label));
        s
    }

    /// Runs the node after `label`.
    pub fn after(self, label: u64) -> (r: Scheduling)
        ensures
            r.name == self.name,
            r.sets@ == self.sets@,
            r.edges@ == self.edges@.push((Order::After, label)),
    {
        let mut s = self;
        s.edges.push((Order::After, label));
        s
    }
}

/// Adds `label` to the sets unless it is there.
fn add_set_label(sets: &mut Vec<u64>, label: u64)
    ensures
        final(sets)@ == sets_with(old(sets)@, label),
{
    let mut i: usize = 0;
    while i < sets.len()
        invariant
            i <= sets@.len(),
            sets@ == old(sets)@,
            forall|j: int| 0 <= j < i ==> sets@[j] != label,
        decreases sets@.len() - i,
    {
        if sets[i] == label {
            proof {
                assert(sets@.contains(label));
            }
            return;
        }
        i = i + 1;
    }
    sets.push(label);
}

/// A node's name, which must be set.
pub fn scheduled_name(s: &Scheduling) -> (r: u64)
    requires
        s.name is Some,
    ensures
        r == s.name.unwrap(),
{
    match s.name {
        Some(n) => n,
        None => 0,
    }
}

/// Several nodes configured alike.
pub struct Group(pub Vec<Scheduling>);

impl Group {
    /// The group of the given nodes.
    pub fn new(vec: Vec<Scheduling>) -> (r: Group)
        ensures
            r.0@ == vec@,
    {
        Group(vec)
    }

    /// Puts every node under the set `label`.
    pub fn to(self, label: u64) -> (r: Group)
        ensures
            r.0@.len() == self.0@.len(),
            forall|i: int|
                0 <= i < r.0@.len() ==> (#[trigger] r.0@[i]).name == self.0@[i].name && r.0@[i].sets@
                    == sets_with(self.0@[i].sets@, label) && r.0@[i].edges@ == self.0@[i].edges@,
    {
        let mut nodes = self.0;
        let ghost old_nodes = nodes@;
        let mut out: Vec<Scheduling> = Vec::new();
        while nodes.len() > 0
            invariant
                out@.len() + nodes@.len() == old_nodes.len(),
                nodes@ == old_nodes.subrange(out@.len() as int, old_nodes.len() as int),
                forall|i: int|
                    0 <= i < out@.len() ==> (#[trigger] out@[i]).name == old_nodes[i].name && out@[i].sets@
                        == sets_with(old_nodes[i].sets@, label) && out@[i].edges@ == old_nodes[i].edges@,
            decreases nodes@.len(),
        {
            let node = nodes.remove(0);
            out.push(node.to(label));
        }
        Group(out)
    }

    /// Runs every node before `label`.
    pub fn before(self, label: u64) -> (r: Group)
        ensures
            r.0@.len() == self.0@.len(),
            forall|i: int|
                0 <= i < r.0@.len() ==> (#[trigger] r.0@[i]).name == self.0@[i].name && r.0@[i].sets@
                    == self.0@[i].sets@ && r.0@[i].edges@ == self.0@[i].edges@.push((Order::Before, label)),
    {
        let mut nodes = self.0;
        let ghost old_nodes = nodes@;
        let mut out: Vec<Scheduling> = Vec::new();
        while nodes.len() > 0
            invariant
                out@.len() + nodes@.len() == old_nodes.len(),
                nodes@ == old_nodes.subrange(out@.len() as int, old_nodes.len() as int),
                forall|i: int|
                    0 <= i < out@.len() ==> (#[trigger] out@[i]).name == old_nodes[i].name && out@[i].sets@
                        == old_nodes[i].sets@ && out@[i].edges@ == old_nodes[i].edges@.push(
                        (Order::Before, label),
                    ),
            decreases nodes@.len(),
        {
            let node = nodes.remove(0);
            out.push(node.before(label));
        }
        Group(out)
    }

    /// Runs every node after `label`.
    pub fn after(self, label: u64) -> (r: Group)
        ensures
            r.0@.len() == self.0@.len(),
            forall|i: int|
                0 <= i < r.0@.len() ==> (#[trigger] r.0@[i]).name == self.0@[i].name && r.0@[i].sets@
                    == self.0@[i].sets@ && r.0@[i].edges@ == self.0@[i].edges@.push((Order::After, label)),
    {
        let mut nodes = self.0;
        let ghost old_nodes = nodes@;
        let mut out: Vec<Scheduling> = Vec::new();
        while nodes.len() > 0
            invariant
                out@.len() + nodes@.len() == old_nodes.len(),
                nodes@ == old_nodes.subrange(out@.len() as int, old_nodes.len() as int),
                forall|i: int|
                    0 <= i < out@.len() ==> (#[trigger] out@[i]).name == old_nodes[i].name && out@[i].sets@
                        == old_nodes[i].sets@ && out@[i].edges@ == old_nodes[i].edges@.push(
                        (Order::After, label),
                    ),
            decreases nodes@.len(),
        {
            let node = nodes.remove(0);
            out.push(node.after(label));
        }
        Group(out)
    }
}

/// Nodes that run one after another, in the order given.
pub struct Chain(pub Vec<Scheduling>);

impl Chain {
    /// The chain of the given nodes: each node but the last runs before the
    /// next, which must be named.
    pub fn new(vec: Vec<Scheduling>) -> (r: Chain)
        requires
            vec@.len() > 0,
            forall|i: int| 1 <= i < vec@.len() ==> (#[trigger] vec@[i]).name is Some,
        ensures
            r.0@.len() == vec@.len(),
            forall|i: int|
                0 <= i < r.0@.len() ==> (#[trigger] r.0@[i]).name == vec@[i].name && r.0@[i].sets@
                    == vec@[i].sets@,
            forall|i: int|
                0 <= i < r.0@.len() - 1 ==> (#[trigger] r.0@[i]).edges@ == vec@[i].edges@.push(
                    (Order::Before, vec@[i + 1].name.unwrap()),
                ),
            r.0@[r.0@.len() - 1].edges@ == vec@[vec@.len() - 1].edges@,
    {
        let n = vec.len();
        let mut names: Vec<u64> = Vec::new();
        let mut i: usize = 1;
        while i < n
            invariant
                1 <= i <= n,
                n == vec@.len(),
                names@.len() == i - 1,
                forall|j: int| 1 <= j < vec@.len() ==> (#[trigger] vec@[j]).name is Some,
                forall|j: int| 0 <= j < names@.len() ==> #[trigger] names@[j] == vec@[j + 1].name.unwrap(),
            decreases n - i,
        {
            names.push(scheduled_name(&vec[i]));
            i = i + 1;
        }
        let mut nodes = vec;
        let ghost old_nodes = nodes@;
        let mut out: Vec<Scheduling> = Vec::new();
        let mut k: usize = 0;
        while k + 1 < n
            invariant
                k + 1 <= n,
                n == old_nodes.len(),
                names@.len() == n - 1,
                forall|j: int| 0 <= j < names@.len() ==> #[trigger] names@[j] == old_nodes[j + 1].name.unwrap(),
                out@.len() == k,
                nodes@ == old_nodes.subrange(k as int, n as int),
                forall|j: int|
                    0 <= j < k ==> (#[trigger] out@[j]).name == old_nodes[j].name && out@[j].sets@
                        == old_nodes[j].sets@ && out@[j].edges@ == old_nodes[j].edges@.push(
                        (Order::Before, old_nodes[j + 1].name.unwrap()),
                    ),
            decreases n - k,
        {
            let node = nodes.remove(0);
            out.push(node.before(names[k]));
            k = k + 1;
        }
        let last = nodes.remove(0);
        out.push(last);
        Chain(out)
    }

    /// Puts every node under the set `label`.
    pub fn to(self, label: u64) -> (r: Chain)
        ensures
            r.0@.len() == self.0@.len(),
            forall|i: int|
                0 <= i < r.0@.len() ==> (#[trigger] r.0@[i]).name == self.0@[i].name && r.0@[i].sets@
                    == sets_with(self.0@[i].sets@, label) && r.0@[i].edges@ == self.0@[i].edges@,
    {
        let g = Group(self.0).to(label);
        Chain(g.0)
    }

    /// Runs the chain, from its last node, before `label`.
    pub fn before(self, label: u64) -> (r: Chain)
        ensures
            r.0@.len() == self.0@.len(),
            forall|i: int|
                0 <= i < r.0@.len() ==> (#[trigger] r.0@[i]).name == self.0@[i].name && r.0@[i].sets@
                    == self.0@[i].sets@,
            forall|i: int| 0 <= i < r.0@.len() - 1 ==> (#[trigger] r.0@[i]).edges@ == self.0@[i].edges@,
            r.0@.len() > 0 ==> r.0@[r.0@.len() - 1].edges@ == self.0@[self.0@.len() - 1].edges@.push(
                (Order::Before, label),
            ),
    {
        let mut nodes = self.0;
        if nodes.len() > 0 {
            let last = nodes.pop().unwrap();
            nodes.push(last.before(label));
        }
        Chain(nodes)
    }

    /// Runs the chain, from its first node, after `label`.
    pub fn after(self, label: u64) -> (r: Chain)
        ensures
            r.0@.len() == self.0@.len(),
            forall|i: int|
                0 <= i < r.0@.len() ==> (#[trigger] r.0@[i]).name == self.0@[i].name && r.0@[i].sets@
                    == self.0@[i].sets@,
            forall|i: int| 1 <= i < r.0@.len() ==> (#[trigger] r.0@[i]).edges@ == self.0@[i].edges@,
            r.0@.len() > 0 ==> r.0@[0].edges@ == self.0@[0].edges@.push((Order::After, label)),
    {
        let mut nodes = self.0;
        if nodes.len() > 0 {
            let first = nodes.remove(0);
            nodes.insert(0, first.after(label));
        }
        Chain(nodes)
    }
}

} // verus!
