//! Groups of plugins, built in an order that can be arranged, with plugins
//! that can be switched off. The builder keeps the names of the plugins, their
//! build order and whether each is enabled; the plugins themselves are held
//! by the caller under their names.

use vstd::prelude::*;

use crate::app::string_views;

verus! {

/// Collects the plugins of a group and the order in which they will be
/// built. A plugin is known by its name.
pub struct PluginGroupBuilder {
    keys: Vec<String>,
    enabled: Vec<bool>,
    order: Vec<String>,
}

/// The position of the first string in `v` equal to `name`.
fn position_of_name(v: &Vec<String>, name: &String) -> (r: Option<usize>)
    ensures
        r is Some <==> string_views(v@).contains(name@),
        r matches Some(i) ==> i < v@.len() && v@[i as int]@ == name@ && forall|j: int|
            0 <= j < i ==> #[trigger] v@[j]@ != name@,
{
    let mut i: usize = 0;
    while i < v.len()
        invariant
            i <= v@.len(),
            forall|j: int| 0 <= j < i ==> #[trigger] v@[j]@ != name@,
        decreases v@.len() - i,
    {
        if v[i] == *name {
            proof {
                assert(string_views(v@)[i as int] == name@);
            }
            return Some(i);
        }
        i = i + 1;
    }
    proof {
        assert forall|j: int| 0 <= j < v@.len() implies #[trigger] string_views(v@)[j] != name@ by {
            assert(string_views(v@)[j] == v@[j]@);
        }
    }
    None
}

/// The first position of `name` in `s`.
pub open spec fn first_position(s: Seq<Seq<char>>, name: Seq<char>) -> int {
    choose|i: int| 0 <= i < s.len() && s[i] == name && forall|j: int| 0 <= j < i ==> s[j] != name
}

impl PluginGroupBuilder {
    /// The names in build order; a name added twice is built twice.
    pub closed spec fn spec_order(&self) -> Seq<Seq<char>> {
        string_views(self.order@)
    }

    /// The names of the plugins held, each once.
    pub closed spec fn spec_names(&self) -> Seq<Seq<char>> {
        string_views(self.keys@)
    }

    /// Whether the plugin at position `i` of `spec_names` will be built.
    pub closed spec fn spec_enabled_at(&self, i: int) -> bool {
        self.enabled@[i]
    }

    /// Whether a plugin named `name` is held and will be built.
    pub open spec fn spec_enabled(&self, name: Seq<char>) -> bool {
        exists|i: int|
            0 <= i < self.spec_names().len() && #[trigger] self.spec_names()[i] == name
                && self.spec_enabled_at(i)
    }

    /// One flag per name, each name once.
    pub closed spec fn wf(&self) -> bool {
        &&& self.keys@.len() == self.enabled@.len()
        &&& string_views(self.keys@).no_duplicates()
    }

    /// A builder with no plugins.
    pub fn new() -> (r: PluginGroupBuilder)
        ensures
            r.wf(),
            r.spec_order() == Seq::<Seq<char>>::empty(),
            r.spec_names() == Seq::<Seq<char>>::empty(),
    {
        let r = PluginGroupBuilder { keys: Vec::new(), enabled: Vec::new(), order: Vec::new() };
        proof {
            assert(r.spec_order() =~= Seq::<Seq<char>>::empty());
            assert(r.spec_names() =~= Seq::<Seq<char>>::empty());
        }
        r
    }

    /// Holds a plugin under `name`, enabled; one held under that name before
    /// is replaced.
    fn insert_entry(&mut self, name: String)
        requires
            old(self).wf(),
        ensures
            final(self).wf(),
            final(self).order@ == old(self).order@,
            final(self).spec_names().to_set() == old(self).spec_names().to_set().insert(name@),
            final(self).spec_enabled(name@),
            forall|n: Seq<char>|
                n != name@ ==> #[trigger] final(self).spec_enabled(n) == old(self).spec_enabled(n),
    {
        let ghost name_view = name@;
        match position_of_name(&self.keys, &name) {
            Some(i) => {
                self.enabled.set(i, true);
                proof {
                    let sv = self.spec_names();
                    assert(sv == old(self).spec_names());
                    assert(sv[i as int] == name_view);
                    assert(forall|k: int| 0 <= k < sv.len() && k != i ==> self.spec_enabled_at(k) == old(self).spec_enabled_at(k));
                    assert forall|n: Seq<char>| n != name_view implies #[trigger] self.spec_enabled(n)
                        == old(self).spec_enabled(n) by {
                        if self.spec_enabled(n) {
                            let k = choose|k: int|
                                0 <= k < sv.len() && #[trigger] sv[k] == n && self.spec_enabled_at(k);
                            assert(k != i);
                            assert(old(self).spec_enabled_at(k));
                            assert(old(self).spec_names()[k] == n);
                        }
                        if old(self).spec_enabled(n) {
                            let k = choose|k: int|
                                0 <= k < old(self).spec_names().len() && #[trigger] old(self).spec_names()[k] == n && old(self).spec_enabled_at(k);
                            assert(k != i);
                            assert(self.spec_enabled_at(k));
                            assert(self.spec_names()[k] == n);
                        }
                    }
                    assert(self.spec_enabled_at(i as int));
                    assert(self.spec_names().to_set() =~= old(self).spec_names().to_set().insert(name_view));
                }
            },
            None => {
                self.keys.push(name);
                self.enabled.push(true);
                proof {
                    let k = old(self).keys@.len() as int;
                    let sv = string_views(self.keys@);
                    let ov = string_views(old(self).keys@);
                    assert(sv =~= ov.push(name_view));
                    assert(!ov.contains(name_view));
                    assert forall|a: int, b: int| 0 <= a < b < sv.len() implies sv[a] != sv[b] by {
                        if b == k {
                            assert(ov[a] == sv[a]);
                        } else {
                            assert(ov[a] == sv[a]);
                            assert(ov[b] == sv[b]);
                        }
                    }
                    assert(self.spec_enabled_at(k));
                    assert(sv[k] == name_view);
                    assert forall|n: Seq<char>| n != name_view implies #[trigger] self.spec_enabled(n)
                        == old(self).spec_enabled(n) by {
                        if self.spec_enabled(n) {
                            let j = choose|j: int|
                                0 <= j < sv.len() && #[trigger] sv[j] == n && self.spec_enabled_at(j);
                            assert(j != k);
                            assert(ov[j] == n);
                            assert(old(self).spec_enabled_at(j));
                            assert(old(self).spec_names()[j] == n);
                        }
                        if old(self).spec_enabled(n) {
                            let j = choose|j: int|
                                0 <= j < old(self).spec_names().len() && #[trigger] old(self).spec_names()[j] == n && old(self).spec_enabled_at(j);
                            assert(ov[j] == n);
                            assert(sv[j] == n);
                            assert(self.spec_enabled_at(j));
                            assert(self.spec_names()[j] == n);
                        }
                    }
                    assert forall|x: Seq<char>| sv.to_set().contains(x) <==> ov.to_set().insert(
                        name_view,
                    ).contains(x) by {
                        if sv.contains(x) {
                            let j = choose|j: int| 0 <= j < sv.len() && sv[j] == x;
                            if j < k {
                                assert(ov[j] == x);
                            }
                        }
                        if ov.contains(x) {
                            let j = choose|j: int| 0 <= j < ov.len() && ov[j] == x;
                            assert(sv[j] == x);
                        }
                        if x == name_view {
                            assert(sv[k] == x);
                        }
                    }
                    assert(self.spec_names().to_set() =~= old(self).spec_names().to_set().insert(name_view));
                }
            },
        }
    }
}

/// The names of `order` whose plugins `b` will build, in order.
pub open spec fn build_list(order: Seq<Seq<char>>, b: PluginGroupBuilder) -> Seq<Seq<char>>
    decreases order.len(),
{
    if order.len() == 0 {
        Seq::empty()
    } else {
        let rest = build_list(order.drop_last(), b);
        if b.spec_enabled(order.last()) {
            rest.push(order.last())
        } else {
            rest
        }
    }
}

/// The first position of `name` in `s` is the one that `position_of_name`
/// finds.
proof fn lemma_first_position(s: Seq<Seq<char>>, name: Seq<char>, i: int)
    requires
        0 <= i < s.len(),
        s[i] == name,
        forall|j: int| 0 <= j < i ==> s[j] != name,
    ensures
        first_position(s, name) == i,
{
    let k = first_position(s, name);
    assert(0 <= i < s.len() && s[i] == name && forall|j: int| 0 <= j < i ==> s[j] != name);
    if k < i {
        assert(s[k] == name);
    } else if k > i {
        assert(s[i] != name);
    }
}

impl PluginGroupBuilder {
    /// Whether `name` stands in the build order.
    pub fn is_in_order(&self, name: &String) -> (r: bool)
        ensures
            r == self.spec_order().contains(name@),
    {
        position_of_name(&self.order, name).is_some()
    }

    /// Whether a plugin named `name` is held.
    pub fn contains(&self, name: &String) -> (r: bool)
        ensures
            r == self.spec_names().contains(name@),
    {
        position_of_name(&self.keys, name).is_some()
    }

    /// Appends the plugin named `name` to the build order, enabled; a plugin
    /// held under that name before is replaced, and the name then stands
    /// twice in the order.
    pub fn add(&mut self, name: String)
        requires
            old(self).wf(),
        ensures
            final(self).wf(),
            final(self).spec_order() == old(self).spec_order().push(name@),
            final(self).spec_names().to_set() == old(self).spec_names().to_set().insert(name@),
            final(self).spec_enabled(name@),
            forall|n: Seq<char>|
                n != name@ ==> #[trigger] final(self).spec_enabled(n) == old(self).spec_enabled(n),
    {
        let ghost name_view = name@;
        let key = name.clone();
        self.order.push(name);
        proof {
            assert(self.spec_order() =~= old(self).spec_order().push(name_view));
        }
        self.insert_entry(key);
    }

    /// Puts the plugin named `name` in the build order right before the first
    /// occurrence of `target`, which must be in the order; it is held and
    /// enabled as `add` does.
    pub fn add_before(&mut self, target: &String, name: String)
        requires
            old(self).wf(),
            old(self).spec_order().contains(target@),
        ensures
            final(self).wf(),
            final(self).spec_order() == old(self).spec_order().insert(
                first_position(old(self).spec_order(), target@),
                name@,
            ),
            final(self).spec_names().to_set() == old(self).spec_names().to_set().insert(name@),
            final(self).spec_enabled(name@),
            forall|n: Seq<char>|
                n != name@ ==> #[trigger] final(self).spec_enabled(n) == old(self).spec_enabled(n),
    {
        let ghost name_view = name@;
        let target_index = match position_of_name(&self.order, target) {
            Some(i) => i,
            None => {
                proof {
                    assert(false);
                }
                0
            },
        };
        proof {
            lemma_first_position(self.spec_order(), target@, target_index as int);
        }
        let key = name.clone();
        self.order.insert(target_index, name);
        proof {
            assert(self.spec_order() =~= old(self).spec_order().insert(target_index as int, name_view));
        }
        self.insert_entry(key);
    }

    /// Puts the plugin named `name` in the build order right after the first
    /// occurrence of `target`, which must be in the order; it is held and
    /// enabled as `add` does.
    pub fn add_after(&mut self, target: &String, name: String)
        requires
            old(self).wf(),
            old(self).spec_order().contains(target@),
        ensures
            final(self).wf(),
            final(self).spec_order() == old(self).spec_order().insert(
                first_position(old(self).spec_order(), target@) + 1,
                name@,
            ),
            final(self).spec_names().to_set() == old(self).spec_names().to_set().insert(name@),
            final(self).spec_enabled(name@),
            forall|n: Seq<char>|
                n != name@ ==> #[trigger] final(self).spec_enabled(n) == old(self).spec_enabled(n),
    {
        let ghost name_view = name@;
        let target_index = match position_of_name(&self.order, target) {
            Some(i) => i,
            None => {
                proof {
                    assert(false);
                }
                0
            },
        };
        proof {
            lemma_first_position(self.spec_order(), target@, target_index as int);
        }
        let key = name.clone();
        let _order_len = self.order.len();
        self.order.insert(target_index + 1, name);
        proof {
            assert(self.spec_order() =~= old(self).spec_order().insert(target_index + 1, name_view));
        }
        self.insert_entry(key);
    }

    /// Sets whether the plugin named `name`, which must be held, is built.
    fn set_enabled(&mut self, name: &String, enabled: bool)
        requires
            old(self).wf(),
            old(self).spec_names().contains(name@),
        ensures
            final(self).wf(),
            final(self).spec_order() == old(self).spec_order(),
            final(self).spec_names() == old(self).spec_names(),
            final(self).spec_enabled(name@) == enabled,
            forall|n: Seq<char>|
                n != name@ ==> #[trigger] final(self).spec_enabled(n) == old(self).spec_enabled(n),
    {
        let i = match position_of_name(&self.keys, name) {
            Some(i) => i,
            None => {
                proof {
                    assert(false);
                }
                0
            },
        };
        self.enabled.set(i, enabled);
        proof {
            let sv = self.spec_names();
            assert(sv == old(self).spec_names());
            assert(sv[i as int] == name@);
            assert(forall|k: int|
                0 <= k < sv.len() && k != i ==> self.spec_enabled_at(k) == old(self).spec_enabled_at(k));
            assert(forall|k: int| 0 <= k < sv.len() && k != i ==> sv[k] != sv[i as int]) by {
                assert(sv.no_duplicates());
            }
            if enabled {
                assert(self.spec_enabled_at(i as int));
            } else {
                if self.spec_enabled(name@) {
                    let k = choose|k: int|
                        0 <= k < sv.len() && #[trigger] sv[k] == name@ && self.spec_enabled_at(k);
                    assert(k == i);
                }
            }
            assert forall|n: Seq<char>| n != name@ implies #[trigger] self.spec_enabled(n)
                == old(self).spec_enabled(n) by {
                if self.spec_enabled(n) {
                    let k = choose|k: int|
                        0 <= k < sv.len() && #[trigger] sv[k] == n && self.spec_enabled_at(k);
                    assert(k != i);
                    assert(old(self).spec_enabled_at(k));
                    assert(old(self).spec_names()[k] == n);
                }
                if old(self).spec_enabled(n) {
                    let k = choose|k: int|
                        0 <= k < old(self).spec_names().len() && #[trigger] old(self).spec_names()[k] == n
                            && old(self).spec_enabled_at(k);
                    assert(k != i);
                    assert(self.spec_enabled_at(k));
                    assert(self.spec_names()[k] == n);
                }
            }
        }
    }

    /// Enables the plugin named `name`, which must be held.
    pub fn enable(&mut self, name: &String)
        requires
            old(self).wf(),
            old(self).spec_names().contains(name@),
        ensures
            final(self).wf(),
            final(self).spec_order() == old(self).spec_order(),
            final(self).spec_names() == old(self).spec_names(),
            final(self).spec_enabled(name@),
            forall|n: Seq<char>|
                n != name@ ==> #[trigger] final(self).spec_enabled(n) == old(self).spec_enabled(n),
    {
        self.set_enabled(name, true)
    }

    /// Disables the plugin named `name`, which must be held: it is not built.
    pub fn disable(&mut self, name: &String)
        requires
            old(self).wf(),
            old(self).spec_names().contains(name@),
        ensures
            final(self).wf(),
            final(self).spec_order() == old(self).spec_order(),
            final(self).spec_names() == old(self).spec_names(),
            !final(self).spec_enabled(name@),
            forall|n: Seq<char>|
                n != name@ ==> #[trigger] final(self).spec_enabled(n) == old(self).spec_enabled(n),
    {
        self.set_enabled(name, false)
    }

    /// Whether the plugin named `name` is held and enabled.
    fn is_enabled(&self, name: &String) -> (r: bool)
        requires
            self.wf(),
        ensures
            r == self.spec_enabled(name@),
    {
        match position_of_name(&self.keys, name) {
            Some(i) => {
                proof {
                    let sv = self.spec_names();
                    assert(sv[i as int] == name@);
                    if self.spec_enabled(name@) {
                        let k = choose|k: int|
                            0 <= k < sv.len() && #[trigger] sv[k] == name@ && self.spec_enabled_at(k);
                        assert(k == i) by {
                            assert(sv.no_duplicates());
                        }
                    }
                    assert(sv[i as int] == name@);
                }
                self.enabled[i]
            },
            None => false,
        }
    }

    /// The names of the plugins to build, in build order: every name of the
    /// order whose plugin is held and enabled.
    pub fn finish(self) -> (r: Vec<String>)
        requires
            self.wf(),
        ensures
            string_views(r@) == build_list(self.spec_order(), self),
    {
        let mut r: Vec<String> = Vec::new();
        let mut i: usize = 0;
        while i < self.order.len()
            invariant
                self.wf(),
                i <= self.order@.len(),
                string_views(r@) == build_list(self.spec_order().take(i as int), self),
            decreases self.order@.len() - i,
        {
            let ghost before = r@;
            let name = &self.order[i];
            let enabled = self.is_enabled(name);
            if enabled {
                r.push(name.clone());
            }
            proof {
                let o = self.spec_order();
                assert(o.take(i + 1).drop_last() =~= o.take(i as int));
                assert(o.take(i + 1).last() == o[i as int]);
                if enabled {
                    assert(string_views(r@) =~= string_views(before).push(o[i as int]));
                }
            }
            i = i + 1;
        }
        proof {
            assert(self.spec_order().take(self.order@.len() as int) =~= self.spec_order());
        }
        r
    }
}

} // verus!
