//! The application: the plugin registry of its main world and the lifecycle
//! of its plugins.

use vstd::prelude::*;

verus! {

/// The lifecycle of an application's plugins.
#[derive(Debug, Clone, Copy, PartialEq, Eq, PartialOrd, Ord, Hash)]
pub enum PluginsState {
    /// Plugins are being added.
    Adding,
    /// All plugins have been added and are ready.
    Ready,
    /// `finish` has run.
    Finished,
    /// `cleanup` has run.
    Cleaned,
}

/// Why a plugin could not be added.
#[derive(Debug, Clone, PartialEq, Eq)]
pub enum AppError {
    /// A unique plugin with this name was added before.
    DuplicatePlugin { plugin_name: String },
    /// Plugins are building inside one another as deeply as the build
    /// counter can count, so no further plugin can start building.
    BuildDepthExhausted,
}

/// A piece of an application's setup.
pub trait Plugin {
    /// Configures the application.
    fn build(&self, app: &mut App);

    /// The plugin's name, which tells unique plugins apart: the name of its
    /// type, as a rule.
    fn name(&self) -> String;

    /// Whether the plugin may be added only once (as a rule, it may).
    fn is_unique(&self) -> bool {
        true
    }
}

/// An application: the names of its plugins, in the order they were added,
/// and where their lifecycle stands.
pub struct App {
    plugin_names: Vec<String>,
    plugin_registry: Vec<String>,
    plugins_state: PluginsState,
    plugin_build_depth: usize,
}

/// The event sent when the application should exit.
#[derive(Debug, Clone, Copy, Default, PartialEq, Eq)]
pub struct AppExit;

/// The character sequences of a sequence of strings.
pub open spec fn string_views(v: Seq<String>) -> Seq<Seq<char>> {
    v.map_values(|s: String| s@)
}

/// The name of the plugin that sets up the main schedule, which every new
/// application has.
pub open spec fn main_schedule_plugin_name() -> Seq<char> {
    "bevy_app::main_schedule::MainSchedulePlugin"@
}

/// Adding plugin `p` to `a` went through and left `b`: the build counter
/// had room, `p` was not a unique plugin whose name was taken, and the slot it
/// took holds its name, if the slot is still there.
pub open spec fn plugin_step_ok(a: App, name: Seq<char>, unique: bool, b: App) -> bool {
    &&& a.spec_build_depth() < usize::MAX
    &&& !(unique && a.spec_unique_names().contains(name))
    &&& a.spec_registry().len() < b.spec_registry().len() ==> b.spec_registry()[a.spec_registry().len() as int]
        == name
}

/// Adding plugin `p` to `a` was refused with `e`, changing nothing: the build
/// counter was full, or `p` is a unique plugin whose name was taken.
pub open spec fn plugin_step_refused(a: App, name: Seq<char>, unique: bool, e: AppError) -> bool {
    if a.spec_build_depth() == usize::MAX {
        e == AppError::BuildDepthExhausted
    } else {
        &&& unique
        &&& a.spec_unique_names().contains(name)
        &&& e matches AppError::DuplicatePlugin { plugin_name } && plugin_name@ == name
    }
}

/// `apps` traces `n` plugins added to `o` one after the other, the `i`-th
/// under the name `names[i]` and the uniqueness `uniques[i]` it gave: each
/// went through, from one state to the next, until the end of the list
/// (`Ok`) or until one was refused with the error returned, leaving the
/// state `f`.
pub open spec fn plugins_added_in_order(
    apps: Seq<App>,
    names: Seq<Seq<char>>,
    uniques: Seq<bool>,
    n: nat,
    o: App,
    f: App,
    r: Result<(), AppError>,
) -> bool {
    let k = apps.len() - 1;
    &&& apps.len() >= 1
    &&& apps[0] == o
    &&& apps.last() == f
    &&& k <= n
    &&& names.len() == uniques.len()
    &&& k <= names.len()
    &&& forall|i: int| 0 <= i < k ==> plugin_step_ok(#[trigger] apps[i], names[i], uniques[i], apps[i + 1])
    &&& match r {
        Ok(()) => k == n,
        Err(e) => k < n && k < names.len() && plugin_step_refused(f, names[k], uniques[k], e),
    }
}

/// The names that occupy a plugin slot while its plugin builds.
pub open spec fn placeholder_name() -> Seq<char> {
    "PlaceholderPlugin"@
}

impl App {
    /// The names of the unique plugins that were added.
    pub closed spec fn spec_unique_names(&self) -> Seq<Seq<char>> {
        string_views(self.plugin_names@)
    }

    /// The names of all plugins, in the order they were added.
    pub closed spec fn spec_registry(&self) -> Seq<Seq<char>> {
        string_views(self.plugin_registry@)
    }

    pub closed spec fn spec_plugins_state(&self) -> PluginsState {
        self.plugins_state
    }

    /// How many plugins are building right now.
    pub closed spec fn spec_build_depth(&self) -> usize {
        self.plugin_build_depth
    }

    /// An application without plugins.
    pub fn empty() -> (r: App)
        ensures
            r.spec_unique_names() == Seq::<Seq<char>>::empty(),
            r.spec_registry() == Seq::<Seq<char>>::empty(),
            r.spec_plugins_state() == PluginsState::Adding,
            r.spec_build_depth() == 0,
    {
        let r = App {
            plugin_names: Vec::new(),
            plugin_registry: Vec::new(),
            plugins_state: PluginsState::Adding,
            plugin_build_depth: 0,
        };
        proof {
            assert(r.spec_unique_names() =~= Seq::<Seq<char>>::empty());
            assert(r.spec_registry() =~= Seq::<Seq<char>>::empty());
        }
        r
    }

    /// A new application: an empty one with the plugin that sets up the main
    /// schedule added, under its type's name, as a unique plugin. What that
    /// plugin's build does to the world lives outside this registry.
    pub fn new() -> (r: App)
        ensures
            r.spec_unique_names() == seq![main_schedule_plugin_name()],
            r.spec_registry() == seq![main_schedule_plugin_name()],
            r.spec_plugins_state() == PluginsState::Adding,
            r.spec_build_depth() == 0,
    {
        let mut app = App::empty();
        let name = String::from_str("bevy_app::main_schedule::MainSchedulePlugin");
        app.plugin_names.push(name);
        app.plugin_registry.push(String::from_str("bevy_app::main_schedule::MainSchedulePlugin"));
        proof {
            reveal_strlit("bevy_app::main_schedule::MainSchedulePlugin");
            assert(app.spec_unique_names() =~= seq![main_schedule_plugin_name()]);
            assert(app.spec_registry() =~= seq![main_schedule_plugin_name()]);
        }
        app
    }

    /// Whether some plugin is building.
    pub fn is_building_plugins(&self) -> (r: bool)
        ensures
            r == (self.spec_build_depth() > 0),
    {
        self.plugin_build_depth > 0
    }

    /// Takes a slot for a plugin named `name` that is about to build. A unique
    /// plugin whose name was taken before is refused, and nothing changes.
    /// Otherwise the name is recorded (when the plugin is unique), a
    /// placeholder takes the next slot, whose index is returned, and the build
    /// depth grows by one.
    pub fn reserve_plugin(&mut self, name: String, is_unique: bool) -> (r: Result<usize, AppError>)
        requires
            old(self).spec_build_depth() < usize::MAX,
        ensures
            r is Err <==> (is_unique && old(self).spec_unique_names().contains(name@)),
            r matches Err(AppError::DuplicatePlugin { plugin_name }) ==> plugin_name@ == name@
                && *final(self) == *old(self),
            r matches Err(e) ==> e is DuplicatePlugin,
            r matches Ok(index) ==> {
                &&& index == old(self).spec_registry().len()
                &&& final(self).spec_registry() == old(self).spec_registry().push(
                    placeholder_name(),
                )
                &&& final(self).spec_unique_names() == if is_unique {
                    old(self).spec_unique_names().push(name@)
                } else {
                    old(self).spec_unique_names()
                }
                &&& final(self).spec_build_depth() == old(self).spec_build_depth() + 1
                &&& final(self).spec_plugins_state() == old(self).spec_plugins_state()
            },
    {
        if is_unique {
            if contains_name(&self.plugin_names, &name) {
                return Err(AppError::DuplicatePlugin { plugin_name: name });
            }
            self.plugin_names.push(name);
        }
        let index = self.plugin_registry.len();
        self.plugin_registry.push(String::from_str("PlaceholderPlugin"));
        self.plugin_build_depth = self.plugin_build_depth + 1;
        proof {
            reveal_strlit("PlaceholderPlugin");
            assert(self.spec_registry() =~= old(self).spec_registry().push(placeholder_name()));
            if is_unique {
                assert(self.spec_unique_names() =~= old(self).spec_unique_names().push(name@));
            } else {
                assert(self.spec_unique_names() =~= old(self).spec_unique_names());
            }
        }
        Ok(index)
    }

    /// Ends the build of the plugin in slot `index`: the slot gets its name and
    /// the build depth shrinks by one. A slot or depth that a build has taken
    /// away is left as it is.
    pub fn finish_plugin_build(&mut self, index: usize, name: String)
        ensures
            final(self).spec_build_depth() == if old(self).spec_build_depth() > 0 {
                old(self).spec_build_depth() - 1
            } else {
                0
            },
            final(self).spec_registry() == if index < old(self).spec_registry().len() {
                old(self).spec_registry().update(index as int, name@)
            } else {
                old(self).spec_registry()
            },
            final(self).spec_unique_names() == old(self).spec_unique_names(),
            final(self).spec_plugins_state() == old(self).spec_plugins_state(),
    {
        if self.plugin_build_depth > 0 {
            self.plugin_build_depth = self.plugin_build_depth - 1;
        }
        let ghost name_view = name@;
        if index < self.plugin_registry.len() {
            self.plugin_registry.set(index, name);
            proof {
                assert(self.spec_registry() =~= old(self).spec_registry().update(
                    index as int,
                    name_view,
                ));
            }
        }
    }

    /// Adds a plugin under the name and the uniqueness it gives (see
    /// `add_named_plugin`). A refused plugin is a unique one whose name was
    /// added before; nothing changes then.
    pub fn add_boxed_plugin(&mut self, plugin: Box<dyn Plugin>) -> (r: Result<(), AppError>)
        requires
            old(self).spec_build_depth() < usize::MAX,
        ensures
            r matches Err(e) ==> e matches AppError::DuplicatePlugin { plugin_name } && old(
                self,
            ).spec_unique_names().contains(plugin_name@) && *final(self) == *old(self),
            r is Ok ==> exists|name: Seq<char>, unique: bool| plugin_step_ok(*old(self), name, unique, *final(self)),
    {
        let name = plugin.name();
        let is_unique = plugin.is_unique();
        self.add_named_plugin(plugin, name, is_unique)
    }

    /// Adds `plugin` under the name `name` it gives, as a unique plugin or
    /// not. A unique plugin whose name was added before is refused before it
    /// builds, and nothing changes. Otherwise it takes the next slot (see
    /// `reserve_plugin`), builds, and its slot gets its name (see
    /// `finish_plugin_build`). What the build does to the application is the
    /// plugin's own.
    pub fn add_named_plugin(&mut self, plugin: Box<dyn Plugin>, name: String, is_unique: bool) -> (r: Result<
        (),
        AppError,
    >)
        requires
            old(self).spec_build_depth() < usize::MAX,
        ensures
            r is Err <==> (is_unique && old(self).spec_unique_names().contains(name@)),
            r matches Err(e) ==> plugin_step_refused(*old(self), name@, is_unique, e) && *final(self) == *old(self),
            r is Ok ==> plugin_step_ok(*old(self), name@, is_unique, *final(self)),
    {
        let recorded = name.clone();
        match self.reserve_plugin(name, is_unique) {
            Err(e) => Err(e),
            Ok(index) => {
                plugin.build(self);
                self.finish_plugin_build(index, recorded);
                Ok(())
            },
        }
    }

    /// Adds plugins in order, each under the name and the uniqueness it gives
    /// (see `add_named_plugin`), stopping at the first that is refused, whose
    /// error is returned. Plugins cannot be added once `finish` or `cleanup`
    /// has run.
    #[verifier::loop_isolation(false)]
    pub fn add_plugins(&mut self, plugins: Vec<Box<dyn Plugin>>) -> (r: Result<(), AppError>)
        requires
            old(self).spec_plugins_state() != PluginsState::Finished,
            old(self).spec_plugins_state() != PluginsState::Cleaned,
        ensures
            exists|apps: Seq<App>, names: Seq<Seq<char>>, uniques: Seq<bool>|
                plugins_added_in_order(apps, names, uniques, plugins@.len(), *old(self), *final(self), r),
            plugins@.len() == 0 ==> r is Ok && *final(self) == *old(self),
            plugins@.len() > 0 && old(self).spec_build_depth() == usize::MAX ==> r == Err::<(), AppError>(
                AppError::BuildDepthExhausted,
            ) && *final(self) == *old(self),
    {
        let ghost n = plugins@.len();
        let ghost mut apps: Seq<App> = seq![*self];
        let ghost mut names: Seq<Seq<char>> = Seq::empty();
        let ghost mut uniques: Seq<bool> = Seq::empty();
        let mut plugins = plugins;
        let total = plugins.len();
        let mut k: usize = 0;
        while plugins.len() > 0
            invariant
                k <= n,
                n == total,
                plugins@.len() == n - k,
                apps.len() == k + 1,
                names.len() == k,
                uniques.len() == k,
                apps[0] == *old(self),
                apps.last() == *self,
                forall|i: int| 0 <= i < k ==> plugin_step_ok(#[trigger] apps[i], names[i], uniques[i], apps[i + 1]),
                k == 0 ==> *self == *old(self),
            decreases plugins@.len(),
        {
            let plugin = plugins.remove(0);
            if self.plugin_build_depth == usize::MAX {
                proof {
                    assert(plugins_added_in_order(
                        apps,
                        names.push(Seq::empty()),
                        uniques.push(false),
                        n,
                        *old(self),
                        *self,
                        Err::<(), AppError>(AppError::BuildDepthExhausted),
                    ));
                }
                return Err(AppError::BuildDepthExhausted);
            }
            let ghost before = *self;
            let plugin_name = plugin.name();
            let is_unique = plugin.is_unique();
            let ghost name = plugin_name@;
            let res = self.add_named_plugin(plugin, plugin_name, is_unique);
            match res {
                Err(e) => {
                    proof {
                        assert(plugins_added_in_order(
                            apps,
                            names.push(name),
                            uniques.push(is_unique),
                            n,
                            *old(self),
                            *self,
                            Err::<(), AppError>(e),
                        ));
                    }
                    return Err(e);
                },
                Ok(()) => {},
            }
            proof {
                let ghost prev = apps;
                let ghost prev_names = names;
                let ghost prev_uniques = uniques;
                apps = apps.push(*self);
                names = names.push(name);
                uniques = uniques.push(is_unique);
                assert(apps[k as int] == before);
                assert forall|i: int| 0 <= i < k + 1 implies plugin_step_ok(
                    #[trigger] apps[i],
                    names[i],
                    uniques[i],
                    apps[i + 1],
                ) by {
                    if i < k {
                        assert(apps[i] == prev[i]);
                        assert(apps[i + 1] == prev[i + 1]);
                        assert(names[i] == prev_names[i]);
                        assert(uniques[i] == prev_uniques[i]);
                    }
                }
            }
            k = k + 1;
        }
        proof {
            assert(plugins_added_in_order(apps, names, uniques, n, *old(self), *self, Ok::<(), AppError>(())));
        }
        Ok(())
    }

    /// Whether a plugin with this name was added.
    pub fn is_plugin_added(&self, name: &String) -> (r: bool)
        ensures
            r == self.spec_registry().contains(name@),
    {
        let mut i: usize = 0;
        while i < self.plugin_registry.len()
            invariant
                i <= self.plugin_registry@.len(),
                forall|j: int| 0 <= j < i ==> self.plugin_registry@[j]@ != name@,
            decreases self.plugin_registry@.len() - i,
        {
            if self.plugin_registry[i] == *name {
                proof {
                    assert(self.spec_registry()[i as int] == name@);
                }
                return true;
            }
            i = i + 1;
        }
        proof {
            assert forall|j: int| 0 <= j < self.spec_registry().len() implies #[trigger] self.spec_registry()[j]
                != name@ by {
                assert(self.spec_registry()[j] == self.plugin_registry@[j]@);
            }
        }
        false
    }

    /// Where the plugins' lifecycle stands: while plugins are being added,
    /// every added plugin counts as ready.
    pub fn plugins_state(&mut self) -> (r: PluginsState)
        ensures
            r == match old(self).spec_plugins_state() {
                PluginsState::Adding => PluginsState::Ready,
                s => s,
            },
            *final(self) == *old(self),
    {
        match self.plugins_state {
            PluginsState::Adding => PluginsState::Ready,
            s => s,
        }
    }

    /// Marks the plugins as finished.
    pub fn finish(&mut self)
        ensures
            final(self).spec_plugins_state() == PluginsState::Finished,
            final(self).spec_registry() == old(self).spec_registry(),
            final(self).spec_unique_names() == old(self).spec_unique_names(),
            final(self).spec_build_depth() == old(self).spec_build_depth(),
    {
        self.plugins_state = PluginsState::Finished;
    }

    /// Marks the plugins as cleaned up.
    pub fn cleanup(&mut self)
        ensures
            final(self).spec_plugins_state() == PluginsState::Cleaned,
            final(self).spec_registry() == old(self).spec_registry(),
            final(self).spec_unique_names() == old(self).spec_unique_names(),
            final(self).spec_build_depth() == old(self).spec_build_depth(),
    {
        self.plugins_state = PluginsState::Cleaned;
    }
}

/// Whether `names` holds a name equal to `name`.
fn contains_name(names: &Vec<String>, name: &String) -> (r: bool)
    ensures
        r == string_views(names@).contains(name@),
{
    let mut i: usize = 0;
    while i < names.len()
        invariant
            i <= names@.len(),
            forall|j: int| 0 <= j < i ==> names@[j]@ != name@,
        decreases names@.len() - i,
    {
        if names[i] == *name {
            proof {
                assert(string_views(names@)[i as int] == name@);
            }
            return true;
        }
        i = i + 1;
    }
    proof {
        assert forall|j: int| 0 <= j < names@.len() implies #[trigger] string_views(names@)[j] != name@ by {
            assert(string_views(names@)[j] == names@[j]@);
        }
    }
    false
}

} // verus!
