//! Tasks: named units of work that an application registers at start-up and
//! that are then looked up by name and run with the caller's arguments.

use crate::errors::Error;
use crate::errors::ErrorView;
use crate::name_order::lemma_name_lt_asymmetric;
use crate::name_order::name_lt;
use crate::sorted_map::collect;
use crate::sorted_map::SortedMap;
use vstd::prelude::*;

verus! {

/// The arguments of one invocation, by key.
#[derive(Debug)]
pub struct Vars {
    cli: SortedMap<String>,
}

/// The pairs of an argument list with their strings as sequences of
/// characters.
pub open spec fn pairs_view(args: Seq<(String, String)>) -> Seq<(Seq<char>, Seq<char>)> {
    args.map_values(|p: (String, String)| (p.0@, p.1@))
}

/// A map of strings with each value as a sequence of characters.
spec fn values_view(m: Map<Seq<char>, String>) -> Map<Seq<char>, Seq<char>> {
    m.map_values(|v: String| v@)
}

impl View for Vars {
    type V = Map<Seq<char>, Seq<char>>;

    /// The value held under each key.
    closed spec fn view(&self) -> Map<Seq<char>, Seq<char>> {
        values_view(self.cli@)
    }
}

impl Default for Vars {
    /// No arguments.
    fn default() -> (vars: Self)
        ensures
            vars@ == Map::<Seq<char>, Seq<char>>::empty(),
    {
        Vars { cli: SortedMap::new() }
    }
}

impl Vars {
    /// Builds the arguments from a list of pairs of a key and a value.
    /// Where a key occurs more than once, its last value is kept.
    pub fn from_cli_args(args: Vec<(String, String)>) -> (vars: Self)
        ensures
            vars@ == collect(pairs_view(args@)),
    {
        let ghost all = args@;
        let mut cli: SortedMap<String> = SortedMap::new();
        for pair in it: args
            invariant
                it.seq() == all,
                values_view(cli@) == collect(pairs_view(all.take(it.index()))),
        {
            let ghost before = cli@;
            let ghost i = it.index();
            let (key, value) = pair;
            cli.insert(key, value);
            proof {
                let done = pairs_view(all.take(i + 1));
                assert(done.drop_last() =~= pairs_view(all.take(i)));
                assert(done.last() == (key@, value@));
                assert(values_view(cli@) =~= values_view(before).insert(key@, value@));
            }
        }
        assert(all.take(all.len() as int) =~= all);
        Vars { cli }
    }

    /// The value that was supplied under `key`.
    pub fn cli_arg(&self, key: &str) -> (r: Result<&String, Error>)
        ensures
            match r {
                Ok(value) => self@.contains_key(key@) && value@ == self@[key@],
                Err(e) => !self@.contains_key(key@) && e@ == ErrorView::MissingArgument(key@),
            },
    {
        match self.cli.get(key) {
            Some(value) => Ok(value),
            None => Err(Error::MissingArgument(key.to_owned())),
        }
    }
}

/// What a task is called and what it is for.
#[derive(Debug, PartialEq, Eq)]
pub struct TaskInfo {
    pub name: String,
    pub detail: String,
}

/// A [`TaskInfo`] with its strings as sequences of characters.
pub struct TaskInfoView {
    pub name: Seq<char>,
    pub detail: Seq<char>,
}

impl View for TaskInfo {
    type V = TaskInfoView;

    open spec fn view(&self) -> TaskInfoView {
        TaskInfoView { name: self.name@, detail: self.detail@ }
    }
}

impl Clone for TaskInfo {
    fn clone(&self) -> (copy: Self)
        ensures
            copy == *self,
    {
        TaskInfo { name: self.name.clone(), detail: self.detail.clone() }
    }
}

/// A unit of work that can describe itself and can be run against an
/// application context of type `C`.
pub trait Task<C>: Send + Sync {
    /// The task's name and what it is for.
    fn task(&self) -> TaskInfo;

    /// Runs the task with the given context and arguments.
    fn run(&self, app_context: &C, vars: &Vars) -> Result<(), Error>;
}

/// A boxed task is a task: it does what the task in the box does. This lets
/// one registry hold tasks of different types, each in a box.
impl<C, K: Task<C> + ?Sized> Task<C> for Box<K> {
    fn task(&self) -> (info: TaskInfo)
        ensures
            call_ensures(<K as Task<C>>::task, (&**self,), info),
    {
        (**self).task()
    }

    fn run(&self, app_context: &C, vars: &Vars) -> (r: Result<(), Error>)
        ensures
            call_ensures(<K as Task<C>>::run, (&**self, app_context, vars), r),
    {
        (**self).run(app_context, vars)
    }
}

/// What a registry holds under a name: the detail that the task gave when it
/// was registered, and the task itself.
pub struct Registered<K> {
    pub detail: Seq<char>,
    pub task: K,
}

/// A task in the registry with the detail it was registered with.
struct Slot<K> {
    detail: String,
    task: K,
}

/// The tasks of an application by name. `K` is the type of the tasks: one
/// type of task, or `Box<dyn Task<C>>` for tasks of different types.
///
/// Under each name the registry keeps the task and the detail that the task
/// gave when it was registered; that detail is what [`Tasks::list`] shows.
pub struct Tasks<K> {
    registry: SortedMap<Slot<K>>,
}

/// A list of descriptors with their strings as sequences of characters.
pub open spec fn descriptors(tasks: Seq<TaskInfo>) -> Seq<TaskInfoView> {
    tasks.map_values(|t: TaskInfo| t@)
}

/// `listing` is the list of what `registry` holds: it is in strictly
/// ascending order of the names, each of its descriptors is that of a
/// registered task, and every registered name occurs in it.
pub open spec fn lists<K>(listing: Seq<TaskInfoView>, registry: Map<Seq<char>, Registered<K>>) -> bool {
    &&& forall|i: int, j: int|
        0 <= i < j < listing.len() ==> name_lt(#[trigger] listing[i].name, #[trigger] listing[j].name)
    &&& forall|i: int|
        0 <= i < listing.len() ==> registry.contains_key(#[trigger] listing[i].name)
            && listing[i].detail == registry[listing[i].name].detail
    &&& forall|name: Seq<char>| #[trigger]
        registry.contains_key(name) ==> exists|i: int|
            0 <= i < listing.len() && #[trigger] listing[i].name == name
}

/// Two listings of one registry agree on their first `n` descriptors.
proof fn lemma_listing_prefix<K>(
    a: Seq<TaskInfoView>,
    b: Seq<TaskInfoView>,
    registry: Map<Seq<char>, Registered<K>>,
    n: int,
)
    requires
        lists(a, registry),
        lists(b, registry),
        0 <= n <= a.len(),
    ensures
        n <= b.len(),
        forall|i: int| 0 <= i < n ==> a[i] == b[i],
    decreases n,
{
    if n > 0 {
        lemma_listing_prefix(a, b, registry, n - 1);
        let i = n - 1;
        let name = a[i].name;
        assert(registry.contains_key(name));
        let j = choose|j: int| 0 <= j < b.len() && #[trigger] b[j].name == name;
        if j < i {
            assert(a[j] == b[j]);
            lemma_name_lt_asymmetric(a[j].name, a[i].name);
        } else if j > i {
            assert(registry.contains_key(b[i].name));
            let k = choose|k: int| 0 <= k < a.len() && #[trigger] a[k].name == b[i].name;
            lemma_name_lt_asymmetric(b[i].name, b[j].name);
            if k < i {
                assert(a[k] == b[k]);
                lemma_name_lt_asymmetric(b[k].name, b[i].name);
            } else if k > i {
                lemma_name_lt_asymmetric(a[i].name, a[k].name);
            }
        }
    }
}

/// A registry has one listing only. So the list of the registered tasks
/// depends on what is registered, not on the order in which it was
/// registered.
pub proof fn lemma_listing_unique<K>(
    a: Seq<TaskInfoView>,
    b: Seq<TaskInfoView>,
    registry: Map<Seq<char>, Registered<K>>,
)
    requires
        lists(a, registry),
        lists(b, registry),
    ensures
        a == b,
{
    lemma_listing_prefix(a, b, registry, a.len() as int);
    lemma_listing_prefix(b, a, registry, b.len() as int);
    assert(a =~= b);
}

/// A registered name occurs in the listing exactly once, with the detail
/// that the registry holds under it.
pub proof fn lemma_listed_once<K>(
    listing: Seq<TaskInfoView>,
    registry: Map<Seq<char>, Registered<K>>,
    name: Seq<char>,
)
    requires
        lists(listing, registry),
        registry.contains_key(name),
    ensures
        exists|i: int|
            0 <= i < listing.len() && #[trigger] listing[i].name == name && listing[i].detail
                == registry[name].detail && forall|j: int|
                0 <= j < listing.len() && #[trigger] listing[j].name == name ==> j == i,
{
    let i = choose|i: int| 0 <= i < listing.len() && #[trigger] listing[i].name == name;
    assert forall|j: int| 0 <= j < listing.len() && #[trigger] listing[j].name == name implies j
        == i by {
        if j < i {
            lemma_name_lt_asymmetric(listing[j].name, listing[i].name);
        } else if i < j {
            lemma_name_lt_asymmetric(listing[i].name, listing[j].name);
        }
    }
}

/// Registering under a name that is taken replaces what was there: after
/// two registrations under one name the registry is as if only the second
/// had been made, and holds one entry under that name, the second.
pub proof fn lemma_register_again<K>(
    registry: Map<Seq<char>, Registered<K>>,
    name: Seq<char>,
    first: Registered<K>,
    second: Registered<K>,
)
    ensures
        registry.insert(name, first).insert(name, second) == registry.insert(name, second),
        registry.insert(name, first).insert(name, second)[name] == second,
        registry.insert(name, first).insert(name, second).dom() == registry.dom().insert(name),
{
}

impl<K> View for Tasks<K> {
    type V = Map<Seq<char>, Registered<K>>;

    /// What is registered under each name.
    closed spec fn view(&self) -> Map<Seq<char>, Registered<K>> {
        self.registry@.map_values(|s: Slot<K>| Registered { detail: s.detail@, task: s.task })
    }
}

impl<K> Default for Tasks<K> {
    /// A registry with no task in it.
    fn default() -> (tasks: Self)
        ensures
            tasks@ == Map::<Seq<char>, Registered<K>>::empty(),
    {
        Tasks { registry: SortedMap::new() }
    }
}

impl<K> Tasks<K> {
    /// The descriptors of all registered tasks, in ascending order of their
    /// names.
    pub fn list(&self) -> (tasks: Vec<TaskInfo>)
        ensures
            lists(descriptors(tasks@), self@),
            self@.dom().finite(),
            tasks@.len() == self@.dom().len(),
    {
        let n = self.registry.len();
        let mut tasks: Vec<TaskInfo> = Vec::new();
        let mut i: usize = 0;
        while i < n
            invariant
                n == self.registry.keys().len(),
                i <= n,
                tasks@.len() == i,
                forall|j: int|
                    0 <= j < i ==> (#[trigger] tasks@[j]).name@ == self.registry.keys()[j]
                        && self@.contains_key(tasks@[j].name@) && tasks@[j].detail@
                        == self@[tasks@[j].name@].detail,
            decreases n - i,
        {
            let (name, slot) = self.registry.entry(i);
            tasks.push(TaskInfo { name: name.clone(), detail: slot.detail.clone() });
            i += 1;
        }
        proof {
            let listing = descriptors(tasks@);
            let keys = self.registry.keys();
            assert forall|j: int| 0 <= j < listing.len() implies (#[trigger] listing[j]).name == keys[j]
                && self@.contains_key(listing[j].name) && listing[j].detail
                == self@[listing[j].name].detail by {
                assert(listing[j] == tasks@[j]@);
            }
            assert forall|name: Seq<char>| #[trigger] self@.contains_key(name) implies exists|j: int|
                0 <= j < listing.len() && #[trigger] listing[j].name == name by {
                assert(keys.contains(name));
                let j = keys.index_of(name);
                assert(listing[j].name == name);
            }
            assert(self@.dom() =~= self.registry@.dom());
        }
        tasks
    }

    /// Puts `task` into the registry under the name of `info`, with the
    /// detail of `info`. A task that was registered under that name before
    /// is replaced.
    pub fn register_as(&mut self, info: TaskInfo, task: K)
        ensures
            final(self)@ == old(self)@.insert(info.name@, Registered { detail: info.detail@, task }),
    {
        self.registry.insert(info.name, Slot { detail: info.detail, task });
    }

    /// Registers `task` under the name it gives itself. A task that was
    /// registered under that name before is replaced.
    pub fn register<C>(&mut self, task: K) where K: Task<C>
        ensures
            exists|info: TaskInfo| #[trigger]
                call_ensures(<K as Task<C>>::task, (&task,), info) && final(self)@ == old(self)@.insert(
                    info.name@,
                    Registered { detail: info.detail@, task },
                ),
    {
        let info = task.task();
        self.register_as(info, task);
    }

    /// The task registered under the name `task`.
    pub fn dispatch(&self, task: &str) -> (r: Result<&K, Error>)
        ensures
            match r {
                Ok(found) => self@.contains_key(task@) && *found == self@[task@].task,
                Err(e) => !self@.contains_key(task@) && e@ == ErrorView::TaskNotFound(task@),
            },
    {
        match self.registry.get(task) {
            Some(slot) => Ok(&slot.task),
            None => Err(Error::TaskNotFound(task.to_owned())),
        }
    }

    /// Runs the task registered under the name `task` with the given context
    /// and arguments, and returns what it returns. Where no task has that
    /// name, nothing is run.
    pub fn run<C>(&self, app_context: &C, task: &str, vars: &Vars) -> (r: Result<(), Error>) where
        K: Task<C>,
        ensures
            !self@.contains_key(task@) ==> (r matches Err(e) && e@ == ErrorView::TaskNotFound(task@)),
            self@.contains_key(task@) ==> call_ensures(
                <K as Task<C>>::run,
                (&self@[task@].task, app_context, vars),
                r,
            ),
    {
        match self.dispatch(task) {
            Ok(found) => found.run(app_context, vars),
            Err(e) => Err(e),
        }
    }
}

} // verus!
