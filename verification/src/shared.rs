//! The state that every stack of a process shares: the global frame, the
//! universal variables, the two flags that govern their synchronization,
//! and the export lines of the shared variables, which are computed when
//! they are first asked for and dropped when a shared variable is written.

use crate::model::{
    export_line, named_in, shared_export_listing, shared_exported, shared_exports_as, SharedView,
};
use crate::table::{entry, pairs, table_of, VarTable, Vars};
use crate::universal::{
    describes_diff, has_pending, merged, reports_change, CallbackData, EnvUniversal, Event,
    EventKind, UniversalView,
};
use crate::text::push_char;
use crate::var::{EnvVar, VarView};
use vstd::prelude::*;

verus! {

/// The process-wide part of the environment. One value of this type is
/// made at startup and handed to every operation that reads or writes
/// variables; the stacks and snapshots of the process all work on it.
#[derive(Debug)]
pub struct SharedEnv {
    globals: VarTable,
    uvars: EnvUniversal,
    locally_modified: bool,
    scope_is_global: bool,
    /// The exported variables of the global frame and the universal store
    /// with their export lines, as far as they are computed: every write
    /// to either of the two drops them.
    exports: Option<Vec<(String, String)>>,
}

impl View for SharedEnv {
    type V = SharedView;

    closed spec fn view(&self) -> SharedView {
        SharedView {
            globals: self.globals@,
            universal: self.uvars@.vars,
            synced: self.uvars@.synced,
            dirty: self.locally_modified,
            degraded: self.scope_is_global,
        }
    }
}

/// The universal part of the shared state.
pub open spec fn universal_of(shared: SharedView) -> UniversalView {
    UniversalView { vars: shared.universal, synced: shared.synced }
}

/// Whether a synchronization is due: the universal scope is in use, and
/// either the caller insists or this instance has written a universal
/// variable since the last one.
pub open spec fn sync_due(shared: SharedView, always: bool) -> bool {
    !shared.degraded && (always || shared.dirty)
}

/// The result of a synchronization of the universal variables.
#[derive(Debug)]
pub struct SyncOutcome {
    /// One event for each variable that the synchronization changed. The
    /// caller signals the change of each name to the rest of the shell
    /// before it hands the events on.
    pub events: Vec<Event>,
    /// The other instances are to be woken: this instance had changes of
    /// its own, which the caller now writes to the external store.
    pub notify: bool,
}

/// Whether `events` tells the difference between `base` and `now`: a set
/// event for each name that appeared or changed, an erase event for each
/// name that disappeared, and no other event.
pub open spec fn events_describe(events: Seq<Event>, base: Vars, now: Vars) -> bool {
    &&& forall|i: int|
        0 <= i < events.len() ==> entry(base, (#[trigger] events[i]).name@) != entry(
            now,
            events[i].name@,
        ) && events[i].kind == (if now.contains_key(events[i].name@) {
            EventKind::VariableSet
        } else {
            EventKind::VariableErase
        })
    &&& forall|n: Seq<char>|
        entry(base, n) != entry(now, n) ==> exists|i: int|
            0 <= i < events.len() && (#[trigger] events[i]).name@ == n
    &&& forall|i: int, j: int|
        0 <= i < j < events.len() ==> (#[trigger] events[i]).name@ != (#[trigger] events[j]).name@
}

/// Whether `event` tells of the change `cb`: it names the variable of the
/// change, and is an erase event for a change without a record, a set
/// event for a change with one.
pub open spec fn tells_of(event: Event, cb: CallbackData) -> bool {
    event.name@ == cb.key@ && event.kind == (if cb.val is None {
        EventKind::VariableErase
    } else {
        EventKind::VariableSet
    })
}

/// Whether `events` tell of the changes `callbacks` one by one, in their
/// order.
pub open spec fn events_follow(events: Seq<Event>, callbacks: Seq<CallbackData>) -> bool {
    &&& events.len() == callbacks.len()
    &&& forall|i: int| 0 <= i < events.len() ==> tells_of(#[trigger] events[i], callbacks[i])
}

/// Events that follow the changes between two tables tell the difference
/// between the tables.
pub proof fn lemma_events_describe(
    events: Seq<Event>,
    callbacks: Seq<CallbackData>,
    base: Vars,
    now: Vars,
)
    requires
        events_follow(events, callbacks),
        describes_diff(callbacks, base, now),
    ensures
        events_describe(events, base, now),
{
    assert forall|j: int| 0 <= j < events.len() implies entry(base, (#[trigger] events[j]).name@)
        != entry(now, events[j].name@) && events[j].kind == (if now.contains_key(
        events[j].name@,
    ) {
        EventKind::VariableSet
    } else {
        EventKind::VariableErase
    }) by {
        assert(tells_of(events[j], callbacks[j]));
        assert(reports_change(callbacks[j], base, now));
    }
    assert forall|n: Seq<char>| entry(base, n) != entry(now, n) implies exists|j: int|
        0 <= j < events.len() && (#[trigger] events[j]).name@ == n by {
        let j = choose|j: int| 0 <= j < callbacks.len() && (#[trigger] callbacks[j]).key@ == n;
        assert(tells_of(events[j], callbacks[j]));
    }
    assert forall|a: int, b: int| 0 <= a < b < events.len() implies (#[trigger] events[a]).name@
        != (#[trigger] events[b]).name@ by {
        assert(tells_of(events[a], callbacks[a]));
        assert(tells_of(events[b], callbacks[b]));
        assert(callbacks[a].key@ != callbacks[b].key@);
    }
}

/// The events that tell of the changes `callbacks`: one event for each
/// change, in the order of the changes, an erase event for a change
/// without a record and a set event for a change with one.
pub fn events_of(callbacks: &Vec<CallbackData>) -> (r: Vec<Event>)
    ensures
        events_follow(r@, callbacks@),
{
    let mut events: Vec<Event> = Vec::new();
    let mut i: usize = 0;
    while i < callbacks.len()
        invariant
            i <= callbacks.len(),
            events.len() == i,
            forall|j: int| 0 <= j < i ==> tells_of(#[trigger] events@[j], callbacks@[j]),
        decreases callbacks.len() - i,
    {
        let name = callbacks[i].key.clone();
        let event = if callbacks[i].val.is_none() {
            Event::variable_erase(name)
        } else {
            Event::variable_set(name)
        };
        events.push(event);
        i += 1;
    }
    events
}

/// The shared state after a synchronization with a store that holds
/// `stored`: the universal variables are reconciled and the dirty flag is
/// down.
pub open spec fn synced_state(shared: SharedView, stored: Vars) -> SharedView {
    SharedView {
        universal: merged(universal_of(shared), stored),
        synced: merged(universal_of(shared), stored),
        dirty: false,
        ..shared
    }
}

/// The line `NAME=value` that hands `var` to a child process under `name`.
pub fn make_export_line(name: &str, var: &EnvVar) -> (r: String)
    ensures
        r@ == export_line(name@, var@),
{
    let mut line = name.to_owned();
    push_char(&mut line, '=');
    line.append(var.as_string().as_str());
    line
}

impl SharedEnv {
    #[verifier::type_invariant]
    closed spec fn cache_holds(&self) -> bool {
        self.exports matches Some(list) ==> shared_export_listing(
            list@,
            self.globals@,
            self.uvars@.vars,
        )
    }

    /// Whether the export lines of the shared variables are at hand, so
    /// that the next export list need not compute them.
    pub closed spec fn exports_cached(&self) -> bool {
        self.exports is Some
    }

    /// Whether the export lines of the shared variables are at hand.
    pub fn has_export_cache(&self) -> (r: bool)
        ensures
            r == self.exports_cached(),
    {
        self.exports.is_some()
    }

    /// The exported variables of the global frame and of the universal
    /// store, each with its export line. A universal variable counts only
    /// where no global variable has its name.
    fn compute_exports(&self) -> (r: Vec<(String, String)>)
        ensures
            shared_export_listing(r@, self.globals@, self.uvars@.vars),
    {
        let globals = &self.globals;
        let universal = self.uvars.get_table();
        let ghost g = globals@;
        let ghost u = universal@;
        let mut list: Vec<(String, String)> = Vec::new();
        let ghost mut src: Seq<int> = Seq::empty();
        let count = globals.len();
        let mut i: usize = 0;
        while i < count
            invariant
                i <= count == globals.keys().len(),
                g == globals@,
                list.len() == src.len(),
                forall|x: int| 0 <= x < src.len() ==> 0 <= #[trigger] src[x] < i,
                forall|x: int, y: int|
                    0 <= x < y < src.len() ==> #[trigger] src[x] < #[trigger] src[y],
                forall|x: int|
                    0 <= x < src.len() ==> (#[trigger] list@[x]).0@ == globals.keys()[src[x]]
                        && g.contains_key(list@[x].0@) && shared_exports_as(
                        g,
                        u,
                        list@[x].0@,
                        list@[x].1@,
                    ),
                forall|j: int|
                    0 <= j < i && shared_exported(g, u, #[trigger] globals.keys()[j]) ==> exists|
                        x: int,
                    | 0 <= x < src.len() && src[x] == j,
            decreases count - i,
        {
            let (key, var) = globals.entry(i);
            let ghost prev = list@;
            let ghost old_src = src;
            if var.exports() {
                list.push((key.clone(), make_export_line(key.as_str(), var)));
                proof {
                    src = src.push(i as int);
                    assert forall|x: int| 0 <= x < src.len() implies (#[trigger] list@[x]).0@
                        == globals.keys()[src[x]] && g.contains_key(list@[x].0@)
                        && shared_exports_as(g, u, list@[x].0@, list@[x].1@) by {
                        if x < old_src.len() {
                            assert(list@[x] == prev[x]);
                        }
                    }
                }
            }
            proof {
                assert forall|j: int|
                    0 <= j < i + 1 && shared_exported(
                        g,
                        u,
                        #[trigger] globals.keys()[j],
                    ) implies exists|x: int| 0 <= x < src.len() && src[x] == j by {
                    if j < i {
                        let x = choose|x: int| 0 <= x < old_src.len() && old_src[x] == j;
                        assert(src[x] == j);
                    } else {
                        assert(src[old_src.len() as int] == j);
                    }
                }
            }
            i += 1;
        }
        let ghost mid = list@.len();
        let ghost first = src;
        let ghost mut more: Seq<int> = Seq::empty();
        let others = universal.len();
        let mut k: usize = 0;
        while k < others
            invariant
                k <= others == universal.keys().len(),
                count == globals.keys().len(),
                g == globals@,
                u == universal@,
                mid == first.len(),
                list.len() == mid + more.len(),
                forall|x: int| 0 <= x < first.len() ==> 0 <= #[trigger] first[x] < count,
                forall|x: int, y: int|
                    0 <= x < y < first.len() ==> #[trigger] first[x] < #[trigger] first[y],
                forall|x: int|
                    0 <= x < first.len() ==> (#[trigger] list@[x]).0@ == globals.keys()[first[x]]
                        && g.contains_key(list@[x].0@) && shared_exports_as(
                        g,
                        u,
                        list@[x].0@,
                        list@[x].1@,
                    ),
                forall|j: int|
                    0 <= j < count && shared_exported(g, u, #[trigger] globals.keys()[j])
                        ==> exists|x: int| 0 <= x < first.len() && first[x] == j,
                forall|x: int| 0 <= x < more.len() ==> 0 <= #[trigger] more[x] < k,
                forall|x: int, y: int|
                    0 <= x < y < more.len() ==> #[trigger] more[x] < #[trigger] more[y],
                forall|x: int|
                    0 <= x < more.len() ==> (#[trigger] list@[mid + x]).0@
                        == universal.keys()[more[x]] && !g.contains_key(list@[mid + x].0@)
                        && shared_exports_as(g, u, list@[mid + x].0@, list@[mid + x].1@),
                forall|j: int|
                    0 <= j < k && !g.contains_key(#[trigger] universal.keys()[j])
                        && shared_exported(g, u, universal.keys()[j]) ==> exists|x: int|
                        0 <= x < more.len() && more[x] == j,
            decreases others - k,
        {
            let (key, var) = universal.entry(k);
            let ghost prev = list@;
            let ghost old_more = more;
            if var.exports() && !globals.contains(key.as_str()) {
                list.push((key.clone(), make_export_line(key.as_str(), var)));
                proof {
                    more = more.push(k as int);
                    assert forall|x: int| 0 <= x < first.len() implies (#[trigger] list@[x]).0@
                        == globals.keys()[first[x]] && g.contains_key(list@[x].0@)
                        && shared_exports_as(g, u, list@[x].0@, list@[x].1@) by {
                        assert(list@[x] == prev[x]);
                    }
                    assert forall|x: int| 0 <= x < more.len() implies (#[trigger] list@[mid
                        + x]).0@ == universal.keys()[more[x]] && !g.contains_key(
                        list@[mid + x].0@,
                    ) && shared_exports_as(g, u, list@[mid + x].0@, list@[mid + x].1@) by {
                        if x < old_more.len() {
                            assert(list@[mid + x] == prev[mid + x]);
                        }
                    }
                }
            }
            proof {
                assert forall|j: int|
                    0 <= j < k + 1 && !g.contains_key(#[trigger] universal.keys()[j])
                        && shared_exported(g, u, universal.keys()[j]) implies exists|x: int|
                    0 <= x < more.len() && more[x] == j by {
                    if j < k {
                        let x = choose|x: int| 0 <= x < old_more.len() && old_more[x] == j;
                        assert(more[x] == j);
                    } else {
                        assert(more[old_more.len() as int] == j);
                    }
                }
            }
            k += 1;
        }
        proof {
            globals.lemma_keys_are_domain();
            universal.lemma_keys_are_domain();
            let gk = globals.keys();
            let uk = universal.keys();
            assert(gk.no_duplicates() && uk.no_duplicates());
            assert forall|x: int, y: int| 0 <= x < y < list@.len() implies (#[trigger] list@[x]).0@
                != (#[trigger] list@[y]).0@ by {
                if y < mid {
                    assert(first[x] < first[y]);
                } else if x >= mid {
                    assert(list@[mid + (x - mid)] == list@[x]);
                    assert(list@[mid + (y - mid)] == list@[y]);
                    assert(more[x - mid] < more[y - mid]);
                } else {
                    assert(list@[mid + (y - mid)] == list@[y]);
                    assert(g.contains_key(list@[x].0@));
                }
            }
            assert forall|x: int| 0 <= x < list@.len() implies shared_exports_as(
                g,
                u,
                (#[trigger] list@[x]).0@,
                list@[x].1@,
            ) by {
                if x >= mid {
                    assert(list@[mid + (x - mid)] == list@[x]);
                } else {
                    assert(0 <= first[x]);
                }
            }
            assert forall|n: Seq<char>| shared_exported(g, u, n) implies named_in(list@, n) by {
                if g.contains_key(n) {
                    let j = gk.index_of(n);
                    assert(gk[j] == n);
                    let x = choose|x: int| 0 <= x < first.len() && first[x] == j;
                    assert(list@[x].0@ == n);
                } else {
                    let j = uk.index_of(n);
                    assert(uk[j] == n);
                    let x = choose|x: int| 0 <= x < more.len() && more[x] == j;
                    assert(list@[mid + x].0@ == n);
                }
            }
        }
        list
    }

    /// Computes the export lines of the shared variables unless they are
    /// at hand.
    pub(crate) fn refresh_exports(&mut self)
        ensures
            final(self)@ == old(self)@,
            final(self).exports_cached(),
    {
        proof {
            use_type_invariant(&*self);
        }
        if self.exports.is_none() {
            let list = self.compute_exports();
            self.exports = Some(list);
        }
    }

    /// The exported variables of the shared tiers with their export lines,
    /// if they are at hand.
    pub(crate) fn cached_exports(&self) -> (r: Option<&Vec<(String, String)>>)
        ensures
            r is Some == self.exports_cached(),
            r matches Some(list) ==> shared_export_listing(
                list@,
                self@.globals,
                self@.universal,
            ),
    {
        proof {
            use_type_invariant(self);
        }
        self.exports.as_ref()
    }

    /// The shared state of a process that has no variables yet: nothing is
    /// to be synchronized, the universal scope is in use, and no export
    /// lines are at hand.
    pub fn new() -> (r: SharedEnv)
        ensures
            r@.globals == Map::<Seq<char>, VarView>::empty(),
            r@.universal == Map::<Seq<char>, VarView>::empty(),
            r@.synced == Map::<Seq<char>, VarView>::empty(),
            !r@.dirty,
            !r@.degraded,
            !r.exports_cached(),
    {
        SharedEnv {
            globals: VarTable::new(),
            uvars: EnvUniversal::new(),
            locally_modified: false,
            scope_is_global: false,
            exports: None,
        }
    }

    /// The shared state of a process whose global frame starts with the
    /// records of `vars`, such as those inherited from the parent process.
    pub fn with_globals(vars: &Vec<(String, EnvVar)>) -> (r: SharedEnv)
        ensures
            r@.globals == table_of(pairs(vars@)),
            r@.universal == Map::<Seq<char>, VarView>::empty(),
            r@.synced == Map::<Seq<char>, VarView>::empty(),
            !r@.dirty,
            !r@.degraded,
            !r.exports_cached(),
    {
        SharedEnv {
            globals: VarTable::from_pairs(vars),
            uvars: EnvUniversal::new(),
            locally_modified: false,
            scope_is_global: false,
            exports: None,
        }
    }

    /// The global frame.
    pub fn globals(&self) -> (r: &VarTable)
        ensures
            r@ == self@.globals,
    {
        &self.globals
    }

    /// The universal variables.
    pub fn uvars(&self) -> (r: &EnvUniversal)
        ensures
            r@ == universal_of(self@),
    {
        &self.uvars
    }

    /// Whether a universal variable was written and not synchronized yet.
    pub fn uvars_locally_modified(&self) -> (r: bool)
        ensures
            r == self@.dirty,
    {
        self.locally_modified
    }

    /// Whether the universal scope is switched off.
    pub fn uvar_scope_is_global(&self) -> (r: bool)
        ensures
            r == self@.degraded,
    {
        self.scope_is_global
    }

    /// Switches the universal scope off.
    pub fn disable_universal_scope(&mut self)
        ensures
            final(self)@ == (SharedView { degraded: true, ..old(self)@ }),
            final(self).exports_cached() == old(self).exports_cached(),
    {
        proof {
            use_type_invariant(&*self);
        }
        self.scope_is_global = true;
    }

    /// Whether a synchronization is due. Where it is not, there is no
    /// reason to look at the external store.
    pub fn sync_needed(&self, always: bool) -> (r: bool)
        ensures
            r == sync_due(self@, always),
    {
        !self.scope_is_global && (always || self.locally_modified)
    }

    /// Binds `key` to `var` in the global frame.
    pub(crate) fn put_global(&mut self, key: String, var: EnvVar)
        ensures
            final(self)@ == (SharedView {
                globals: old(self)@.globals.insert(key@, var@),
                ..old(self)@
            }),
            !final(self).exports_cached(),
    {
        self.exports = None;
        let mut globals = VarTable::new();
        core::mem::swap(&mut self.globals, &mut globals);
        globals.insert(key, var);
        self.globals = globals;
    }

    /// Takes `key` out of the global frame.
    pub(crate) fn drop_global(&mut self, key: &str)
        ensures
            final(self)@ == (SharedView { globals: old(self)@.globals.remove(key@), ..old(self)@ }),
            !final(self).exports_cached(),
    {
        self.exports = None;
        let mut globals = VarTable::new();
        core::mem::swap(&mut self.globals, &mut globals);
        globals.remove(key);
        self.globals = globals;
    }

    /// Binds `key` to `var` among the universal variables, and raises the
    /// dirty flag.
    pub(crate) fn put_universal(&mut self, key: String, var: EnvVar)
        ensures
            final(self)@ == (SharedView {
                universal: old(self)@.universal.insert(key@, var@),
                dirty: true,
                ..old(self)@
            }),
            !final(self).exports_cached(),
    {
        self.exports = None;
        let mut uvars = EnvUniversal::new();
        core::mem::swap(&mut self.uvars, &mut uvars);
        uvars.set(key, var);
        self.uvars = uvars;
        self.locally_modified = true;
    }

    /// Takes `key` out of the universal variables, and raises the dirty
    /// flag.
    pub(crate) fn drop_universal(&mut self, key: &str)
        ensures
            final(self)@ == (SharedView {
                universal: old(self)@.universal.remove(key@),
                dirty: true,
                ..old(self)@
            }),
            !final(self).exports_cached(),
    {
        self.exports = None;
        let mut uvars = EnvUniversal::new();
        core::mem::swap(&mut self.uvars, &mut uvars);
        uvars.remove(key);
        self.uvars = uvars;
        self.locally_modified = true;
    }

    /// Loads the universal variables from what the external store holds at
    /// startup; see `EnvUniversal::initialize`.
    pub(crate) fn initialize(
        &mut self,
        stored: &Vec<(String, EnvVar)>,
        callbacks: &mut Vec<CallbackData>,
    )
        ensures
            final(self)@ == (SharedView {
                universal: table_of(pairs(stored@)),
                synced: table_of(pairs(stored@)),
                ..old(self)@
            }),
            final(callbacks)@.len() >= old(callbacks)@.len(),
            final(callbacks)@.take(old(callbacks)@.len() as int) == old(callbacks)@,
            describes_diff(
                final(callbacks)@.skip(old(callbacks)@.len() as int),
                Map::empty(),
                table_of(pairs(stored@)),
            ),
            !final(self).exports_cached(),
    {
        self.exports = None;
        let mut uvars = EnvUniversal::new();
        core::mem::swap(&mut self.uvars, &mut uvars);
        uvars.initialize(stored, callbacks);
        self.uvars = uvars;
    }

    /// Reconciles the universal variables with a store that holds `stored`
    /// and lowers the dirty flag; see `EnvUniversal::sync`.
    pub(crate) fn sync(
        &mut self,
        stored: &Vec<(String, EnvVar)>,
        callbacks: &mut Vec<CallbackData>,
    ) -> (changed: bool)
        ensures
            final(self)@ == (SharedView {
                universal: merged(universal_of(old(self)@), table_of(pairs(stored@))),
                synced: merged(universal_of(old(self)@), table_of(pairs(stored@))),
                dirty: false,
                ..old(self)@
            }),
            changed == has_pending(universal_of(old(self)@)),
            final(callbacks)@.len() >= old(callbacks)@.len(),
            final(callbacks)@.take(old(callbacks)@.len() as int) == old(callbacks)@,
            describes_diff(
                final(callbacks)@.skip(old(callbacks)@.len() as int),
                old(self)@.synced,
                final(self)@.universal,
            ),
            !final(self).exports_cached(),
    {
        self.exports = None;
        self.locally_modified = false;
        let mut uvars = EnvUniversal::new();
        core::mem::swap(&mut self.uvars, &mut uvars);
        let changed = uvars.sync(stored, callbacks);
        self.uvars = uvars;
        changed
    }

    /// Synchronizes the universal variables with the external store.
    ///
    /// Nothing happens where no synchronization is due: where the
    /// universal scope is switched off, or where `always` is not set and
    /// this instance has written no universal variable since the last
    /// synchronization. A caller asks `sync_needed` first and so
    /// spares itself the reading of the store. A synchronization that is
    /// due lowers the dirty flag. `stored` is what the store holds, or
    /// `None` where it could not be read, which is taken as no change at
    /// all. Otherwise this instance's own changes stay, all else is
    /// taken from the store, and the result holds one event for every
    /// variable that differs from what the last synchronization left.
    pub fn universal_sync(&mut self, always: bool, stored: Option<Vec<(String, EnvVar)>>) -> (r:
        SyncOutcome)
        ensures
            !sync_due(old(self)@, always) ==> final(self)@ == old(self)@ && r.events@.len() == 0
                && !r.notify,
            sync_due(old(self)@, always) && stored is None ==> final(self)@ == (SharedView {
                dirty: false,
                ..old(self)@
            }) && r.events@.len() == 0 && !r.notify,
            sync_due(old(self)@, always) && stored is Some ==> final(self)@ == synced_state(
                old(self)@,
                table_of(pairs(stored->0@)),
            ) && r.notify == has_pending(universal_of(old(self)@)) && events_describe(
                r.events@,
                old(self)@.synced,
                final(self)@.universal,
            ) && !final(self).exports_cached(),
            !sync_due(old(self)@, always) || stored is None ==> final(self).exports_cached()
                == old(self).exports_cached(),
    {
        if !self.sync_needed(always) {
            return SyncOutcome { events: Vec::new(), notify: false };
        }
        match stored {
            None => {
                proof {
                    use_type_invariant(&*self);
                }
                self.locally_modified = false;
                SyncOutcome { events: Vec::new(), notify: false }
            },
            Some(list) => {
                let ghost base = self@.synced;
                let mut callbacks: Vec<CallbackData> = Vec::new();
                let changed = self.sync(&list, &mut callbacks);
                assert(callbacks@.skip(0) =~= callbacks@);
                let events = events_of(&callbacks);
                proof {
                    lemma_events_describe(events@, callbacks@, base, self@.universal);
                }
                SyncOutcome { events, notify: changed }
            },
        }
    }
}

} // verus!
