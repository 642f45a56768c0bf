//! Universal variables: the variables that all running instances of the
//! shell share through an external store. This module keeps one instance's
//! view of them, reconciles it with what the store holds, and reports what
//! the reconciliation changed.

use crate::table::{entry, pairs, table_of, VarTable, Vars};
use crate::var::{opt_view, EnvVar, VarView};
use vstd::prelude::*;

verus! {

/// One change that a reconciliation made: the variable `key` now has the
/// record `val`, or is gone where `val` is `None`.
#[derive(Debug)]
pub struct CallbackData {
    pub key: String,
    pub val: Option<EnvVar>,
}

/// The changes of one reconciliation.
pub type CallbackDataList = Vec<CallbackData>;

/// What an event says of a variable.
#[derive(Clone, Copy, Debug, PartialEq, Eq, Structural)]
pub enum EventKind {
    /// The variable was set.
    VariableSet,
    /// The variable was erased.
    VariableErase,
}

/// A change of a variable, as handed to the shell's event handlers.
#[derive(Debug)]
pub struct Event {
    pub kind: EventKind,
    pub name: String,
}

impl Event {
    /// The event that the variable `name` was set.
    pub fn variable_set(name: String) -> (r: Event)
        ensures
            r.kind == EventKind::VariableSet,
            r.name == name,
    {
        Event { kind: EventKind::VariableSet, name }
    }

    /// The event that the variable `name` was erased.
    pub fn variable_erase(name: String) -> (r: Event)
        ensures
            r.kind == EventKind::VariableErase,
            r.name == name,
    {
        Event { kind: EventKind::VariableErase, name }
    }
}

/// One instance's knowledge of the universal variables.
pub struct UniversalView {
    /// The variables as this instance sees them, its own uncommitted writes
    /// included.
    pub vars: Vars,
    /// The variables as the last reconciliation left them.
    pub synced: Vars,
}

/// Whether this instance has changed `name` since the last reconciliation.
pub open spec fn pending(u: UniversalView, name: Seq<char>) -> bool {
    entry(u.vars, name) != entry(u.synced, name)
}

/// Whether this instance has changed any variable since the last
/// reconciliation.
pub open spec fn has_pending(u: UniversalView) -> bool {
    exists|n: Seq<char>| pending(u, n)
}

/// The variables after a reconciliation with a store that holds `stored`:
/// what this instance has changed stays as it has it, everything else is
/// taken from the store.
pub open spec fn merged(u: UniversalView, stored: Vars) -> Vars {
    Map::new(
        |n: Seq<char>|
            if pending(u, n) {
                u.vars.contains_key(n)
            } else {
                stored.contains_key(n)
            },
        |n: Seq<char>|
            if pending(u, n) {
                u.vars[n]
            } else {
                stored[n]
            },
    )
}

/// Whether `cb` reports the change of its variable from `base` to `now`.
pub open spec fn reports_change(cb: CallbackData, base: Vars, now: Vars) -> bool {
    entry(base, cb.key@) != entry(now, cb.key@) && opt_view(cb.val) == entry(now, cb.key@)
}

/// Whether `cbs` is the difference between `base` and `now`: one entry for
/// each name whose record appeared, changed or disappeared, and no other.
pub open spec fn describes_diff(cbs: Seq<CallbackData>, base: Vars, now: Vars) -> bool {
    &&& forall|i: int| 0 <= i < cbs.len() ==> reports_change(#[trigger] cbs[i], base, now)
    &&& forall|n: Seq<char>|
        entry(base, n) != entry(now, n) ==> exists|i: int|
            0 <= i < cbs.len() && (#[trigger] cbs[i]).key@ == n
    &&& forall|i: int, j: int|
        0 <= i < j < cbs.len() ==> (#[trigger] cbs[i]).key@ != (#[trigger] cbs[j]).key@
}

/// The view of an optional reference to a record.
pub open spec fn opt_ref_view(v: Option<&EnvVar>) -> Option<VarView> {
    match v {
        Some(var) => Some(var@),
        None => None,
    }
}

pub(crate) fn opt_same(a: Option<&EnvVar>, b: Option<&EnvVar>) -> (r: bool)
    ensures
        r == (opt_ref_view(a) == opt_ref_view(b)),
{
    match (a, b) {
        (Some(x), Some(y)) => x.same_as(y),
        (None, None) => true,
        _ => false,
    }
}

/// Appends to `callbacks` the difference between the tables `base` and
/// `now`.
pub fn push_diff(base: &VarTable, now: &VarTable, callbacks: &mut Vec<CallbackData>)
    ensures
        final(callbacks)@.len() >= old(callbacks)@.len(),
        final(callbacks)@.take(old(callbacks)@.len() as int) == old(callbacks)@,
        describes_diff(final(callbacks)@.skip(old(callbacks)@.len() as int), base@, now@),
{
    let ghost given = callbacks@;
    let ghost start = callbacks@.len();
    let ghost mut src: Seq<int> = Seq::empty();
    let n_now = now.len();
    let mut i: usize = 0;
    assert(callbacks@.take(start as int) =~= given);
    while i < n_now
        invariant
            i <= n_now == now.keys().len(),
            now.keys().no_duplicates(),
            callbacks@.len() == start + src.len(),
            callbacks@.take(start as int) == given,
            forall|a: int| 0 <= a < src.len() ==> 0 <= #[trigger] src[a] < i,
            forall|a: int, b: int| 0 <= a < b < src.len() ==> #[trigger] src[a] < #[trigger] src[b],
            forall|a: int|
                0 <= a < src.len() ==> (#[trigger] callbacks@[start + a]).key@ == now.keys()[src[a]]
                    && reports_change(callbacks@[start + a], base@, now@),
            forall|j: int|
                0 <= j < i && entry(base@, #[trigger] now.keys()[j]) != entry(now@, now.keys()[j])
                    ==> exists|a: int| 0 <= a < src.len() && src[a] == j,
        decreases n_now - i,
    {
        let (key, var) = now.entry(i);
        if !opt_same(base.get(key.as_str()), Some(var)) {
            let ghost before = callbacks@;
            let ghost old_src = src;
            callbacks.push(CallbackData { key: key.clone(), val: Some(var.clone()) });
            proof {
                src = src.push(i as int);
                assert(callbacks@.take(start as int) =~= before.take(start as int));
                assert forall|a: int| 0 <= a < src.len() implies (#[trigger] callbacks@[start
                    + a]).key@ == now.keys()[src[a]] && reports_change(
                    callbacks@[start + a],
                    base@,
                    now@,
                ) by {
                    if a < old_src.len() {
                        assert(callbacks@[start + a] == before[start + a]);
                    }
                }
                assert forall|j: int|
                    0 <= j < i + 1 && entry(base@, #[trigger] now.keys()[j]) != entry(
                        now@,
                        now.keys()[j],
                    ) implies exists|a: int| 0 <= a < src.len() && src[a] == j by {
                    if j < i {
                        let a = choose|a: int| 0 <= a < old_src.len() && old_src[a] == j;
                        assert(src[a] == j);
                    } else {
                        assert(src[old_src.len() as int] == j);
                    }
                }
            }
        }
        i += 1;
    }
    let ghost mid = callbacks@.len();
    let ghost src_now = src;
    let ghost mut gone: Seq<int> = Seq::empty();
    let n_base = base.len();
    let mut k: usize = 0;
    while k < n_base
        invariant
            k <= n_base == base.keys().len(),
            base.keys().no_duplicates(),
            mid == start + src_now.len(),
            callbacks@.len() == mid + gone.len(),
            callbacks@.take(start as int) == given,
            forall|a: int|
                0 <= a < src_now.len() ==> 0 <= #[trigger] src_now[a] < now.keys().len()
                    && callbacks@[start + a].key@ == now.keys()[src_now[a]] && reports_change(
                    callbacks@[start + a],
                    base@,
                    now@,
                ),
            forall|a: int| 0 <= a < gone.len() ==> 0 <= #[trigger] gone[a] < k,
            forall|a: int, b: int|
                0 <= a < b < gone.len() ==> #[trigger] gone[a] < #[trigger] gone[b],
            forall|a: int|
                0 <= a < gone.len() ==> (#[trigger] callbacks@[mid + a]).key@ == base.keys()[gone[a]]
                    && !now@.contains_key(callbacks@[mid + a].key@) && reports_change(
                    callbacks@[mid + a],
                    base@,
                    now@,
                ),
            forall|j: int|
                0 <= j < k && !now@.contains_key(#[trigger] base.keys()[j]) ==> exists|a: int|
                    0 <= a < gone.len() && gone[a] == j,
        decreases n_base - k,
    {
        let (key, _var) = base.entry(k);
        if !now.contains(key.as_str()) {
            let ghost before = callbacks@;
            let ghost old_gone = gone;
            callbacks.push(CallbackData { key: key.clone(), val: None });
            proof {
                gone = gone.push(k as int);
                assert(callbacks@.take(start as int) =~= before.take(start as int));
                assert forall|a: int| 0 <= a < src_now.len() implies 0 <= #[trigger] src_now[a]
                    < now.keys().len() && callbacks@[start + a].key@ == now.keys()[src_now[a]]
                    && reports_change(callbacks@[start + a], base@, now@) by {
                    assert(callbacks@[start + a] == before[start + a]);
                }
                assert forall|a: int| 0 <= a < gone.len() implies (#[trigger] callbacks@[mid
                    + a]).key@ == base.keys()[gone[a]] && !now@.contains_key(
                    callbacks@[mid + a].key@,
                ) && reports_change(callbacks@[mid + a], base@, now@) by {
                    if a < old_gone.len() {
                        assert(callbacks@[mid + a] == before[mid + a]);
                    }
                }
                assert forall|j: int|
                    0 <= j < k + 1 && !now@.contains_key(
                        #[trigger] base.keys()[j],
                    ) implies exists|a: int| 0 <= a < gone.len() && gone[a] == j by {
                    if j < k {
                        let a = choose|a: int| 0 <= a < old_gone.len() && old_gone[a] == j;
                        assert(gone[a] == j);
                    } else {
                        assert(gone[old_gone.len() as int] == j);
                    }
                }
            }
        }
        k += 1;
    }
    proof {
        let added = callbacks@.skip(start as int);
        base.lemma_keys_are_domain();
        now.lemma_keys_are_domain();
        assert forall|x: int| 0 <= x < added.len() implies reports_change(
            #[trigger] added[x],
            base@,
            now@,
        ) by {
            assert(added[x] == callbacks@[start + x]);
            if x >= src_now.len() {
                assert(callbacks@[mid + (x - src_now.len())] == added[x]);
            } else {
                assert(0 <= src_now[x]);
            }
        }
        assert forall|n: Seq<char>| entry(base@, n) != entry(now@, n) implies exists|x: int|
            0 <= x < added.len() && (#[trigger] added[x]).key@ == n by {
            if now@.contains_key(n) {
                let j = now.keys().index_of(n);
                assert(now.keys()[j] == n);
                let a = choose|a: int| 0 <= a < src_now.len() && src_now[a] == j;
                assert(added[a] == callbacks@[start + a]);
                assert(added[a].key@ == n);
            } else {
                let j = base.keys().index_of(n);
                assert(base.keys()[j] == n);
                let a = choose|a: int| 0 <= a < gone.len() && gone[a] == j;
                assert(added[src_now.len() + a] == callbacks@[mid + a]);
                assert(added[src_now.len() + a].key@ == n);
            }
        }
        assert forall|x: int, y: int| 0 <= x < y < added.len() implies (#[trigger] added[x]).key@
            != (#[trigger] added[y]).key@ by {
            assert(added[x] == callbacks@[start + x]);
            assert(added[y] == callbacks@[start + y]);
            if y < src_now.len() {
                assert(src_now[x] < src_now[y]);
            } else if x >= src_now.len() {
                let a = x - src_now.len();
                let b = y - src_now.len();
                assert(callbacks@[mid + a] == added[x]);
                assert(callbacks@[mid + b] == added[y]);
                assert(gone[a] < gone[b]);
            } else {
                let b = y - src_now.len();
                assert(callbacks@[mid + b] == added[y]);
                assert(now.keys()[src_now[x]] == added[x].key@);
                assert(now.keys().contains(added[x].key@));
            }
        }
    }
}

/// One instance's view of the universal variables, and the state that the
/// last reconciliation with the external store left.
#[derive(Debug)]
pub struct EnvUniversal {
    vars: VarTable,
    synced: VarTable,
}

impl View for EnvUniversal {
    type V = UniversalView;

    closed spec fn view(&self) -> UniversalView {
        UniversalView { vars: self.vars@, synced: self.synced@ }
    }
}

impl EnvUniversal {
    /// No universal variables, and nothing uncommitted.
    pub fn new() -> (r: EnvUniversal)
        ensures
            r@.vars == Map::<Seq<char>, VarView>::empty(),
            r@.synced == Map::<Seq<char>, VarView>::empty(),
    {
        EnvUniversal { vars: VarTable::new(), synced: VarTable::new() }
    }

    /// The record of `key`, if the variable exists.
    pub fn get(&self, key: &str) -> (r: Option<&EnvVar>)
        ensures
            opt_ref_view(r) == entry(self@.vars, key@),
    {
        self.vars.get(key)
    }

    /// The variables as this instance sees them.
    pub fn get_table(&self) -> (r: &VarTable)
        ensures
            r@ == self@.vars,
    {
        &self.vars
    }

    /// Writes `var` under `key`. The external store learns of it at the next
    /// reconciliation.
    pub fn set(&mut self, key: String, var: EnvVar)
        ensures
            final(self)@ == (UniversalView { vars: old(self)@.vars.insert(key@, var@), ..old(self)@ }),
    {
        self.vars.insert(key, var);
    }

    /// Removes `key`, and says whether the variable existed.
    pub fn remove(&mut self, key: &str) -> (r: bool)
        ensures
            final(self)@ == (UniversalView { vars: old(self)@.vars.remove(key@), ..old(self)@ }),
            r == old(self)@.vars.contains_key(key@),
    {
        self.vars.remove(key)
    }

    /// Whether this instance has changed `key` since the last
    /// reconciliation.
    pub fn is_pending(&self, key: &str) -> (r: bool)
        ensures
            r == pending(self@, key@),
    {
        !opt_same(self.vars.get(key), self.synced.get(key))
    }

    /// Whether this instance has changed any variable since the last
    /// reconciliation.
    pub fn any_pending(&self) -> (r: bool)
        ensures
            r == has_pending(self@),
    {
        let n_vars = self.vars.len();
        let mut i: usize = 0;
        while i < n_vars
            invariant
                i <= n_vars == self.vars.keys().len(),
                forall|j: int| 0 <= j < i ==> !pending(self@, #[trigger] self.vars.keys()[j]),
            decreases n_vars - i,
        {
            let (key, _var) = self.vars.entry(i);
            if self.is_pending(key.as_str()) {
                return true;
            }
            i += 1;
        }
        let n_synced = self.synced.len();
        let mut k: usize = 0;
        while k < n_synced
            invariant
                k <= n_synced == self.synced.keys().len(),
                forall|j: int|
                    0 <= j < self.vars.keys().len() ==> !pending(
                        self@,
                        #[trigger] self.vars.keys()[j],
                    ),
                forall|j: int| 0 <= j < k ==> !pending(self@, #[trigger] self.synced.keys()[j]),
            decreases n_synced - k,
        {
            let (key, _var) = self.synced.entry(k);
            if self.is_pending(key.as_str()) {
                return true;
            }
            k += 1;
        }
        proof {
            self.vars.lemma_keys_are_domain();
            self.synced.lemma_keys_are_domain();
            assert forall|n: Seq<char>| !pending(self@, n) by {
                if self.vars@.contains_key(n) {
                    let j = self.vars.keys().index_of(n);
                    assert(self.vars.keys()[j] == n);
                } else if self.synced@.contains_key(n) {
                    let j = self.synced.keys().index_of(n);
                    assert(self.synced.keys()[j] == n);
                }
            }
        }
        false
    }

    fn merge(&self, stored: &VarTable) -> (m: VarTable)
        ensures
            m@ == merged(self@, stored@),
    {
        let ghost u = self@;
        let mut m = VarTable::new();
        let n_stored = stored.len();
        let mut i: usize = 0;
        while i < n_stored
            invariant
                i <= n_stored == stored.keys().len(),
                u == self@,
                forall|n: Seq<char>| #[trigger]
                    m@.contains_key(n) <==> (!pending(u, n) && exists|j: int|
                        0 <= j < i && stored.keys()[j] == n),
                forall|n: Seq<char>| #[trigger] m@.contains_key(n) ==> m@[n] == stored@[n],
            decreases n_stored - i,
        {
            let (key, var) = stored.entry(i);
            let ghost before = m@;
            if !self.is_pending(key.as_str()) {
                m.insert(key.clone(), var.clone());
            }
            proof {
                let k = key@;
                assert forall|n: Seq<char>| #[trigger]
                    m@.contains_key(n) <==> (!pending(u, n) && exists|j: int|
                        0 <= j < i + 1 && stored.keys()[j] == n) by {
                    if m@.contains_key(n) {
                        if n == k && !before.contains_key(n) {
                            assert(stored.keys()[i as int] == n);
                        } else {
                            assert(before.contains_key(n));
                            let j = choose|j: int| 0 <= j < i && stored.keys()[j] == n;
                            assert(0 <= j < i + 1 && stored.keys()[j] == n);
                        }
                    }
                    if !pending(u, n) && exists|j: int| 0 <= j < i + 1 && stored.keys()[j] == n {
                        let j = choose|j: int| 0 <= j < i + 1 && stored.keys()[j] == n;
                        if j < i {
                            assert(before.contains_key(n));
                        }
                    }
                }
            }
            i += 1;
        }
        proof {
            stored.lemma_keys_are_domain();
            assert forall|n: Seq<char>| #[trigger]
                m@.contains_key(n) <==> (!pending(u, n) && stored@.contains_key(n)) by {
                if !pending(u, n) && stored@.contains_key(n) {
                    let j = stored.keys().index_of(n);
                    assert(stored.keys()[j] == n);
                }
            }
        }
        let n_vars = self.vars.len();
        let mut k: usize = 0;
        while k < n_vars
            invariant
                k <= n_vars == self.vars.keys().len(),
                u == self@,
                forall|n: Seq<char>| #[trigger]
                    m@.contains_key(n) <==> ((!pending(u, n) && stored@.contains_key(n)) || (
                    pending(u, n) && exists|j: int| 0 <= j < k && self.vars.keys()[j] == n)),
                forall|n: Seq<char>| #[trigger]
                    m@.contains_key(n) ==> m@[n] == (if pending(u, n) {
                        u.vars[n]
                    } else {
                        stored@[n]
                    }),
            decreases n_vars - k,
        {
            let (key, var) = self.vars.entry(k);
            let ghost before = m@;
            if self.is_pending(key.as_str()) {
                m.insert(key.clone(), var.clone());
            }
            proof {
                let kk = key@;
                assert forall|n: Seq<char>| #[trigger]
                    m@.contains_key(n) <==> ((!pending(u, n) && stored@.contains_key(n)) || (
                    pending(u, n) && exists|j: int| 0 <= j < k + 1 && self.vars.keys()[j] == n)) by {
                    if m@.contains_key(n) {
                        if before.contains_key(n) {
                            if pending(u, n) {
                                let j = choose|j: int| 0 <= j < k && self.vars.keys()[j] == n;
                                assert(0 <= j < k + 1 && self.vars.keys()[j] == n);
                            }
                        } else {
                            assert(n == kk);
                            assert(self.vars.keys()[k as int] == n);
                        }
                    }
                    if pending(u, n) && exists|j: int|
                        0 <= j < k + 1 && self.vars.keys()[j] == n {
                        let j = choose|j: int| 0 <= j < k + 1 && self.vars.keys()[j] == n;
                        if j < k {
                            assert(before.contains_key(n));
                        }
                    }
                }
            }
            k += 1;
        }
        proof {
            self.vars.lemma_keys_are_domain();
            assert forall|n: Seq<char>|
                m@.contains_key(n) <==> merged(u, stored@).contains_key(n) by {
                if pending(u, n) && u.vars.contains_key(n) {
                    let j = self.vars.keys().index_of(n);
                    assert(self.vars.keys()[j] == n);
                }
            }
            assert(m@ =~= merged(u, stored@));
        }
        m
    }

    /// Takes the universal variables from what the external store holds at
    /// the start of the process. `callbacks` receives one entry for every
    /// variable that the store holds.
    pub fn initialize(&mut self, stored: &Vec<(String, EnvVar)>, callbacks: &mut Vec<CallbackData>)
        ensures
            final(self)@.vars == table_of(pairs(stored@)),
            final(self)@.synced == table_of(pairs(stored@)),
            final(callbacks)@.len() >= old(callbacks)@.len(),
            final(callbacks)@.take(old(callbacks)@.len() as int) == old(callbacks)@,
            describes_diff(
                final(callbacks)@.skip(old(callbacks)@.len() as int),
                Map::empty(),
                table_of(pairs(stored@)),
            ),
    {
        let table = VarTable::from_pairs(stored);
        let nothing = VarTable::new();
        push_diff(&nothing, &table, callbacks);
        self.vars = table.clone();
        self.synced = table;
    }

    /// Reconciles this instance's view with an external store that holds
    /// `stored`. What this instance has changed since the last
    /// reconciliation stays; everything else is taken from the store.
    /// `callbacks` receives one entry for each variable that differs from
    /// what the last reconciliation left. The result says whether this
    /// instance had changes of its own, which the store and the other
    /// instances are yet to learn.
    pub fn sync(
        &mut self,
        stored: &Vec<(String, EnvVar)>,
        callbacks: &mut Vec<CallbackData>,
    ) -> (changed: bool)
        ensures
            final(self)@.vars == merged(old(self)@, table_of(pairs(stored@))),
            final(self)@.synced == final(self)@.vars,
            changed == has_pending(old(self)@),
            final(callbacks)@.len() >= old(callbacks)@.len(),
            final(callbacks)@.take(old(callbacks)@.len() as int) == old(callbacks)@,
            describes_diff(
                final(callbacks)@.skip(old(callbacks)@.len() as int),
                old(self)@.synced,
                final(self)@.vars,
            ),
    {
        let table = VarTable::from_pairs(stored);
        let changed = self.any_pending();
        let now = self.merge(&table);
        push_diff(&self.synced, &now, callbacks);
        self.vars = now.clone();
        self.synced = now;
        changed
    }
}

} // verus!
