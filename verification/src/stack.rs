//! The scoped stack: a chain of local frames over the shared state, with
//! reads, writes, removals, push and pop, snapshots and the export list.

use crate::frame::{
    add_names, clone_frames, collect_names, find_boundary, find_holder, find_visible, frame_views,
    lookup, Frame,
};
use crate::model::{
    after_remove, after_set, changed_names, export_listing, exports_as, frames_after, holder,
    is_export_line, is_exported, is_read_only, lemma_boundary, lemma_holder, lemma_listing_lines,
    lists, named_in, remove_effect, remove_target, report, resolve, set_effect, set_target,
    shared_after, shared_export_listing, shared_exported, shared_exports_as, visible,
    visible_names, write_status, FrameView, SharedView, Target,
};
use crate::path::{canonical_path, normalize_values};
use crate::shared::{
    events_describe, make_export_line, sync_due, synced_state, universal_of, SharedEnv,
    SyncOutcome,
};
use crate::table::{pairs, table_of};
use crate::text::{add_name, distinct_names, listed, strs};
use crate::universal::{has_pending, opt_same};
use crate::var::{
    exported_global_mode, lemma_exported_global_mode, lemma_local_mode, local_mode, opt_view,
    EnvMode,
    EnvStackSetResult, EnvVar, EnvVarFlags, ModResult, Statuses, ENV_EXPORT, ENV_GLOBAL, ENV_LOCAL,
};
use libc::c_int;
use vstd::prelude::*;

verus! {

/// The result of a pop.
#[derive(Debug)]
pub struct PopResult {
    /// The names whose visible record is another now than before the pop.
    pub changed: Vec<String>,
    /// The caller owes the rest of the shell one change notification for
    /// each of these names.
    pub dispatch: bool,
}

/// What a stack is: its chain of local frames, outermost first, whether it
/// is the principal stack, and the statuses of the last job.
pub struct StackView {
    pub frames: Seq<FrameView>,
    pub principal: bool,
    pub status: c_int,
    pub pipestatus: Seq<c_int>,
}

/// A mutable environment: a chain of local frames that can be pushed and
/// popped, over the state that the process shares.
#[derive(Debug)]
pub struct EnvStack {
    locals: Vec<Frame>,
    statuses: Statuses,
    principal: bool,
}

impl View for EnvStack {
    type V = StackView;

    closed spec fn view(&self) -> StackView {
        StackView {
            frames: frame_views(self.locals@),
            principal: self.principal,
            status: self.statuses.status,
            pipestatus: self.statuses.pipestatus@,
        }
    }
}

/// Where a write goes, with the index of a local frame as a machine
/// integer.
enum Place {
    Local(usize),
    Global,
    Universal,
    Nowhere,
}

spec fn place_view(place: Place) -> Target {
    match place {
        Place::Local(i) => Target::Local(i as int),
        Place::Global => Target::Global,
        Place::Universal => Target::Universal,
        Place::Nowhere => Target::Nowhere,
    }
}

fn refused(status: EnvStackSetResult) -> (r: ModResult)
    requires
        status != EnvStackSetResult::ENV_OK,
    ensures
        r == report(status, Target::Nowhere, false),
{
    ModResult { status, global_modified: false, uvar_modified: false, dispatch: false }
}

impl EnvStack {
    /// A stack without local frames that is not the principal one.
    pub fn new() -> (r: EnvStack)
        ensures
            r@.frames.len() == 0,
            !r@.principal,
            r@.status == 0,
            r@.pipestatus == seq![0 as c_int],
    {
        let r = EnvStack { locals: Vec::new(), statuses: Statuses::just(0), principal: false };
        assert(frame_views(r.locals@) =~= Seq::empty());
        r
    }

    /// The stack of a process that only knows global variables: it has no
    /// local frames, and is meant to be neither pushed nor popped.
    pub fn globals() -> (r: EnvStack)
        ensures
            r@.frames.len() == 0,
            !r@.principal,
            r@.status == 0,
            r@.pipestatus == seq![0 as c_int],
    {
        EnvStack::new()
    }

    /// The principal stack: the one behind the interactive shell. It owes a
    /// change notification for each of its successful writes, wherever
    /// they go.
    pub fn principal() -> (r: EnvStack)
        ensures
            r@.frames.len() == 0,
            r@.principal,
            r@.status == 0,
            r@.pipestatus == seq![0 as c_int],
    {
        let r = EnvStack { locals: Vec::new(), statuses: Statuses::just(0), principal: true };
        assert(frame_views(r.locals@) =~= Seq::empty());
        r
    }

    /// Whether this is the principal stack.
    pub fn is_principal(&self) -> (r: bool)
        ensures
            r == self@.principal,
    {
        self.principal
    }

    /// The number of local frames. A stack can be popped while it is not
    /// zero.
    pub fn depth(&self) -> (r: usize)
        ensures
            r == self@.frames.len(),
    {
        self.locals.len()
    }

    /// The statuses of the last job.
    pub fn get_last_statuses(&self) -> (r: Statuses)
        ensures
            r.status == self@.status,
            r.pipestatus@ == self@.pipestatus,
    {
        self.statuses.clone()
    }

    /// The exit status of the last job.
    pub fn get_last_status(&self) -> (r: c_int)
        ensures
            r == self@.status,
    {
        self.statuses.status
    }

    /// Records the statuses of the last job.
    pub fn set_last_statuses(&mut self, statuses: Statuses)
        ensures
            final(self)@ == (StackView {
                status: statuses.status,
                pipestatus: statuses.pipestatus@,
                ..old(self)@
            }),
    {
        self.statuses = statuses;
    }

    /// The record that a read of `key` under `mode` finds.
    pub fn getf(&self, shared: &SharedEnv, key: &str, mode: EnvMode) -> (r: Option<EnvVar>)
        ensures
            opt_view(r) == resolve(self@.frames, shared@, key@, mode),
    {
        lookup(&self.locals, shared, key, mode)
    }

    /// The record visible under `key` in the default search order.
    pub fn get(&self, shared: &SharedEnv, key: &str) -> (r: Option<EnvVar>)
        ensures
            opt_view(r) == visible(self@.frames, shared@, key@),
    {
        lookup(&self.locals, shared, key, EnvMode::default_mode())
    }

    /// The names visible under `mode`, each once.
    pub fn get_names(&self, shared: &SharedEnv, mode: EnvMode) -> (r: Vec<String>)
        ensures
            forall|n: Seq<char>| #[trigger]
                listed(r@, n) <==> visible_names(self@.frames, shared@, mode).contains(n),
            distinct_names(r@),
    {
        collect_names(&self.locals, shared, mode)
    }

    /// A deep copy of the local frames.
    pub(crate) fn copy_frames(&self) -> (r: Vec<Frame>)
        ensures
            frame_views(r@) == self@.frames,
    {
        clone_frames(&self.locals)
    }

    /// Whether a variable visible under `key` is read-only.
    fn visible_read_only(&self, shared: &SharedEnv, key: &str) -> (r: bool)
        ensures
            r == is_read_only(self@.frames, shared@, key@),
    {
        assert(self@.frames.take(self.locals.len() as int) =~= self@.frames);
        match find_visible(&self.locals, self.locals.len(), shared, key) {
            Some(var) => var.is_read_only(),
            None => false,
        }
    }

    /// How a write or a removal of `key` under `mode` ends.
    fn check_write(&self, shared: &SharedEnv, key: &str, mode: EnvMode) -> (r: EnvStackSetResult)
        ensures
            r == write_status(self@.frames, shared@, key@, mode),
    {
        if self.visible_read_only(shared, key) && !mode.is_user() {
            return EnvStackSetResult::ENV_PERM;
        }
        let local = mode.is_local();
        let global = mode.is_global();
        let universal = mode.is_universal();
        if (local && global) || (local && universal) || (global && universal) || (universal
            && shared.uvar_scope_is_global()) {
            return EnvStackSetResult::ENV_SCOPE;
        }
        EnvStackSetResult::ENV_OK
    }

    /// The frame that a write of `key` under `mode` stores into.
    fn place_of_set(&self, shared: &SharedEnv, key: &str, mode: EnvMode) -> (r: Place)
        ensures
            place_view(r) == set_target(self@.frames, shared@, key@, mode),
            r matches Place::Local(i) ==> i < self@.frames.len(),
            !(r is Nowhere),
    {
        let depth = self.locals.len();
        assert(self@.frames.take(depth as int) =~= self@.frames);
        if mode.is_universal() {
            Place::Universal
        } else if mode.is_global() {
            Place::Global
        } else if mode.is_local() {
            if depth > 0 {
                Place::Local(depth - 1)
            } else {
                Place::Global
            }
        } else {
            match find_holder(&self.locals, depth, key) {
                Some(i) => Place::Local(i),
                None => {
                    if shared.globals().contains(key) {
                        Place::Global
                    } else if !shared.uvar_scope_is_global() && shared.uvars().get(key).is_some() {
                        Place::Universal
                    } else {
                        proof {
                            lemma_boundary(self@.frames);
                        }
                        match find_boundary(&self.locals, depth) {
                            Some(i) => Place::Local(i),
                            None => Place::Global,
                        }
                    }
                },
            }
        }
    }

    /// The frame that a removal of `key` under `mode` deletes from.
    fn place_of_remove(&self, shared: &SharedEnv, key: &str, mode: EnvMode) -> (r: Place)
        ensures
            place_view(r) == remove_target(self@.frames, shared@, key@, mode),
            r matches Place::Local(i) ==> i < self@.frames.len(),
    {
        let depth = self.locals.len();
        assert(self@.frames.take(depth as int) =~= self@.frames);
        if mode.is_universal() {
            if shared.uvars().get(key).is_some() {
                Place::Universal
            } else {
                Place::Nowhere
            }
        } else if mode.is_global() {
            if shared.globals().contains(key) {
                Place::Global
            } else {
                Place::Nowhere
            }
        } else if mode.is_local() {
            if depth > 0 {
                assert(self@.frames.last() == self.locals@[depth - 1]@);
                if self.locals[depth - 1].contains(key) {
                    Place::Local(depth - 1)
                } else {
                    Place::Nowhere
                }
            } else if shared.globals().contains(key) {
                Place::Global
            } else {
                Place::Nowhere
            }
        } else {
            match find_holder(&self.locals, depth, key) {
                Some(i) => Place::Local(i),
                None => {
                    if shared.globals().contains(key) {
                        Place::Global
                    } else if !shared.uvar_scope_is_global() && shared.uvars().get(key).is_some() {
                        Place::Universal
                    } else {
                        Place::Nowhere
                    }
                },
            }
        }
    }

    /// Installs `change` under `key` at `place`: binds the record, or
    /// deletes the name where `change` is `None`.
    fn apply(&mut self, shared: &mut SharedEnv, place: Place, key: &str, change: Option<EnvVar>)
        requires
            place matches Place::Local(i) ==> i < old(self)@.frames.len(),
        ensures
            final(self)@ == (StackView {
                frames: frames_after(old(self)@.frames, place_view(place), key@, opt_view(change)),
                ..old(self)@
            }),
            final(shared)@ == shared_after(old(shared)@, place_view(place), key@, opt_view(change)),
            final(shared).exports_cached() == (old(shared).exports_cached() && !(place is Global
                || place is Universal)),
    {
        let ghost before = self@.frames;
        match place {
            Place::Local(i) => {
                assert(before[i as int] == self.locals@[i as int]@);
                self.locals[i].amend(key, change);
                assert(self@.frames =~= frames_after(
                    before,
                    place_view(place),
                    key@,
                    opt_view(change),
                ));
            },
            Place::Global => {
                match change {
                    Some(var) => shared.put_global(key.to_owned(), var),
                    None => shared.drop_global(key),
                }
            },
            Place::Universal => {
                match change {
                    Some(var) => shared.put_universal(key.to_owned(), var),
                    None => shared.drop_universal(key),
                }
            },
            Place::Nowhere => {},
        }
    }

    /// Sets the variable `key` to the values `vals`.
    ///
    /// The values are first normalized: a single value of `PWD` or `HOME`
    /// is made a canonical path, and the values of `PATH` and `CDPATH` are
    /// split at their colons, with a dot in place of each empty piece. The
    /// write is refused with `ENV_PERM` where the variable visible under
    /// the name is read-only and the mode lacks the override qualifier, and
    /// with `ENV_SCOPE` where the mode names two scopes or names the
    /// universal scope while it is switched off; a refused write changes
    /// nothing. Otherwise the new record goes to the frame that the mode
    /// selects, and the result says whether that was the global frame or
    /// the universal store, and whether a change notification is owed. A
    /// write to either of the two drops the export lines that the shared
    /// state keeps.
    pub fn set(&mut self, shared: &mut SharedEnv, key: &str, mode: EnvMode, vals: Vec<String>) -> (r:
        ModResult)
        ensures
            r == report(
                write_status(old(self)@.frames, old(shared)@, key@, mode),
                set_effect(old(self)@.frames, old(shared)@, key@, mode),
                old(self)@.principal,
            ),
            final(self)@ == (StackView {
                frames: after_set(old(self)@.frames, old(shared)@, key@, mode, strs(vals@)).frames,
                ..old(self)@
            }),
            final(shared)@ == after_set(
                old(self)@.frames,
                old(shared)@,
                key@,
                mode,
                strs(vals@),
            ).shared,
            is_read_only(old(self)@.frames, old(shared)@, key@) && !mode.user() ==> r.status
                == EnvStackSetResult::ENV_PERM && final(self)@ == old(self)@ && final(shared)@
                == old(shared)@,
            r.status == EnvStackSetResult::ENV_OK && (r.global_modified || old(self)@.principal)
                ==> r.dispatch,
            r.status != EnvStackSetResult::ENV_INVALID,
            final(shared).exports_cached() == (old(shared).exports_cached() && !r.global_modified
                && !r.uvar_modified),
    {
        let status = self.check_write(shared, key, mode);
        if status != EnvStackSetResult::ENV_OK {
            return refused(status);
        }
        let values = normalize_values(key, vals);
        let flags = EnvVarFlags {
            exports: mode.is_export(),
            read_only: self.visible_read_only(shared, key),
            pathvar: mode.is_pathvar(),
        };
        let var = EnvVar::new_vec(values, flags);
        let place = self.place_of_set(shared, key, mode);
        let global_modified = match place {
            Place::Global => true,
            _ => false,
        };
        let uvar_modified = match place {
            Place::Universal => true,
            _ => false,
        };
        self.apply(shared, place, key, Some(var));
        ModResult {
            status,
            global_modified,
            uvar_modified,
            dispatch: global_modified || self.principal,
        }
    }

    /// Sets the variable `key` to the single value `val`; see `set`.
    pub fn set_one(&mut self, shared: &mut SharedEnv, key: &str, mode: EnvMode, val: String) -> (r:
        ModResult)
        ensures
            r == report(
                write_status(old(self)@.frames, old(shared)@, key@, mode),
                set_effect(old(self)@.frames, old(shared)@, key@, mode),
                old(self)@.principal,
            ),
            final(self)@ == (StackView {
                frames: after_set(old(self)@.frames, old(shared)@, key@, mode, seq![val@]).frames,
                ..old(self)@
            }),
            final(shared)@ == after_set(
                old(self)@.frames,
                old(shared)@,
                key@,
                mode,
                seq![val@],
            ).shared,
            final(shared).exports_cached() == (old(shared).exports_cached() && !r.global_modified
                && !r.uvar_modified),
    {
        let mut vals: Vec<String> = Vec::new();
        vals.push(val);
        assert(strs(vals@) =~= seq![val@]);
        self.set(shared, key, mode, vals)
    }

    /// Sets the variable `key` to no values; see `set`.
    pub fn set_empty(&mut self, shared: &mut SharedEnv, key: &str, mode: EnvMode) -> (r: ModResult)
        ensures
            r == report(
                write_status(old(self)@.frames, old(shared)@, key@, mode),
                set_effect(old(self)@.frames, old(shared)@, key@, mode),
                old(self)@.principal,
            ),
            final(self)@ == (StackView {
                frames: after_set(
                    old(self)@.frames,
                    old(shared)@,
                    key@,
                    mode,
                    Seq::empty(),
                ).frames,
                ..old(self)@
            }),
            final(shared)@ == after_set(
                old(self)@.frames,
                old(shared)@,
                key@,
                mode,
                Seq::empty(),
            ).shared,
            final(shared).exports_cached() == (old(shared).exports_cached() && !r.global_modified
                && !r.uvar_modified),
    {
        let vals: Vec<String> = Vec::new();
        assert(strs(vals@) =~= Seq::empty());
        self.set(shared, key, mode, vals)
    }

    /// Sets `PWD` in the global frame, exported, to the working directory
    /// `cwd` as the caller has read it from the system.
    pub fn set_pwd_from_getcwd(&mut self, shared: &mut SharedEnv, cwd: String) -> (r: ModResult)
        ensures
            r == report(
                write_status(old(self)@.frames, old(shared)@, "PWD"@, exported_global_mode()),
                set_effect(old(self)@.frames, old(shared)@, "PWD"@, exported_global_mode()),
                old(self)@.principal,
            ),
            final(self)@ == old(self)@,
            final(shared)@ == after_set(
                old(self)@.frames,
                old(shared)@,
                "PWD"@,
                exported_global_mode(),
                seq![cwd@],
            ).shared,
            !is_read_only(old(self)@.frames, old(shared)@, "PWD"@) ==> r.status
                == EnvStackSetResult::ENV_OK && r.global_modified && r.dispatch
                && final(shared)@.globals.contains_key("PWD"@)
                && final(shared)@.globals["PWD"@].values == seq![canonical_path(cwd@)]
                && final(shared)@.globals["PWD"@].flags.exports,
            final(shared).exports_cached() == (old(shared).exports_cached() && !r.global_modified
                && !r.uvar_modified),
    {
        let mode = EnvMode::from_bits(ENV_EXPORT | ENV_GLOBAL);
        proof {
            lemma_exported_global_mode();
            reveal_strlit("PWD");
            reveal_strlit("PATH");
            reveal_strlit("CDPATH");
            assert("PWD"@.len() == 3 && "PATH"@.len() == 4 && "CDPATH"@.len() == 6);
            assert(seq![cwd@][0] == cwd@);
        }
        self.set_one(shared, "PWD", mode, cwd)
    }

    /// Sets `argv` in the innermost frame to the arguments `argv`.
    pub fn set_argv(&mut self, shared: &mut SharedEnv, argv: Vec<String>) -> (r: ModResult)
        ensures
            r == report(
                write_status(old(self)@.frames, old(shared)@, "argv"@, local_mode()),
                set_effect(old(self)@.frames, old(shared)@, "argv"@, local_mode()),
                old(self)@.principal,
            ),
            final(self)@ == (StackView {
                frames: after_set(
                    old(self)@.frames,
                    old(shared)@,
                    "argv"@,
                    local_mode(),
                    strs(argv@),
                ).frames,
                ..old(self)@
            }),
            final(shared)@ == after_set(
                old(self)@.frames,
                old(shared)@,
                "argv"@,
                local_mode(),
                strs(argv@),
            ).shared,
            final(shared).exports_cached() == (old(shared).exports_cached() && !r.global_modified
                && !r.uvar_modified),
    {
        self.set(shared, "argv", EnvMode::from_bits(ENV_LOCAL), argv)
    }

    /// Removes the variable `key` from the frame that `mode` selects.
    ///
    /// The removal is refused as a write is: with `ENV_PERM` for a
    /// read-only variable without the override qualifier, with `ENV_SCOPE`
    /// for a mode that names two scopes or the switched-off universal
    /// scope. Otherwise the name is deleted where the mode finds it, and
    /// the result says whether that was in the global frame or in the
    /// universal store, and whether a change notification is owed.
    pub fn remove(&mut self, shared: &mut SharedEnv, key: &str, mode: EnvMode) -> (r: ModResult)
        ensures
            r == report(
                write_status(old(self)@.frames, old(shared)@, key@, mode),
                remove_effect(old(self)@.frames, old(shared)@, key@, mode),
                old(self)@.principal,
            ),
            final(self)@ == (StackView {
                frames: after_remove(old(self)@.frames, old(shared)@, key@, mode).frames,
                ..old(self)@
            }),
            final(shared)@ == after_remove(old(self)@.frames, old(shared)@, key@, mode).shared,
            is_read_only(old(self)@.frames, old(shared)@, key@) && !mode.user() ==> r.status
                == EnvStackSetResult::ENV_PERM && final(self)@ == old(self)@ && final(shared)@
                == old(shared)@,
            r.status == EnvStackSetResult::ENV_OK && (r.global_modified || old(self)@.principal)
                ==> r.dispatch,
            r.status != EnvStackSetResult::ENV_INVALID,
            final(shared).exports_cached() == (old(shared).exports_cached() && !r.global_modified
                && !r.uvar_modified),
    {
        let status = self.check_write(shared, key, mode);
        if status != EnvStackSetResult::ENV_OK {
            return refused(status);
        }
        let place = self.place_of_remove(shared, key, mode);
        let global_modified = match place {
            Place::Global => true,
            _ => false,
        };
        let uvar_modified = match place {
            Place::Universal => true,
            _ => false,
        };
        self.apply(shared, place, key, None);
        ModResult {
            status,
            global_modified,
            uvar_modified,
            dispatch: global_modified || self.principal,
        }
    }

    /// Pushes a new innermost frame. With `new_scope` the frame shadows:
    /// the local frames outside it cannot be seen until it is popped.
    /// Without, the frame is a block: the frames outside it stay visible.
    pub fn push(&mut self, new_scope: bool)
        ensures
            final(self)@ == (StackView {
                frames: old(self)@.frames.push(
                    FrameView { vars: Map::empty(), shadowing: new_scope },
                ),
                ..old(self)@
            }),
    {
        let ghost before = self@.frames;
        self.locals.push(Frame::new(new_scope));
        assert(self@.frames =~= before.push(FrameView { vars: Map::empty(), shadowing: new_scope }));
    }

    /// Pops the innermost frame, and returns the names whose visible record
    /// differs from the one that was visible before the pop: those of a
    /// local variable that went with the frame, and those that the frame
    /// had hidden.
    pub fn pop(&mut self, shared: &SharedEnv) -> (r: PopResult)
        requires
            old(self)@.frames.len() > 0,
        ensures
            final(self)@ == (StackView { frames: old(self)@.frames.drop_last(), ..old(self)@ }),
            forall|n: Seq<char>| #[trigger]
                listed(r.changed@, n) <==> changed_names(
                    old(self)@.frames,
                    final(self)@.frames,
                    shared@,
                ).contains(n),
            distinct_names(r.changed@),
            r.dispatch == old(self)@.principal,
    {
        let ghost all = self@.frames;
        let depth = self.locals.len();
        assert(all.take(depth as int) =~= all);
        assert(all.take(depth - 1) =~= all.drop_last());
        let mut candidates: Vec<String> = Vec::new();
        let none = EnvMode::default_mode();
        let mut i: usize = 0;
        while i < depth
            invariant
                i <= depth == self.locals.len(),
                all == frame_views(self.locals@),
                !none.exports(),
                forall|n: Seq<char>| #[trigger]
                    listed(candidates@, n) <==> exists|j: int|
                        0 <= j < i && (#[trigger] all[j]).vars.contains_key(n),
            decreases depth - i,
        {
            let ghost prev = candidates@;
            assert(all[i as int] == self.locals@[i as int]@);
            add_names(&mut candidates, self.locals[i].vars(), none);
            proof {
                assert forall|n: Seq<char>| #[trigger]
                    listed(candidates@, n) <==> exists|j: int|
                        0 <= j < i + 1 && (#[trigger] all[j]).vars.contains_key(n) by {
                    if listed(prev, n) {
                        let j = choose|j: int|
                            0 <= j < i && (#[trigger] all[j]).vars.contains_key(n);
                        assert(0 <= j < i + 1 && all[j].vars.contains_key(n));
                    }
                    if lists(all[i as int].vars, n, none) {
                        assert(0 <= i < i + 1 && all[i as int].vars.contains_key(n));
                    }
                    if exists|j: int| 0 <= j < i + 1 && (#[trigger] all[j]).vars.contains_key(n) {
                        let j = choose|j: int|
                            0 <= j < i + 1 && (#[trigger] all[j]).vars.contains_key(n);
                        if j < i {
                            assert(listed(prev, n));
                        } else {
                            assert(lists(all[i as int].vars, n, none));
                        }
                    }
                }
            }
            i += 1;
        }
        let mut changed: Vec<String> = Vec::new();
        let mut k: usize = 0;
        while k < candidates.len()
            invariant
                k <= candidates.len(),
                0 < depth == self.locals.len(),
                all == frame_views(self.locals@),
                distinct_names(changed@),
                forall|n: Seq<char>| #[trigger]
                    listed(changed@, n) <==> (visible(all, shared@, n) != visible(
                        all.drop_last(),
                        shared@,
                        n,
                    ) && exists|j: int| 0 <= j < k && (#[trigger] candidates@[j])@ == n),
            decreases candidates.len() - k,
        {
            let ghost prev = changed@;
            let name = candidates[k].as_str();
            assert(all.take(depth as int) =~= all);
            assert(all.take(depth - 1) =~= all.drop_last());
            let before = find_visible(&self.locals, depth, shared, name);
            let after = find_visible(&self.locals, depth - 1, shared, name);
            if !opt_same(before, after) {
                add_name(&mut changed, name);
            }
            proof {
                assert forall|n: Seq<char>| #[trigger]
                    listed(changed@, n) <==> (visible(all, shared@, n) != visible(
                        all.drop_last(),
                        shared@,
                        n,
                    ) && exists|j: int| 0 <= j < k + 1 && (#[trigger] candidates@[j])@ == n) by {
                    if listed(prev, n) {
                        let j = choose|j: int| 0 <= j < k && (#[trigger] candidates@[j])@ == n;
                        assert(0 <= j < k + 1 && candidates@[j]@ == n);
                    }
                    if n == name@ {
                        assert(candidates@[k as int]@ == n);
                    }
                    if exists|j: int| 0 <= j < k + 1 && (#[trigger] candidates@[j])@ == n {
                        let j = choose|j: int| 0 <= j < k + 1 && (#[trigger] candidates@[j])@ == n;
                        if j < k && visible(all, shared@, n) != visible(
                            all.drop_last(),
                            shared@,
                            n,
                        ) {
                            assert(listed(prev, n));
                        }
                    }
                }
            }
            k += 1;
        }
        proof {
            assert forall|n: Seq<char>| #[trigger]
                listed(changed@, n) <==> changed_names(all, all.drop_last(), shared@).contains(
                    n,
                ) by {
                if visible(all, shared@, n) != visible(all.drop_last(), shared@, n) {
                    lemma_holder(all, n);
                    lemma_holder(all.drop_last(), n);
                    if holder(all, n) >= 0 {
                        assert(all[holder(all, n)].vars.contains_key(n));
                        assert(listed(candidates@, n));
                    } else {
                        let h = holder(all.drop_last(), n);
                        assert(h >= 0);
                        assert(all.drop_last()[h] == all[h]);
                        assert(all[h].vars.contains_key(n));
                        assert(listed(candidates@, n));
                    }
                    let j = choose|j: int|
                        0 <= j < candidates@.len() && (#[trigger] candidates@[j])@ == n;
                    assert(0 <= j < k && candidates@[j]@ == n);
                }
            }
        }
        self.locals.pop();
        assert(self@.frames =~= all.drop_last());
        PopResult { changed, dispatch: self.principal }
    }

    /// The lines `NAME=value` of the variables that are visible and
    /// exported, for the environment of a child process: one line for each
    /// such variable, with the values of the record that is visible under
    /// the name.
    ///
    /// The lines of the global and universal variables are computed once
    /// and kept in the shared state until one of those variables is
    /// written; the lines of the local variables are made anew.
    pub fn export_array(&self, shared: &mut SharedEnv) -> (r: Vec<String>)
        ensures
            final(shared)@ == old(shared)@,
            final(shared).exports_cached(),
            forall|line: Seq<char>| #[trigger]
                listed(r@, line) <==> is_export_line(self@.frames, old(shared)@, line),
            exists|names: Seq<Seq<char>>| export_listing(r@, names, self@.frames, old(shared)@),
    {
        shared.refresh_exports();
        let ghost all = self@.frames;
        let ghost sv = shared@;
        let depth = self.locals.len();
        assert(all.take(depth as int) =~= all);
        let locals_only = EnvMode::from_bits(ENV_LOCAL);
        proof {
            lemma_local_mode();
            assert(locals_only == local_mode());
        }
        let names = collect_names(&self.locals, shared, locals_only);
        let mut lines: Vec<String> = Vec::new();

        // The exported variables of the visible local frames.
        let ghost mut src: Seq<int> = Seq::empty();
        let mut i: usize = 0;
        while i < names.len()
            invariant
                i <= names.len(),
                depth == self.locals.len(),
                all == frame_views(self.locals@),
                all.take(depth as int) == all,
                sv == shared@,
                src.len() == lines.len(),
                forall|x: int| 0 <= x < src.len() ==> 0 <= #[trigger] src[x] < i,
                forall|x: int, y: int|
                    0 <= x < y < src.len() ==> #[trigger] src[x] < #[trigger] src[y],
                forall|x: int|
                    0 <= x < src.len() ==> holder(all, names@[#[trigger] src[x]]@) >= 0
                        && exports_as(all, sv, names@[src[x]]@, lines@[x]@),
                forall|j: int|
                    0 <= j < i && is_exported(all, sv, (#[trigger] names@[j])@) && holder(
                        all,
                        names@[j]@,
                    ) >= 0 ==> exists|x: int| 0 <= x < src.len() && src[x] == j,
            decreases names.len() - i,
        {
            let ghost prev = lines@;
            let ghost old_src = src;
            let name = names[i].as_str();
            match find_holder(&self.locals, depth, name) {
                Some(at) => {
                    assert(all[at as int] == self.locals@[at as int]@);
                    proof {
                        lemma_holder(all, name@);
                    }
                    match self.locals[at].vars().get(name) {
                        Some(var) => {
                            if var.exports() {
                                lines.push(make_export_line(name, var));
                                proof {
                                    src = src.push(i as int);
                                    assert forall|x: int| 0 <= x < src.len() implies holder(
                                        all,
                                        names@[#[trigger] src[x]]@,
                                    ) >= 0 && exports_as(
                                        all,
                                        sv,
                                        names@[src[x]]@,
                                        lines@[x]@,
                                    ) by {
                                        if x < old_src.len() {
                                            assert(src[x] == old_src[x]);
                                            assert(lines@[x] == prev[x]);
                                        }
                                    }
                                }
                            }
                        },
                        None => {},
                    }
                },
                None => {},
            }
            proof {
                assert forall|j: int|
                    0 <= j < i + 1 && is_exported(all, sv, (#[trigger] names@[j])@) && holder(
                        all,
                        names@[j]@,
                    ) >= 0 implies exists|x: int| 0 <= x < src.len() && src[x] == j by {
                    if j < i {
                        let x = choose|x: int| 0 <= x < old_src.len() && old_src[x] == j;
                        assert(src[x] == j);
                    } else {
                        assert(src[old_src.len() as int] == j);
                    }
                }
            }
            i += 1;
        }

        // The exported shared variables that no local variable hides.
        let ghost mid = lines@.len();
        let ghost first = src;
        let ghost mut more: Seq<int> = Seq::empty();
        match shared.cached_exports() {
            Some(list) => {
                let mut k: usize = 0;
                while k < list.len()
                    invariant
                        k <= list.len(),
                        depth == self.locals.len(),
                        all == frame_views(self.locals@),
                        all.take(depth as int) == all,
                        shared_export_listing(list@, sv.globals, sv.universal),
                        mid == first.len(),
                        lines.len() == mid + more.len(),
                        forall|x: int|
                            0 <= x < first.len() ==> 0 <= #[trigger] first[x] < names@.len(),
                        forall|x: int, y: int|
                            0 <= x < y < first.len() ==> #[trigger] first[x] < #[trigger] first[y],
                        forall|x: int|
                            0 <= x < first.len() ==> holder(all, names@[#[trigger] first[x]]@) >= 0
                                && exports_as(all, sv, names@[first[x]]@, lines@[x]@),
                        forall|x: int| 0 <= x < more.len() ==> 0 <= #[trigger] more[x] < k,
                        forall|x: int, y: int|
                            0 <= x < y < more.len() ==> #[trigger] more[x] < #[trigger] more[y],
                        forall|x: int|
                            0 <= x < more.len() ==> holder(all, list@[#[trigger] more[x]].0@) < 0
                                && exports_as(all, sv, list@[more[x]].0@, lines@[mid + x]@),
                        forall|j: int|
                            0 <= j < k && holder(all, (#[trigger] list@[j]).0@) < 0 ==> exists|
                                x: int,
                            | 0 <= x < more.len() && more[x] == j,
                    decreases list.len() - k,
                {
                    let ghost prev = lines@;
                    let ghost old_more = more;
                    assert(shared_exports_as(
                        sv.globals,
                        sv.universal,
                        list@[k as int].0@,
                        list@[k as int].1@,
                    ));
                    if find_holder(&self.locals, depth, list[k].0.as_str()).is_none() {
                        lines.push(list[k].1.clone());
                        proof {
                            more = more.push(k as int);
                            assert forall|x: int| 0 <= x < first.len() implies holder(
                                all,
                                names@[#[trigger] first[x]]@,
                            ) >= 0 && exports_as(all, sv, names@[first[x]]@, lines@[x]@) by {
                                assert(lines@[x] == prev[x]);
                            }
                            assert forall|x: int| 0 <= x < more.len() implies holder(
                                all,
                                list@[#[trigger] more[x]].0@,
                            ) < 0 && exports_as(
                                all,
                                sv,
                                list@[more[x]].0@,
                                lines@[mid + x]@,
                            ) by {
                                if x < old_more.len() {
                                    assert(more[x] == old_more[x]);
                                    assert(lines@[mid + x] == prev[mid + x]);
                                }
                            }
                        }
                    }
                    proof {
                        assert forall|j: int|
                            0 <= j < k + 1 && holder(
                                all,
                                (#[trigger] list@[j]).0@,
                            ) < 0 implies exists|x: int| 0 <= x < more.len() && more[x] == j by {
                            if j < k {
                                let x = choose|x: int| 0 <= x < old_more.len() && old_more[x] == j;
                                assert(more[x] == j);
                            } else {
                                assert(more[old_more.len() as int] == j);
                            }
                        }
                    }
                    k += 1;
                }
                proof {
                    let picked = Seq::new(
                        lines@.len(),
                        |x: int|
                            if x < mid {
                                names@[first[x]]@
                            } else {
                                list@[more[x - mid]].0@
                            },
                    );
                    assert forall|x: int, y: int| 0 <= x < y < picked.len() implies picked[x]
                        != picked[y] by {
                        if y < mid {
                            assert(first[x] < first[y]);
                            assert(names@[first[x]]@ != names@[first[y]]@);
                        } else if x >= mid {
                            assert(more[x - mid] < more[y - mid]);
                            assert(list@[more[x - mid]].0@ != list@[more[y - mid]].0@);
                        } else {
                            assert(holder(all, names@[first[x]]@) >= 0);
                            assert(holder(all, list@[more[y - mid]].0@) < 0);
                        }
                    }
                    assert forall|x: int| 0 <= x < lines@.len() implies exports_as(
                        all,
                        sv,
                        #[trigger] picked[x],
                        lines@[x]@,
                    ) by {
                        if x < mid {
                            assert(exports_as(all, sv, names@[first[x]]@, lines@[x]@));
                        } else {
                            assert(exports_as(
                                all,
                                sv,
                                list@[more[x - mid]].0@,
                                lines@[mid + (x - mid)]@,
                            ));
                        }
                    }
                    assert forall|n: Seq<char>| is_exported(all, sv, n) implies picked.contains(
                        n,
                    ) by {
                        lemma_holder(all, n);
                        if holder(all, n) >= 0 {
                            assert(lists(all[holder(all, n)].vars, n, locals_only));
                            assert(listed(names@, n));
                            let j = choose|j: int|
                                0 <= j < names@.len() && (#[trigger] names@[j])@ == n;
                            let x = choose|x: int| 0 <= x < first.len() && first[x] == j;
                            assert(picked[x] == n);
                        } else {
                            assert(shared_exported(sv.globals, sv.universal, n));
                            assert(named_in(list@, n));
                            let j = choose|j: int|
                                0 <= j < list@.len() && (#[trigger] list@[j]).0@ == n;
                            let x = choose|x: int| 0 <= x < more.len() && more[x] == j;
                            assert(picked[mid + x] == n);
                        }
                    }
                    assert(export_listing(lines@, picked, all, sv));
                    lemma_listing_lines(lines@, picked, all, sv);
                }
            },
            None => {},
        }
        lines
    }

    /// Synchronizes the universal variables with the external store; see
    /// `SharedEnv::universal_sync`, which does the work for every stack.
    pub fn universal_sync(
        &self,
        shared: &mut SharedEnv,
        always: bool,
        stored: Option<Vec<(String, EnvVar)>>,
    ) -> (r: SyncOutcome)
        ensures
            !sync_due(old(shared)@, always) ==> final(shared)@ == old(shared)@ && r.events@.len()
                == 0 && !r.notify,
            sync_due(old(shared)@, always) && stored is None ==> final(shared)@ == (SharedView {
                dirty: false,
                ..old(shared)@
            }) && r.events@.len() == 0 && !r.notify,
            sync_due(old(shared)@, always) && stored is Some ==> final(shared)@ == synced_state(
                old(shared)@,
                table_of(pairs(stored->0@)),
            ) && r.notify == has_pending(universal_of(old(shared)@)) && events_describe(
                r.events@,
                old(shared)@.synced,
                final(shared)@.universal,
            ) && !final(shared).exports_cached(),
            !sync_due(old(shared)@, always) || stored is None ==> final(shared).exports_cached()
                == old(shared).exports_cached(),
    {
        shared.universal_sync(always, stored)
    }
}

} // verus!
