//! Laws of the environment: what holds of every state and every sequence
//! of operations, stated over the model that the operations are specified
//! against.

use crate::init::gives_way;
use crate::model::{
    after_remove, after_set, boundary, holder, lemma_boundary, lemma_holder, lists, locals_list,
    new_record, remove_effect, report, resolve, set_effect, set_target, shared_after, visible,
    visible_names, write_status, EnvState, FrameView, SharedView, Target,
};
use crate::path::{
    canonical_path, is_absolute, is_canonical, is_directory_name, law_canonical_path,
    normalized_values,
};
use crate::shared::{events_describe, sync_due, synced_state, universal_of};
use crate::table::{entry, Vars};
use crate::universal::{merged, Event, EventKind};
use crate::var::{
    exported_global_mode, lemma_exported_global_mode, EnvMode, EnvStackSetResult, VarView,
};
use vstd::prelude::*;

verus! {

/// An operation on a stack.
pub enum Op {
    /// Push a frame, shadowing or not.
    Push { shadowing: bool },
    /// Pop the innermost frame.
    Pop,
    /// Set `name` to `values` under `mode`.
    Assign { name: Seq<char>, mode: EnvMode, values: Seq<Seq<char>> },
    /// Remove `name` under `mode`.
    Erase { name: Seq<char>, mode: EnvMode },
}

/// The state after one operation.
pub open spec fn step(state: EnvState, op: Op) -> EnvState {
    match op {
        Op::Push { shadowing } => EnvState {
            frames: state.frames.push(FrameView { vars: Map::empty(), shadowing }),
            ..state
        },
        Op::Pop => EnvState { frames: state.frames.drop_last(), ..state },
        Op::Assign { name, mode, values } => after_set(state.frames, state.shared, name, mode, values),
        Op::Erase { name, mode } => after_remove(state.frames, state.shared, name, mode),
    }
}

/// The state after a sequence of operations.
pub open spec fn run(state: EnvState, ops: Seq<Op>) -> EnvState
    decreases ops.len(),
{
    if ops.len() == 0 {
        state
    } else {
        step(run(state, ops.drop_last()), ops.last())
    }
}

/// The number of frames that a sequence of operations leaves over the
/// number that it started with.
pub open spec fn depth_change(ops: Seq<Op>) -> int
    decreases ops.len(),
{
    if ops.len() == 0 {
        0
    } else {
        depth_change(ops.drop_last()) + match ops.last() {
            Op::Push { .. } => 1int,
            Op::Pop => -1int,
            _ => 0int,
        }
    }
}

/// Whether a sequence of operations stays inside the frames that it
/// pushes itself or finds above `floor` frames: it never pops down to
/// `floor` frames, and its writes and removals name the local scope.
/// `depth` is the number of frames that it starts with.
pub open spec fn stays_above(ops: Seq<Op>, depth: int, floor: int) -> bool
    decreases ops.len(),
{
    if ops.len() == 0 {
        depth > floor
    } else {
        stays_above(ops.drop_last(), depth, floor) && match ops.last() {
            Op::Push { .. } => true,
            Op::Pop => depth + depth_change(ops.drop_last()) > floor + 1,
            Op::Assign { mode, .. } => mode.local(),
            Op::Erase { mode, .. } => mode.local(),
        }
    }
}

proof fn lemma_run_above(state: EnvState, ops: Seq<Op>, floor: int)
    requires
        0 <= floor,
        stays_above(ops, state.frames.len() as int, floor),
    ensures
        run(state, ops).frames.len() == state.frames.len() + depth_change(ops),
        run(state, ops).frames.len() > floor,
        run(state, ops).frames.take(floor) == state.frames.take(floor),
        run(state, ops).shared == state.shared,
    decreases ops.len(),
{
    if ops.len() > 0 {
        let before = run(state, ops.drop_last());
        lemma_run_above(state, ops.drop_last(), floor);
        let after = step(before, ops.last());
        match ops.last() {
            Op::Push { shadowing } => {
                assert(after.frames.take(floor) =~= before.frames.take(floor));
            },
            Op::Pop => {
                assert(after.frames.take(floor) =~= before.frames.take(floor));
            },
            Op::Assign { name, mode, values } => {
                assert(after.frames.take(floor) =~= before.frames.take(floor));
            },
            Op::Erase { name, mode } => {
                assert(after.frames.take(floor) =~= before.frames.take(floor));
            },
        }
    }
}

/// The state after a frame was pushed, `ops` were run, and the frame was
/// popped.
pub open spec fn after_scope(state: EnvState, shadowing: bool, ops: Seq<Op>) -> EnvState {
    step(run(step(state, Op::Push { shadowing }), ops), Op::Pop)
}

/// The stack restoration law. Push a frame and run any sequence of
/// operations that stays inside it: further pushes and the pops that
/// match them, and writes and removals in the local scope. When the
/// frame is then popped, the stack and the shared state are what they
/// were before the push, and so every read finds what it found then.
pub proof fn law_pop_restores(state: EnvState, shadowing: bool, ops: Seq<Op>)
    requires
        stays_above(ops, state.frames.len() as int + 1, state.frames.len() as int),
        depth_change(ops) == 0,
    ensures
        after_scope(state, shadowing, ops) == state,
        forall|name: Seq<char>, mode: EnvMode|
            #[trigger] resolve(
                after_scope(state, shadowing, ops).frames,
                after_scope(state, shadowing, ops).shared,
                name,
                mode,
            ) == resolve(state.frames, state.shared, name, mode),
{
    let pushed = step(state, Op::Push { shadowing });
    let floor = state.frames.len() as int;
    lemma_run_above(pushed, ops, floor);
    let end = run(pushed, ops);
    assert(pushed.frames.take(floor) =~= state.frames);
    assert(end.frames.drop_last() =~= end.frames.take(floor));
}

/// A shadowing frame hides the local frames outside it. A name that
/// neither the shadowing frame at `k`, nor a frame inside it, nor the
/// global frame, nor the universal store holds cannot be read and is not
/// among the visible names, whatever the frames outside `k` hold and
/// whatever the mode.
pub proof fn law_shadowing_hides_outer(
    frames: Seq<FrameView>,
    shared: SharedView,
    k: int,
    name: Seq<char>,
    mode: EnvMode,
)
    requires
        0 <= k < frames.len(),
        frames[k].shadowing,
        forall|i: int| k <= i < frames.len() ==> !(#[trigger] frames[i]).vars.contains_key(name),
        !shared.globals.contains_key(name),
        !shared.universal.contains_key(name),
    ensures
        resolve(frames, shared, name, mode) is None,
        !visible_names(frames, shared, mode).contains(name),
{
    lemma_boundary(frames);
    lemma_holder(frames, name);
    assert(boundary(frames) >= k) by {
        if boundary(frames) < k {
            assert(!frames[k].shadowing);
        }
    }
    if locals_list(frames, name, mode) {
        let i = choose|i: int|
            0 <= i < frames.len() && boundary(frames) <= i && #[trigger] lists(
                frames[i].vars,
                name,
                mode,
            );
        assert(frames[i].vars.contains_key(name));
    }
}

/// Right after a shadowing push no name that only an outer local frame
/// defines can be read or listed.
pub proof fn law_shadowing_push_hides(
    frames: Seq<FrameView>,
    shared: SharedView,
    name: Seq<char>,
    mode: EnvMode,
)
    requires
        !shared.globals.contains_key(name),
        !shared.universal.contains_key(name),
    ensures
        resolve(
            step(EnvState { frames, shared }, Op::Push { shadowing: true }).frames,
            shared,
            name,
            mode,
        ) is None,
        !visible_names(
            step(EnvState { frames, shared }, Op::Push { shadowing: true }).frames,
            shared,
            mode,
        ).contains(name),
{
    let pushed = step(EnvState { frames, shared }, Op::Push { shadowing: true }).frames;
    law_shadowing_hides_outer(pushed, shared, frames.len() as int, name, mode);
}

/// Whether a push leaves the meaning of the scopes of `mode` as it was.
/// It does not for the local scope alone on a chain without local frames:
/// there the local scope names the global frame before the push and the
/// new frame after it.
pub open spec fn scope_survives_push(frames: Seq<FrameView>, mode: EnvMode) -> bool {
    frames.len() > 0 || !mode.local() || mode.global()
}

/// A push that does not shadow changes nothing that a plain read
/// observes: every name is visible with the record that it had. The same
/// holds of a read under any mode whose scopes mean after the push what
/// they meant before: every name reads as before, and the same names are
/// listed.
pub proof fn law_block_push_keeps_visible(
    frames: Seq<FrameView>,
    shared: SharedView,
    name: Seq<char>,
    mode: EnvMode,
)
    ensures
        visible(
            step(EnvState { frames, shared }, Op::Push { shadowing: false }).frames,
            shared,
            name,
        ) == visible(frames, shared, name),
        scope_survives_push(frames, mode) ==> resolve(
            step(EnvState { frames, shared }, Op::Push { shadowing: false }).frames,
            shared,
            name,
            mode,
        ) == resolve(frames, shared, name, mode),
        scope_survives_push(frames, mode) ==> visible_names(
            step(EnvState { frames, shared }, Op::Push { shadowing: false }).frames,
            shared,
            mode,
        ).contains(name) == visible_names(frames, shared, mode).contains(name),
{
    let pushed = frames.push(FrameView { vars: Map::empty(), shadowing: false });
    assert(pushed.drop_last() =~= frames);
    lemma_holder(frames, name);
    if holder(frames, name) >= 0 {
        assert(pushed[holder(frames, name)] == frames[holder(frames, name)]);
    }
    if locals_list(frames, name, mode) {
        let i = choose|i: int|
            0 <= i < frames.len() && boundary(frames) <= i && #[trigger] lists(
                frames[i].vars,
                name,
                mode,
            );
        assert(pushed[i] == frames[i]);
        assert(0 <= i < pushed.len() && boundary(pushed) <= i && lists(pushed[i].vars, name, mode));
    }
    if locals_list(pushed, name, mode) {
        let i = choose|i: int|
            0 <= i < pushed.len() && boundary(pushed) <= i && #[trigger] lists(
                pushed[i].vars,
                name,
                mode,
            );
        assert(i < frames.len());
        assert(pushed[i] == frames[i]);
        assert(0 <= i < frames.len() && boundary(frames) <= i && lists(frames[i].vars, name, mode));
    }
}

proof fn lemma_holder_after_bind(frames: Seq<FrameView>, i: int, name: Seq<char>, record: VarView)
    requires
        0 <= i < frames.len(),
        boundary(frames) <= i,
        forall|j: int| i < j < frames.len() ==> !(#[trigger] frames[j]).vars.contains_key(name),
    ensures
        holder(
            frames.update(
                i,
                FrameView {
                    vars: frames[i].vars.insert(name, record),
                    shadowing: frames[i].shadowing,
                },
            ),
            name,
        ) == i,
    decreases frames.len(),
{
    let bound = FrameView {
        vars: frames[i].vars.insert(name, record),
        shadowing: frames[i].shadowing,
    };
    let after = frames.update(i, bound);
    if i < frames.len() - 1 {
        lemma_boundary(frames);
        assert(after.last() == frames.last());
        assert(!frames[frames.len() - 1].vars.contains_key(name));
        assert(!frames.last().shadowing);
        assert(after.drop_last() =~= frames.drop_last().update(i, bound));
        assert forall|j: int| i < j < frames.drop_last().len() implies !(
        #[trigger] frames.drop_last()[j]).vars.contains_key(name) by {
            assert(frames.drop_last()[j] == frames[j]);
        }
        lemma_holder_after_bind(frames.drop_last(), i, name, record);
    }
}

/// A write is read back. After a successful write of a name under a
/// mode, a read of the name under the same mode finds the record that the
/// write stored, whatever the frames and the shared state were.
pub proof fn law_write_is_read_back(
    frames: Seq<FrameView>,
    shared: SharedView,
    name: Seq<char>,
    mode: EnvMode,
    values: Seq<Seq<char>>,
)
    requires
        write_status(frames, shared, name, mode) == EnvStackSetResult::ENV_OK,
    ensures
        resolve(
            after_set(frames, shared, name, mode, values).frames,
            after_set(frames, shared, name, mode, values).shared,
            name,
            mode,
        ) == Some(new_record(frames, shared, name, mode, values)),
{
    let record = new_record(frames, shared, name, mode, values);
    let after = after_set(frames, shared, name, mode, values);
    lemma_holder(frames, name);
    lemma_boundary(frames);
    match set_target(frames, shared, name, mode) {
        Target::Local(i) => {
            lemma_holder_after_bind(frames, i, name, record);
            assert(after.frames[i].vars[name] == record);
        },
        _ => {},
    }
}

/// A write of one value to `PWD` or `HOME` stores the canonical form of
/// that value. The stored path is canonical, writing it again stores the
/// same, and it is absolute if the value was.
pub proof fn law_directory_write_is_canonical(
    frames: Seq<FrameView>,
    shared: SharedView,
    name: Seq<char>,
    mode: EnvMode,
    value: Seq<char>,
)
    requires
        is_directory_name(name),
    ensures
        new_record(frames, shared, name, mode, seq![value]).values == seq![canonical_path(value)],
        is_canonical(canonical_path(value)),
        normalized_values(name, normalized_values(name, seq![value])) == normalized_values(
            name,
            seq![value],
        ),
        is_absolute(value) ==> is_absolute(canonical_path(value)),
{
    reveal_strlit("PWD");
    reveal_strlit("HOME");
    reveal_strlit("PATH");
    reveal_strlit("CDPATH");
    assert("PWD"@.len() == 3 && "HOME"@.len() == 4 && "PATH"@.len() == 4 && "CDPATH"@.len() == 6);
    assert("HOME"@[0] == 'H' && "PATH"@[0] == 'P');
    law_canonical_path(value);
    assert(seq![value][0] == value);
    assert(seq![canonical_path(value)][0] == canonical_path(value));
}

/// A write to a read-only variable without the override qualifier is
/// refused, and so is its removal; neither changes anything.
pub proof fn law_read_only_is_kept(
    frames: Seq<FrameView>,
    shared: SharedView,
    name: Seq<char>,
    mode: EnvMode,
    values: Seq<Seq<char>>,
)
    requires
        visible(frames, shared, name) is Some,
        visible(frames, shared, name)->0.flags.read_only,
        !mode.user(),
    ensures
        write_status(frames, shared, name, mode) == EnvStackSetResult::ENV_PERM,
        after_set(frames, shared, name, mode, values) == (EnvState { frames, shared }),
        after_remove(frames, shared, name, mode) == (EnvState { frames, shared }),
{
}

/// A successful write to the global frame owes exactly one change
/// notification: the write reports it, on the principal stack and on any
/// other, and it leaves the universal variables and the dirty flag as they
/// were, so that no synchronization reports the name a second time.
pub proof fn law_global_write_notifies_once(
    frames: Seq<FrameView>,
    shared: SharedView,
    name: Seq<char>,
    mode: EnvMode,
    values: Seq<Seq<char>>,
    principal: bool,
)
    requires
        set_effect(frames, shared, name, mode) is Global,
    ensures
        report(
            write_status(frames, shared, name, mode),
            set_effect(frames, shared, name, mode),
            principal,
        ).dispatch,
        after_set(frames, shared, name, mode, values).shared.universal == shared.universal,
        after_set(frames, shared, name, mode, values).shared.synced == shared.synced,
        after_set(frames, shared, name, mode, values).shared.dirty == shared.dirty,
{
}

/// At the start a global variable that repeats an exported universal
/// variable gives way to it, unless it is read-only. The removal of its
/// name under the global scope with the export qualifier, on a stack
/// without local frames, succeeds: it deletes the name from the global
/// frame and nothing else, owes a change notification on any stack, and
/// leaves the universal variable visible under the name.
pub proof fn law_repeated_global_gives_way(shared: SharedView, name: Seq<char>, principal: bool)
    requires
        gives_way(shared, shared.universal, name),
    ensures
        write_status(Seq::empty(), shared, name, exported_global_mode())
            == EnvStackSetResult::ENV_OK,
        after_remove(Seq::empty(), shared, name, exported_global_mode()) == (EnvState {
            frames: Seq::empty(),
            shared: SharedView { globals: shared.globals.remove(name), ..shared },
        }),
        report(
            write_status(Seq::empty(), shared, name, exported_global_mode()),
            remove_effect(Seq::empty(), shared, name, exported_global_mode()),
            principal,
        ).dispatch,
        visible(
            Seq::empty(),
            after_remove(Seq::empty(), shared, name, exported_global_mode()).shared,
            name,
        ) == Some(shared.universal[name]),
{
    lemma_exported_global_mode();
}

/// A universal variable that this instance has written is reported by the
/// next synchronization. Let a record be written to the universal store
/// that differs from what the last synchronization left under the name.
/// Then the dirty flag is up, so that a synchronization is due even
/// without insistence; the events of a synchronization that could read
/// the store hold a set event for the name; and the dirty flag is down
/// afterwards.
pub proof fn law_universal_write_is_reported(
    shared: SharedView,
    name: Seq<char>,
    record: VarView,
    stored: Vars,
    events: Seq<Event>,
)
    requires
        !shared.degraded,
        entry(shared.synced, name) != Some(record),
        events_describe(
            events,
            shared.synced,
            synced_state(shared_after(shared, Target::Universal, name, Some(record)), stored).universal,
        ),
    ensures
        sync_due(shared_after(shared, Target::Universal, name, Some(record)), false),
        exists|i: int|
            0 <= i < events.len() && (#[trigger] events[i]).name@ == name && events[i].kind
                == EventKind::VariableSet,
        !synced_state(shared_after(shared, Target::Universal, name, Some(record)), stored).dirty,
{
    let written = shared_after(shared, Target::Universal, name, Some(record));
    let now = merged(universal_of(written), stored);
    assert(now.contains_key(name) && now[name] == record);
    assert(entry(shared.synced, name) != entry(now, name));
}

/// A snapshot is a copy of the local frames and reads the shared state
/// through. Let `snapshot` be the frames of a stack at some time, and let
/// the stack be written to afterwards. A write that goes to a local frame
/// of the stack leaves every read of the snapshot as it was. A write
/// that goes to the global frame shows in the snapshot: the name reads as
/// the new record, unless a local frame of the snapshot holds the name.
pub proof fn law_snapshot_reads_through(
    snapshot: Seq<FrameView>,
    frames: Seq<FrameView>,
    shared: SharedView,
    key: Seq<char>,
    mode: EnvMode,
    values: Seq<Seq<char>>,
)
    ensures
        set_effect(frames, shared, key, mode) is Local ==> forall|n: Seq<char>, m: EnvMode|
            #[trigger] resolve(snapshot, after_set(frames, shared, key, mode, values).shared, n, m)
                == resolve(snapshot, shared, n, m),
        set_effect(frames, shared, key, mode) is Global && holder(snapshot, key) < 0 ==> visible(
            snapshot,
            after_set(frames, shared, key, mode, values).shared,
            key,
        ) == Some(new_record(frames, shared, key, mode, values)),
{
}

} // verus!
