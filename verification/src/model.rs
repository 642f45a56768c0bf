//! The mathematical model of the environment: what a chain of frames, the
//! global frame and the universal store make visible, and what a write, a
//! removal and a pop do to them. The executable types are specified against
//! these functions.

use crate::path::normalized_values;
use crate::table::{amend, entry, Vars};
use crate::text::listed;
use crate::var::{EnvMode, EnvStackSetResult, EnvVarFlags, ModResult, VarView};
use vstd::prelude::*;

verus! {

/// One level of the scope chain.
pub struct FrameView {
    pub vars: Vars,
    /// A shadowing frame hides the local frames outside it.
    pub shadowing: bool,
}

/// The state that all stacks of a process share.
pub struct SharedView {
    /// The global frame.
    pub globals: Vars,
    /// This instance's view of the universal variables, with its own writes
    /// that the external store has not seen yet.
    pub universal: Vars,
    /// The universal variables as the last successful synchronization left
    /// them.
    pub synced: Vars,
    /// A universal variable was written since the last synchronization.
    pub dirty: bool,
    /// The universal scope is switched off.
    pub degraded: bool,
}

/// The index of the innermost shadowing frame, or -1 where no frame shadows.
/// The local frames at and above this index are the visible ones.
pub open spec fn boundary(frames: Seq<FrameView>) -> int
    decreases frames.len(),
{
    if frames.len() == 0 {
        -1
    } else if frames.last().shadowing {
        frames.len() - 1
    } else {
        boundary(frames.drop_last())
    }
}

/// The index of the innermost visible local frame that holds `name`, or -1
/// where none does. Frames are listed outermost first.
pub open spec fn holder(frames: Seq<FrameView>, name: Seq<char>) -> int
    decreases frames.len(),
{
    if frames.len() == 0 {
        -1
    } else if frames.last().vars.contains_key(name) {
        frames.len() - 1
    } else if frames.last().shadowing {
        -1
    } else {
        holder(frames.drop_last(), name)
    }
}

/// The boundary is a shadowing frame, and no frame inside it shadows.
pub proof fn lemma_boundary(frames: Seq<FrameView>)
    ensures
        -1 <= boundary(frames) < frames.len(),
        boundary(frames) >= 0 ==> frames[boundary(frames)].shadowing,
        forall|i: int| boundary(frames) < i < frames.len() ==> !(#[trigger] frames[i]).shadowing,
    decreases frames.len(),
{
    if frames.len() > 0 && !frames.last().shadowing {
        lemma_boundary(frames.drop_last());
        assert forall|i: int| boundary(frames) < i < frames.len() implies !(
        #[trigger] frames[i]).shadowing by {
            if i < frames.len() - 1 {
                assert(frames.drop_last()[i] == frames[i]);
            }
        }
    }
}

/// The holder is a visible frame that has the name, and no frame inside it
/// has the name; where there is no holder, no visible frame has it.
pub proof fn lemma_holder(frames: Seq<FrameView>, name: Seq<char>)
    ensures
        -1 <= holder(frames, name) < frames.len(),
        holder(frames, name) >= 0 ==> frames[holder(frames, name)].vars.contains_key(name)
            && boundary(frames) <= holder(frames, name),
        forall|i: int|
            holder(frames, name) < i < frames.len() && boundary(frames) <= i ==> !(
            #[trigger] frames[i]).vars.contains_key(name),
    decreases frames.len(),
{
    lemma_boundary(frames);
    if frames.len() > 0 && !frames.last().vars.contains_key(name) && !frames.last().shadowing {
        lemma_holder(frames.drop_last(), name);
        if holder(frames, name) >= 0 {
            assert(frames.drop_last()[holder(frames, name)] == frames[holder(frames, name)]);
        }
        assert forall|i: int|
            holder(frames, name) < i < frames.len() && boundary(frames) <= i implies !(
        #[trigger] frames[i]).vars.contains_key(name) by {
            if i < frames.len() - 1 {
                assert(frames.drop_last()[i] == frames[i]);
            }
        }
    }
}

/// The record that the local frames make visible under `name`.
pub open spec fn local_lookup(frames: Seq<FrameView>, name: Seq<char>) -> Option<VarView> {
    if holder(frames, name) >= 0 {
        Some(frames[holder(frames, name)].vars[name])
    } else {
        None
    }
}

/// The record visible under `name` in the default search order: the visible
/// local frames from the innermost outwards, then the global frame, then the
/// universal store.
pub open spec fn visible(frames: Seq<FrameView>, shared: SharedView, name: Seq<char>) -> Option<
    VarView,
> {
    if holder(frames, name) >= 0 {
        local_lookup(frames, name)
    } else if shared.globals.contains_key(name) {
        Some(shared.globals[name])
    } else {
        entry(shared.universal, name)
    }
}

/// Whether a read under `mode` looks at the global frame: the mode reads
/// the global tier, or it names the local scope on a chain without local
/// frames, whose innermost frame is the global one.
pub open spec fn searches_global(frames: Seq<FrameView>, mode: EnvMode) -> bool {
    mode.reads_global() || (mode.local() && frames.len() == 0)
}

/// The record that a read of `name` under `mode` finds first, before the
/// export filter: the tiers that the mode names are searched in the default
/// order. The local scope names the innermost frame of the chain, so on a
/// chain without local frames it reads the global frame.
pub open spec fn first_match(
    frames: Seq<FrameView>,
    shared: SharedView,
    name: Seq<char>,
    mode: EnvMode,
) -> Option<VarView> {
    if mode.reads_local() && holder(frames, name) >= 0 {
        local_lookup(frames, name)
    } else if searches_global(frames, mode) && shared.globals.contains_key(name) {
        Some(shared.globals[name])
    } else if mode.reads_universal() {
        entry(shared.universal, name)
    } else {
        None
    }
}

/// What a read of `name` under `mode` returns: the first match, unless the
/// mode asks for exported variables and the match is not exported.
pub open spec fn resolve(
    frames: Seq<FrameView>,
    shared: SharedView,
    name: Seq<char>,
    mode: EnvMode,
) -> Option<VarView> {
    match first_match(frames, shared, name, mode) {
        Some(var) => if mode.admits(var) {
            Some(var)
        } else {
            None
        },
        None => None,
    }
}

/// Whether `vars` holds `name` with a record that passes the mode's filter.
pub open spec fn lists(vars: Vars, name: Seq<char>, mode: EnvMode) -> bool {
    vars.contains_key(name) && mode.admits(vars[name])
}

/// Whether a visible local frame lists `name` under `mode`.
pub open spec fn locals_list(frames: Seq<FrameView>, name: Seq<char>, mode: EnvMode) -> bool {
    exists|i: int|
        0 <= i < frames.len() && boundary(frames) <= i && #[trigger] lists(
            frames[i].vars,
            name,
            mode,
        )
}

/// The names visible under `mode`: those of the visible local frames, of the
/// global frame and of the universal store, as far as the mode names the
/// tier and the record passes its filter. On a chain without local frames
/// the local scope names the global frame.
pub open spec fn visible_names(frames: Seq<FrameView>, shared: SharedView, mode: EnvMode) -> Set<
    Seq<char>,
> {
    Set::new(
        |n: Seq<char>|
            (mode.reads_local() && locals_list(frames, n, mode)) || (searches_global(frames, mode)
                && lists(shared.globals, n, mode)) || (mode.reads_universal() && lists(
                shared.universal,
                n,
                mode,
            )),
    )
}

/// Whether the variable visible under `name` is read-only.
pub open spec fn is_read_only(frames: Seq<FrameView>, shared: SharedView, name: Seq<char>) -> bool {
    match visible(frames, shared, name) {
        Some(var) => var.flags.read_only,
        None => false,
    }
}

/// How a write or a removal of `name` under `mode` ends. It is refused for a
/// read-only variable unless the mode carries the override qualifier, and
/// for a mode that names more than one scope or names the universal scope
/// while that scope is switched off.
pub open spec fn write_status(
    frames: Seq<FrameView>,
    shared: SharedView,
    name: Seq<char>,
    mode: EnvMode,
) -> EnvStackSetResult {
    if is_read_only(frames, shared, name) && !mode.user() {
        EnvStackSetResult::ENV_PERM
    } else if mode.ambiguous() || (mode.universal() && shared.degraded) {
        EnvStackSetResult::ENV_SCOPE
    } else {
        EnvStackSetResult::ENV_OK
    }
}

/// Where a write goes.
pub enum Target {
    /// The local frame at this index.
    Local(int),
    /// The global frame.
    Global,
    /// The universal store.
    Universal,
    /// Nowhere: a removal found nothing to remove.
    Nowhere,
}

/// The frame that a write of `name` under `mode` stores into. A named scope
/// decides: the innermost frame for the local scope, which is the global
/// frame where there is no local frame. Without a scope the variable is
/// written where it is visible now; a new variable goes to the innermost
/// shadowing frame, or to the global frame where no frame shadows.
pub open spec fn set_target(
    frames: Seq<FrameView>,
    shared: SharedView,
    name: Seq<char>,
    mode: EnvMode,
) -> Target {
    if mode.universal() {
        Target::Universal
    } else if mode.global() {
        Target::Global
    } else if mode.local() {
        if frames.len() > 0 {
            Target::Local(frames.len() - 1)
        } else {
            Target::Global
        }
    } else if holder(frames, name) >= 0 {
        Target::Local(holder(frames, name))
    } else if shared.globals.contains_key(name) {
        Target::Global
    } else if shared.universal.contains_key(name) && !shared.degraded {
        Target::Universal
    } else if boundary(frames) >= 0 {
        Target::Local(boundary(frames))
    } else {
        Target::Global
    }
}

/// The frame that a removal of `name` under `mode` deletes from. A named
/// scope selects its frame, the innermost one for the local scope; without
/// a scope it is the frame in which the variable is visible now.
pub open spec fn remove_target(
    frames: Seq<FrameView>,
    shared: SharedView,
    name: Seq<char>,
    mode: EnvMode,
) -> Target {
    if mode.universal() {
        if shared.universal.contains_key(name) {
            Target::Universal
        } else {
            Target::Nowhere
        }
    } else if mode.global() {
        if shared.globals.contains_key(name) {
            Target::Global
        } else {
            Target::Nowhere
        }
    } else if mode.local() {
        if frames.len() > 0 {
            if frames.last().vars.contains_key(name) {
                Target::Local(frames.len() - 1)
            } else {
                Target::Nowhere
            }
        } else if shared.globals.contains_key(name) {
            Target::Global
        } else {
            Target::Nowhere
        }
    } else if holder(frames, name) >= 0 {
        Target::Local(holder(frames, name))
    } else if shared.globals.contains_key(name) {
        Target::Global
    } else if shared.universal.contains_key(name) && !shared.degraded {
        Target::Universal
    } else {
        Target::Nowhere
    }
}

/// The record that a write of `values` to `name` under `mode` stores: the
/// normalized values, the export and path flags of the mode, and the
/// read-only flag of the variable that was visible under the name.
pub open spec fn new_record(
    frames: Seq<FrameView>,
    shared: SharedView,
    name: Seq<char>,
    mode: EnvMode,
    values: Seq<Seq<char>>,
) -> VarView {
    VarView {
        values: normalized_values(name, values),
        flags: EnvVarFlags {
            exports: mode.exports(),
            read_only: is_read_only(frames, shared, name),
            pathvar: mode.pathvar(),
        },
    }
}

/// The local frames after `change` was applied to `name` at `target`.
pub open spec fn frames_after(
    frames: Seq<FrameView>,
    target: Target,
    name: Seq<char>,
    change: Option<VarView>,
) -> Seq<FrameView> {
    match target {
        Target::Local(i) => frames.update(
            i,
            FrameView { vars: amend(frames[i].vars, name, change), shadowing: frames[i].shadowing },
        ),
        _ => frames,
    }
}

/// The shared state after `change` was applied to `name` at `target`. A
/// change to the universal store raises the dirty flag.
pub open spec fn shared_after(
    shared: SharedView,
    target: Target,
    name: Seq<char>,
    change: Option<VarView>,
) -> SharedView {
    match target {
        Target::Global => SharedView { globals: amend(shared.globals, name, change), ..shared },
        Target::Universal => SharedView {
            universal: amend(shared.universal, name, change),
            dirty: true,
            ..shared
        },
        _ => shared,
    }
}

/// The report of a write that went to `target` with `status`. A change
/// notification is owed for a successful write that touched the global
/// frame, and for every successful write of the principal stack.
pub open spec fn report(status: EnvStackSetResult, target: Target, principal: bool) -> ModResult {
    if status == EnvStackSetResult::ENV_OK {
        ModResult {
            status,
            global_modified: target is Global,
            uvar_modified: target is Universal,
            dispatch: target is Global || principal,
        }
    } else {
        ModResult { status, global_modified: false, uvar_modified: false, dispatch: false }
    }
}

/// Where a `set` of `name` under `mode` takes effect: nowhere if it is
/// refused.
pub open spec fn set_effect(
    frames: Seq<FrameView>,
    shared: SharedView,
    name: Seq<char>,
    mode: EnvMode,
) -> Target {
    if write_status(frames, shared, name, mode) == EnvStackSetResult::ENV_OK {
        set_target(frames, shared, name, mode)
    } else {
        Target::Nowhere
    }
}

/// Where a `remove` of `name` under `mode` takes effect: nowhere if it is
/// refused.
pub open spec fn remove_effect(
    frames: Seq<FrameView>,
    shared: SharedView,
    name: Seq<char>,
    mode: EnvMode,
) -> Target {
    if write_status(frames, shared, name, mode) == EnvStackSetResult::ENV_OK {
        remove_target(frames, shared, name, mode)
    } else {
        Target::Nowhere
    }
}

/// The local frames of a stack together with the shared state.
pub struct EnvState {
    pub frames: Seq<FrameView>,
    pub shared: SharedView,
}

/// The state after a `set` of `name` to `values` under `mode`.
pub open spec fn after_set(
    frames: Seq<FrameView>,
    shared: SharedView,
    name: Seq<char>,
    mode: EnvMode,
    values: Seq<Seq<char>>,
) -> EnvState {
    let target = set_effect(frames, shared, name, mode);
    let record = Some(new_record(frames, shared, name, mode, values));
    EnvState {
        frames: frames_after(frames, target, name, record),
        shared: shared_after(shared, target, name, record),
    }
}

/// The state after a `remove` of `name` under `mode`.
pub open spec fn after_remove(
    frames: Seq<FrameView>,
    shared: SharedView,
    name: Seq<char>,
    mode: EnvMode,
) -> EnvState {
    let target = remove_effect(frames, shared, name, mode);
    EnvState {
        frames: frames_after(frames, target, name, None),
        shared: shared_after(shared, target, name, None),
    }
}

/// The names whose visible record differs between two chains of frames over
/// the same shared state.
pub open spec fn changed_names(
    before: Seq<FrameView>,
    after: Seq<FrameView>,
    shared: SharedView,
) -> Set<Seq<char>> {
    Set::new(|n: Seq<char>| visible(before, shared, n) != visible(after, shared, n))
}

/// The line `NAME=value` that hands `var` to a child process under `name`.
pub open spec fn export_line(name: Seq<char>, var: VarView) -> Seq<char> {
    name.push('=') + var.joined()
}

/// Whether `line` is the export line of a visible, exported variable.
pub open spec fn is_export_line(frames: Seq<FrameView>, shared: SharedView, line: Seq<char>) -> bool {
    exists|n: Seq<char>|
        match #[trigger] visible(frames, shared, n) {
            Some(var) => var.flags.exports && line == export_line(n, var),
            None => false,
        }
}

/// The record that the shared tiers make visible under `name`: that of the
/// global frame, else that of the universal store.
pub open spec fn shared_record(globals: Vars, universal: Vars, name: Seq<char>) -> Option<VarView> {
    if globals.contains_key(name) {
        Some(globals[name])
    } else {
        entry(universal, name)
    }
}

/// Whether the variable that the shared tiers make visible under `name`
/// is exported.
pub open spec fn shared_exported(globals: Vars, universal: Vars, name: Seq<char>) -> bool {
    match shared_record(globals, universal, name) {
        Some(var) => var.flags.exports,
        None => false,
    }
}

/// Whether `line` is the export line of the variable that the shared tiers
/// make visible under `name`.
pub open spec fn shared_exports_as(
    globals: Vars,
    universal: Vars,
    name: Seq<char>,
    line: Seq<char>,
) -> bool {
    match shared_record(globals, universal, name) {
        Some(var) => var.flags.exports && line == export_line(name, var),
        None => false,
    }
}

/// Whether `list` has an entry for `name`.
pub open spec fn named_in(list: Seq<(String, String)>, name: Seq<char>) -> bool {
    exists|i: int| 0 <= i < list.len() && (#[trigger] list[i]).0@ == name
}

/// Whether `list` holds the exported variables of the shared tiers, each
/// once, as pairs of a name and its export line.
pub open spec fn shared_export_listing(
    list: Seq<(String, String)>,
    globals: Vars,
    universal: Vars,
) -> bool {
    &&& forall|i: int, j: int|
        0 <= i < j < list.len() ==> (#[trigger] list[i]).0@ != (#[trigger] list[j]).0@
    &&& forall|i: int|
        0 <= i < list.len() ==> shared_exports_as(
            globals,
            universal,
            (#[trigger] list[i]).0@,
            list[i].1@,
        )
    &&& forall|n: Seq<char>| shared_exported(globals, universal, n) ==> named_in(list, n)
}

/// Whether `line` is the export line of the variable visible under `name`.
pub open spec fn exports_as(
    frames: Seq<FrameView>,
    shared: SharedView,
    name: Seq<char>,
    line: Seq<char>,
) -> bool {
    match visible(frames, shared, name) {
        Some(var) => var.flags.exports && line == export_line(name, var),
        None => false,
    }
}

/// Whether the variable visible under `name` is exported.
pub open spec fn is_exported(frames: Seq<FrameView>, shared: SharedView, name: Seq<char>) -> bool {
    match visible(frames, shared, name) {
        Some(var) => var.flags.exports,
        None => false,
    }
}

/// Whether `lines` are the export lines of the names `names`, in order,
/// and `names` are the visible exported variables, each once.
pub open spec fn export_listing(
    lines: Seq<String>,
    names: Seq<Seq<char>>,
    frames: Seq<FrameView>,
    shared: SharedView,
) -> bool {
    &&& names.len() == lines.len()
    &&& names.no_duplicates()
    &&& forall|i: int|
        0 <= i < lines.len() ==> exports_as(frames, shared, #[trigger] names[i], lines[i]@)
    &&& forall|n: Seq<char>| is_exported(frames, shared, n) ==> names.contains(n)
}

/// The lines of an export listing are exactly the export lines of the
/// visible exported variables.
pub proof fn lemma_listing_lines(
    lines: Seq<String>,
    names: Seq<Seq<char>>,
    frames: Seq<FrameView>,
    shared: SharedView,
)
    requires
        export_listing(lines, names, frames, shared),
    ensures
        forall|line: Seq<char>| #[trigger]
            listed(lines, line) <==> is_export_line(frames, shared, line),
{
    assert forall|line: Seq<char>| #[trigger]
        listed(lines, line) <==> is_export_line(frames, shared, line) by {
        if listed(lines, line) {
            let x = choose|x: int| 0 <= x < lines.len() && (#[trigger] lines[x])@ == line;
            assert(exports_as(frames, shared, names[x], line));
            assert(visible(frames, shared, names[x]) is Some);
        }
        if is_export_line(frames, shared, line) {
            let n = choose|n: Seq<char>|
                match #[trigger] visible(frames, shared, n) {
                    Some(var) => var.flags.exports && line == export_line(n, var),
                    None => false,
                };
            assert(is_exported(frames, shared, n));
            assert(names.contains(n));
            let x = names.index_of(n);
            assert(names[x] == n);
            assert(exports_as(frames, shared, names[x], lines[x]@));
            assert(lines[x]@ == line);
        }
    }
}

} // verus!
