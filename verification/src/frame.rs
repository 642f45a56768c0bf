//! Frames: the levels of the scope chain, and what a chain of them makes
//! visible over the shared state.

use crate::model::{
    boundary, first_match, holder, lemma_boundary, lemma_holder, lists, locals_list, resolve,
    visible, visible_names, FrameView,
};
use crate::shared::SharedEnv;
use crate::table::{amend, VarTable};
use crate::text::{add_name, distinct_names, listed};
use crate::universal::opt_ref_view;
use crate::var::{opt_view, EnvMode, EnvVar};
use vstd::prelude::*;

verus! {

/// One level of the scope chain: a table of variables, and whether the
/// frame hides the local frames outside it.
#[derive(Debug)]
pub struct Frame {
    vars: VarTable,
    shadowing: bool,
}

impl View for Frame {
    type V = FrameView;

    closed spec fn view(&self) -> FrameView {
        FrameView { vars: self.vars@, shadowing: self.shadowing }
    }
}

impl Clone for Frame {
    fn clone(&self) -> (r: Self)
        ensures
            r@ == self@,
    {
        Frame { vars: self.vars.clone(), shadowing: self.shadowing }
    }
}

impl Frame {
    /// An empty frame.
    pub(crate) fn new(shadowing: bool) -> (r: Frame)
        ensures
            r@ == (FrameView { vars: Map::empty(), shadowing }),
    {
        Frame { vars: VarTable::new(), shadowing }
    }

    /// The variables of the frame.
    pub(crate) fn vars(&self) -> (r: &VarTable)
        ensures
            r@ == self@.vars,
    {
        &self.vars
    }

    /// Whether the frame holds `key`.
    pub(crate) fn contains(&self, key: &str) -> (r: bool)
        ensures
            r == self@.vars.contains_key(key@),
    {
        self.vars.contains(key)
    }

    /// Binds `key` to `change`, or deletes it where `change` is `None`.
    pub(crate) fn amend(&mut self, key: &str, change: Option<EnvVar>)
        ensures
            final(self)@ == (FrameView {
                vars: amend(old(self)@.vars, key@, opt_view(change)),
                shadowing: old(self)@.shadowing,
            }),
    {
        match change {
            Some(var) => {
                self.vars.insert(key.to_owned(), var);
            },
            None => {
                self.vars.remove(key);
            },
        }
    }
}

/// The views of a chain of frames, outermost first.
pub open spec fn frame_views(frames: Seq<Frame>) -> Seq<FrameView> {
    frames.map_values(|f: Frame| f@)
}

/// A deep copy of a chain of frames.
pub(crate) fn clone_frames(frames: &Vec<Frame>) -> (r: Vec<Frame>)
    ensures
        frame_views(r@) == frame_views(frames@),
{
    let mut r: Vec<Frame> = Vec::new();
    let mut i: usize = 0;
    while i < frames.len()
        invariant
            i <= frames.len(),
            r.len() == i,
            forall|j: int| 0 <= j < i ==> (#[trigger] r@[j])@ == frames@[j]@,
        decreases frames.len() - i,
    {
        r.push(frames[i].clone());
        i += 1;
    }
    assert(frame_views(r@) =~= frame_views(frames@));
    r
}

/// The index of the innermost shadowing frame among the first `depth`
/// frames.
pub(crate) fn find_boundary(frames: &Vec<Frame>, depth: usize) -> (r: Option<usize>)
    requires
        depth <= frames.len(),
    ensures
        match r {
            Some(i) => i == boundary(frame_views(frames@).take(depth as int)),
            None => boundary(frame_views(frames@).take(depth as int)) == -1,
        },
{
    let ghost all = frame_views(frames@);
    let mut i: usize = depth;
    while i > 0
        invariant
            i <= depth <= frames.len(),
            all == frame_views(frames@),
            boundary(all.take(depth as int)) == boundary(all.take(i as int)),
        decreases i,
    {
        assert(all.take(i as int).last() == frames@[i - 1]@);
        assert(all.take(i as int).drop_last() =~= all.take(i - 1));
        if frames[i - 1].shadowing {
            return Some(i - 1);
        }
        i -= 1;
    }
    None
}

/// The index of the innermost visible frame among the first `depth` frames
/// that holds `key`.
pub(crate) fn find_holder(frames: &Vec<Frame>, depth: usize, key: &str) -> (r: Option<usize>)
    requires
        depth <= frames.len(),
    ensures
        match r {
            Some(i) => i == holder(frame_views(frames@).take(depth as int), key@) && i < depth,
            None => holder(frame_views(frames@).take(depth as int), key@) == -1,
        },
{
    let ghost all = frame_views(frames@);
    let mut i: usize = depth;
    while i > 0
        invariant
            i <= depth <= frames.len(),
            all == frame_views(frames@),
            holder(all.take(depth as int), key@) == holder(all.take(i as int), key@),
        decreases i,
    {
        assert(all.take(i as int).last() == frames@[i - 1]@);
        assert(all.take(i as int).drop_last() =~= all.take(i - 1));
        if frames[i - 1].vars.contains(key) {
            return Some(i - 1);
        }
        if frames[i - 1].shadowing {
            return None;
        }
        i -= 1;
    }
    None
}

/// The record visible under `key` over the first `depth` frames, in the
/// default search order.
pub(crate) fn find_visible<'a>(
    frames: &'a Vec<Frame>,
    depth: usize,
    shared: &'a SharedEnv,
    key: &str,
) -> (r: Option<&'a EnvVar>)
    requires
        depth <= frames.len(),
    ensures
        opt_ref_view(r) == visible(frame_views(frames@).take(depth as int), shared@, key@),
{
    let ghost all = frame_views(frames@).take(depth as int);
    match find_holder(frames, depth, key) {
        Some(i) => {
            assert(all[i as int] == frames@[i as int]@);
            proof {
                lemma_holder(all, key@);
            }
            frames[i].vars.get(key)
        },
        None => {
            match shared.globals().get(key) {
                Some(var) => Some(var),
                None => shared.uvars().get(key),
            }
        },
    }
}

/// What a read of `key` under `mode` returns.
pub(crate) fn lookup(frames: &Vec<Frame>, shared: &SharedEnv, key: &str, mode: EnvMode) -> (r:
    Option<EnvVar>)
    ensures
        opt_view(r) == resolve(frame_views(frames@), shared@, key@, mode),
{
    let ghost all = frame_views(frames@);
    assert(all.take(frames.len() as int) =~= all);
    let scoped = mode.is_local() || mode.is_global() || mode.is_universal();
    let mut found: Option<&EnvVar> = None;
    if !scoped || mode.is_local() {
        match find_holder(frames, frames.len(), key) {
            Some(i) => {
                assert(all[i as int] == frames@[i as int]@);
                proof {
                    lemma_holder(all, key@);
                }
                found = frames[i].vars.get(key);
            },
            None => {},
        }
    }
    if found.is_none() && (!scoped || mode.is_global() || (mode.is_local() && frames.len() == 0)) {
        found = shared.globals().get(key);
    }
    if found.is_none() && (!scoped || mode.is_universal()) {
        found = shared.uvars().get(key);
    }
    assert(opt_ref_view(found) == first_match(all, shared@, key@, mode));
    match found {
        Some(var) => {
            if mode.is_export() && !var.exports() {
                None
            } else {
                Some(var.clone())
            }
        },
        None => None,
    }
}

/// Adds to `names` the names of `table` whose records pass the filter of
/// `mode`.
pub(crate) fn add_names(names: &mut Vec<String>, table: &VarTable, mode: EnvMode)
    ensures
        forall|n: Seq<char>| #[trigger]
            listed(final(names)@, n) <==> listed(old(names)@, n) || lists(table@, n, mode),
        distinct_names(old(names)@) ==> distinct_names(final(names)@),
{
    let ghost before = names@;
    let count = table.len();
    let mut i: usize = 0;
    while i < count
        invariant
            i <= count == table.keys().len(),
            forall|n: Seq<char>| #[trigger]
                listed(names@, n) <==> listed(before, n) || (lists(table@, n, mode) && exists|
                    j: int,
                | 0 <= j < i && table.keys()[j] == n),
            distinct_names(before) ==> distinct_names(names@),
        decreases count - i,
    {
        let (key, var) = table.entry(i);
        let ghost prev = names@;
        if !mode.is_export() || var.exports() {
            add_name(names, key.as_str());
        }
        proof {
            assert forall|n: Seq<char>| #[trigger]
                listed(names@, n) <==> listed(before, n) || (lists(table@, n, mode) && exists|
                    j: int,
                | 0 <= j < i + 1 && table.keys()[j] == n) by {
                if listed(prev, n) && !listed(before, n) {
                    let j = choose|j: int| 0 <= j < i && table.keys()[j] == n;
                    assert(0 <= j < i + 1 && table.keys()[j] == n);
                }
                if lists(table@, n, mode) && exists|j: int|
                    0 <= j < i + 1 && table.keys()[j] == n {
                    let j = choose|j: int| 0 <= j < i + 1 && table.keys()[j] == n;
                    if j < i {
                        assert(listed(prev, n));
                    }
                }
                if n == key@ {
                    assert(table.keys()[i as int] == n);
                }
            }
        }
        i += 1;
    }
    proof {
        table.lemma_keys_are_domain();
        assert forall|n: Seq<char>| #[trigger]
            listed(names@, n) <==> listed(before, n) || lists(table@, n, mode) by {
            if lists(table@, n, mode) {
                let j = table.keys().index_of(n);
                assert(table.keys()[j] == n);
            }
        }
    }
}

/// The names visible under `mode`, each once.
pub(crate) fn collect_names(frames: &Vec<Frame>, shared: &SharedEnv, mode: EnvMode) -> (r: Vec<
    String,
>)
    ensures
        forall|n: Seq<char>| #[trigger]
            listed(r@, n) <==> visible_names(frame_views(frames@), shared@, mode).contains(n),
        distinct_names(r@),
{
    let ghost all = frame_views(frames@);
    let mut names: Vec<String> = Vec::new();
    let scoped = mode.is_local() || mode.is_global() || mode.is_universal();
    assert(all.take(frames.len() as int) =~= all);
    proof {
        lemma_boundary(all);
    }
    if !scoped || mode.is_local() {
        let start = match find_boundary(frames, frames.len()) {
            Some(b) => b,
            None => 0,
        };
        let mut i: usize = start;
        while i < frames.len()
            invariant
                start <= i <= frames.len(),
                all == frame_views(frames@),
                boundary(all) <= start,
                boundary(all) >= 0 ==> boundary(all) == start,
                distinct_names(names@),
                forall|n: Seq<char>| #[trigger]
                    listed(names@, n) <==> exists|j: int|
                        0 <= j < i && boundary(all) <= j && #[trigger] lists(all[j].vars, n, mode),
            decreases frames.len() - i,
        {
            let ghost prev = names@;
            assert(all[i as int] == frames@[i as int]@);
            add_names(&mut names, &frames[i].vars, mode);
            proof {
                assert forall|n: Seq<char>| #[trigger]
                    listed(names@, n) <==> exists|j: int|
                        0 <= j < i + 1 && boundary(all) <= j && #[trigger] lists(
                            all[j].vars,
                            n,
                            mode,
                        ) by {
                    if listed(prev, n) {
                        let j = choose|j: int|
                            0 <= j < i && boundary(all) <= j && #[trigger] lists(
                                all[j].vars,
                                n,
                                mode,
                            );
                        assert(0 <= j < i + 1 && boundary(all) <= j && lists(all[j].vars, n, mode));
                    }
                    if lists(all[i as int].vars, n, mode) {
                        assert(0 <= i < i + 1 && boundary(all) <= i && lists(
                            all[i as int].vars,
                            n,
                            mode,
                        ));
                    }
                    if exists|j: int|
                        0 <= j < i + 1 && boundary(all) <= j && #[trigger] lists(
                            all[j].vars,
                            n,
                            mode,
                        ) {
                        let j = choose|j: int|
                            0 <= j < i + 1 && boundary(all) <= j && #[trigger] lists(
                                all[j].vars,
                                n,
                                mode,
                            );
                        if j < i {
                            assert(listed(prev, n));
                        }
                    }
                }
            }
            i += 1;
        }
    }
    assert forall|n: Seq<char>| #[trigger]
        listed(names@, n) <==> (mode.reads_local() && locals_list(all, n, mode)) by {
        if mode.reads_local() && locals_list(all, n, mode) {
            let j = choose|j: int|
                0 <= j < all.len() && boundary(all) <= j && #[trigger] lists(all[j].vars, n, mode);
            assert(0 <= j < frames.len() && boundary(all) <= j && lists(all[j].vars, n, mode));
        }
    }
    if !scoped || mode.is_global() || (mode.is_local() && frames.len() == 0) {
        add_names(&mut names, shared.globals(), mode);
    }
    if !scoped || mode.is_universal() {
        add_names(&mut names, shared.uvars().get_table(), mode);
    }
    names
}

} // verus!
