//! Read-only access to variables: the interface that every kind of
//! environment offers, and the kinds that need no stack.

use crate::model::{resolve, visible_names, FrameView, SharedView};
use crate::shared::SharedEnv;
use crate::frame::{collect_names, frame_views, lookup, Frame};
use crate::stack::EnvStack;
use crate::text::{add_name, distinct_names, listed, push_char, str_eq, to_chars};
use crate::var::{opt_view, EnvMode, EnvVar, EnvVarFlags, VarView};
use vstd::prelude::*;

verus! {

/// The mode of a plain read: no scope and no qualifier.
pub open spec fn plain_mode() -> EnvMode {
    EnvMode { bits: 0 }
}

/// A string with a slash at its end: `s` itself where it ends in one.
pub open spec fn with_slash(s: Seq<char>) -> Seq<char> {
    if s.len() > 0 && s.last() == '/' {
        s
    } else {
        s.push('/')
    }
}

/// The working directory with a slash at its end, given the record of
/// `PWD`: a single slash where there is no record.
pub open spec fn pwd_slash(pwd: Option<VarView>) -> Seq<char> {
    match pwd {
        Some(var) => with_slash(var.joined()),
        None => seq!['/'],
    }
}

/// `var` unless it is missing or has no values.
pub open spec fn unless_empty(var: Option<VarView>) -> Option<VarView> {
    match var {
        Some(v) => if v.values.len() > 0 {
            Some(v)
        } else {
            None
        },
        None => None,
    }
}

fn ends_with_slash(s: &str) -> (r: bool)
    ensures
        r == (s@.len() > 0 && s@.last() == '/'),
{
    let chars = to_chars(s);
    chars.len() > 0 && chars[chars.len() - 1] == '/'
}

/// An environment is read-only access to variable values. Every read is
/// handed the state that the process shares; an environment that keeps its
/// variables to itself does not look at it.
pub trait Environment {
    /// The record that a read of `name` under `mode` finds.
    spec fn lookup(&self, shared: SharedView, name: Seq<char>, mode: EnvMode) -> Option<VarView>;

    /// The names that are visible under `mode`.
    spec fn names(&self, shared: SharedView, mode: EnvMode) -> Set<Seq<char>>;

    /// Gets a variable by name under the given mode.
    fn getf(&self, shared: &SharedEnv, name: &str, mode: EnvMode) -> (r: Option<EnvVar>)
        ensures
            opt_view(r) == self.lookup(shared@, name@, mode),
    ;

    /// The names of the variables visible under `flags`, each once.
    fn get_names(&self, shared: &SharedEnv, flags: EnvMode) -> (r: Vec<String>)
        ensures
            forall|n: Seq<char>| #[trigger] listed(r@, n) <==> self.names(shared@, flags).contains(n),
            distinct_names(r@),
    ;

    /// Gets a variable by name under the default mode.
    fn get(&self, shared: &SharedEnv, name: &str) -> (r: Option<EnvVar>)
        ensures
            opt_view(r) == self.lookup(shared@, name@, plain_mode()),
    {
        self.getf(shared, name, EnvMode::default_mode())
    }

    /// The working directory with a slash at its end: a single slash where
    /// `PWD` is not set.
    fn get_pwd_slash(&self, shared: &SharedEnv) -> (r: String)
        ensures
            r@ == pwd_slash(self.lookup(shared@, "PWD"@, plain_mode())),
    {
        match self.get(shared, "PWD") {
            Some(var) => {
                let mut pwd = var.as_string();
                if !ends_with_slash(pwd.as_str()) {
                    push_char(&mut pwd, '/');
                }
                pwd
            },
            None => {
                let mut pwd = String::new();
                push_char(&mut pwd, '/');
                assert(pwd@ =~= seq!['/']);
                pwd
            },
        }
    }

    /// Gets a variable by name under the default mode, unless it has no
    /// values.
    fn get_unless_empty(&self, shared: &SharedEnv, name: &str) -> (r: Option<EnvVar>)
        ensures
            opt_view(r) == unless_empty(self.lookup(shared@, name@, plain_mode())),
    {
        self.getf_unless_empty(shared, name, EnvMode::default_mode())
    }

    /// Gets a variable by name under the given mode, unless it has no
    /// values.
    fn getf_unless_empty(&self, shared: &SharedEnv, name: &str, mode: EnvMode) -> (r: Option<
        EnvVar,
    >)
        ensures
            opt_view(r) == unless_empty(self.lookup(shared@, name@, mode)),
    {
        match self.getf(shared, name, mode) {
            Some(var) => {
                if !var.is_empty() {
                    Some(var)
                } else {
                    None
                }
            },
            None => None,
        }
    }
}

/// The null environment contains nothing.
#[derive(Clone, Copy, Debug)]
pub struct EnvNull;

impl EnvNull {
    /// The null environment.
    pub fn new() -> (r: EnvNull)
        ensures
            r == EnvNull,
    {
        EnvNull
    }
}

impl Environment for EnvNull {
    open spec fn lookup(&self, shared: SharedView, name: Seq<char>, mode: EnvMode) -> Option<
        VarView,
    > {
        None
    }

    open spec fn names(&self, shared: SharedView, mode: EnvMode) -> Set<Seq<char>> {
        Set::empty()
    }

    fn getf(&self, _shared: &SharedEnv, _name: &str, _mode: EnvMode) -> (r: Option<EnvVar>) {
        None
    }

    fn get_names(&self, _shared: &SharedEnv, _flags: EnvMode) -> (r: Vec<String>) {
        Vec::new()
    }
}

/// A wrapper of an environment of any kind: it owns the environment and
/// hands every read on to it.
pub struct EnvDyn<E: Environment> {
    inner: Box<E>,
}

impl<E: Environment> EnvDyn<E> {
    /// The environment that is wrapped.
    pub closed spec fn wrapped(&self) -> E {
        *self.inner
    }

    /// The wrapper of `inner`.
    pub fn new(inner: Box<E>) -> (r: EnvDyn<E>)
        ensures
            r.wrapped() == *inner,
    {
        EnvDyn { inner }
    }
}

impl<E: Environment> Environment for EnvDyn<E> {
    open spec fn lookup(&self, shared: SharedView, name: Seq<char>, mode: EnvMode) -> Option<
        VarView,
    > {
        self.wrapped().lookup(shared, name, mode)
    }

    open spec fn names(&self, shared: SharedView, mode: EnvMode) -> Set<Seq<char>> {
        self.wrapped().names(shared, mode)
    }

    fn getf(&self, shared: &SharedEnv, key: &str, mode: EnvMode) -> (r: Option<EnvVar>) {
        self.inner.getf(shared, key, mode)
    }

    fn get_names(&self, shared: &SharedEnv, flags: EnvMode) -> (r: Vec<String>) {
        self.inner.get_names(shared, flags)
    }

    fn get_pwd_slash(&self, shared: &SharedEnv) -> (r: String) {
        self.inner.get_pwd_slash(shared)
    }
}

/// An immutable environment: the local frames of a stack as they were when
/// the snapshot was taken. Its reads go through to the global frame and the
/// universal variables as they are at the time of the read.
#[derive(Debug)]
pub struct EnvScoped {
    locals: Vec<Frame>,
}

impl EnvScoped {
    /// The local frames that the snapshot holds, outermost first.
    pub closed spec fn frames(&self) -> Seq<FrameView> {
        frame_views(self.locals@)
    }

    /// The snapshot that holds the frames `locals`.
    pub(crate) fn from_impl(locals: Vec<Frame>) -> (r: EnvScoped)
        ensures
            r.frames() == frame_views(locals@),
    {
        EnvScoped { locals }
    }
}

impl Environment for EnvScoped {
    open spec fn lookup(&self, shared: SharedView, name: Seq<char>, mode: EnvMode) -> Option<
        VarView,
    > {
        resolve(self.frames(), shared, name, mode)
    }

    open spec fn names(&self, shared: SharedView, mode: EnvMode) -> Set<Seq<char>> {
        visible_names(self.frames(), shared, mode)
    }

    fn getf(&self, shared: &SharedEnv, key: &str, mode: EnvMode) -> (r: Option<EnvVar>) {
        lookup(&self.locals, shared, key, mode)
    }

    fn get_names(&self, shared: &SharedEnv, flags: EnvMode) -> (r: Vec<String>) {
        collect_names(&self.locals, shared, flags)
    }
}

impl Environment for EnvStack {
    open spec fn lookup(&self, shared: SharedView, name: Seq<char>, mode: EnvMode) -> Option<
        VarView,
    > {
        resolve(self@.frames, shared, name, mode)
    }

    open spec fn names(&self, shared: SharedView, mode: EnvMode) -> Set<Seq<char>> {
        visible_names(self@.frames, shared, mode)
    }

    fn getf(&self, shared: &SharedEnv, key: &str, mode: EnvMode) -> (r: Option<EnvVar>) {
        EnvStack::getf(self, shared, key, mode)
    }

    fn get_names(&self, shared: &SharedEnv, flags: EnvMode) -> (r: Vec<String>) {
        EnvStack::get_names(self, shared, flags)
    }
}

/// The value that the last entry of `list` named `name` gives it.
pub open spec fn assoc(list: Seq<(String, String)>, name: Seq<char>) -> Option<Seq<char>>
    decreases list.len(),
{
    if list.len() == 0 {
        None
    } else if list.last().0@ == name {
        Some(list.last().1@)
    } else {
        assoc(list.drop_last(), name)
    }
}

/// Whether an entry of `list` is named `name`.
pub open spec fn has_key(list: Seq<(String, String)>, name: Seq<char>) -> bool {
    exists|i: int| 0 <= i < list.len() && (#[trigger] list[i]).0@ == name
}

/// The record of one plain value.
pub open spec fn plain_record(value: Seq<char>) -> VarView {
    VarView {
        values: seq![value],
        flags: EnvVarFlags { exports: false, read_only: false, pathvar: false },
    }
}

/// An environment built around a list of names and values, for tests. Of
/// two entries with one name the later one counts.
#[derive(Debug)]
pub struct TestEnvironment {
    pub vars: Vec<(String, String)>,
}

impl Default for TestEnvironment {
    fn default() -> (r: Self)
        ensures
            r.vars@.len() == 0,
    {
        TestEnvironment { vars: Vec::new() }
    }
}

impl Environment for TestEnvironment {
    open spec fn lookup(&self, shared: SharedView, name: Seq<char>, mode: EnvMode) -> Option<
        VarView,
    > {
        match assoc(self.vars@, name) {
            Some(value) => Some(plain_record(value)),
            None => None,
        }
    }

    open spec fn names(&self, shared: SharedView, mode: EnvMode) -> Set<Seq<char>> {
        Set::new(|n: Seq<char>| has_key(self.vars@, n))
    }

    fn getf(&self, _shared: &SharedEnv, name: &str, _mode: EnvMode) -> (r: Option<EnvVar>) {
        let mut i: usize = self.vars.len();
        assert(self.vars@.take(i as int) =~= self.vars@);
        while i > 0
            invariant
                i <= self.vars.len(),
                assoc(self.vars@, name@) == assoc(self.vars@.take(i as int), name@),
            decreases i,
        {
            assert(self.vars@.take(i as int).last() == self.vars@[i - 1]);
            assert(self.vars@.take(i as int).drop_last() =~= self.vars@.take(i - 1));
            if str_eq(self.vars[i - 1].0.as_str(), name) {
                return Some(EnvVar::new(self.vars[i - 1].1.clone(), EnvVarFlags::default()));
            }
            i -= 1;
        }
        None
    }

    fn get_names(&self, _shared: &SharedEnv, _flags: EnvMode) -> (r: Vec<String>) {
        let mut names: Vec<String> = Vec::new();
        let mut i: usize = 0;
        while i < self.vars.len()
            invariant
                i <= self.vars.len(),
                distinct_names(names@),
                forall|n: Seq<char>| #[trigger]
                    listed(names@, n) <==> exists|j: int|
                        0 <= j < i && (#[trigger] self.vars@[j]).0@ == n,
            decreases self.vars.len() - i,
        {
            let ghost prev = names@;
            add_name(&mut names, self.vars[i].0.as_str());
            proof {
                assert forall|n: Seq<char>| #[trigger]
                    listed(names@, n) <==> exists|j: int|
                        0 <= j < i + 1 && (#[trigger] self.vars@[j]).0@ == n by {
                    if listed(prev, n) {
                        let j = choose|j: int| 0 <= j < i && (#[trigger] self.vars@[j]).0@ == n;
                        assert(0 <= j < i + 1 && self.vars@[j].0@ == n);
                    }
                    if n == self.vars@[i as int].0@ {
                        assert(0 <= i < i + 1 && self.vars@[i as int].0@ == n);
                    }
                    if exists|j: int| 0 <= j < i + 1 && (#[trigger] self.vars@[j]).0@ == n {
                        let j = choose|j: int|
                            0 <= j < i + 1 && (#[trigger] self.vars@[j]).0@ == n;
                        if j < i {
                            assert(listed(prev, n));
                        }
                    }
                }
            }
            i += 1;
        }
        names
    }
}

/// A test environment that knows about `PWD`: it reports the working
/// directory `cwd`, which its maker has read from the system, and hands
/// every other read on to `parent`.
#[derive(Debug)]
pub struct PwdEnvironment {
    pub parent: TestEnvironment,
    pub cwd: String,
}

impl Default for PwdEnvironment {
    fn default() -> (r: Self)
        ensures
            r.parent.vars@.len() == 0,
            r.cwd@.len() == 0,
    {
        PwdEnvironment { parent: TestEnvironment::default(), cwd: String::new() }
    }
}

impl Environment for PwdEnvironment {
    open spec fn lookup(&self, shared: SharedView, name: Seq<char>, mode: EnvMode) -> Option<
        VarView,
    > {
        if name == "PWD"@ {
            Some(plain_record(self.cwd@))
        } else {
            self.parent.lookup(shared, name, mode)
        }
    }

    open spec fn names(&self, shared: SharedView, mode: EnvMode) -> Set<Seq<char>> {
        self.parent.names(shared, mode).insert("PWD"@)
    }

    fn getf(&self, shared: &SharedEnv, name: &str, mode: EnvMode) -> (r: Option<EnvVar>) {
        if str_eq(name, "PWD") {
            return Some(EnvVar::new(self.cwd.clone(), EnvVarFlags::default()));
        }
        self.parent.getf(shared, name, mode)
    }

    fn get_names(&self, shared: &SharedEnv, flags: EnvMode) -> (r: Vec<String>) {
        let mut res = self.parent.get_names(shared, flags);
        add_name(&mut res, "PWD");
        res
    }
}

impl EnvStack {
    /// Snapshots this environment: the result holds a copy of the local
    /// frames, so that later changes to the stack's local variables do not
    /// show in it, and reads the shared state that it is handed, so that
    /// later changes to global variables do.
    pub fn snapshot(&self) -> (r: EnvDyn<EnvScoped>)
        ensures
            r.wrapped().frames() == self@.frames,
    {
        EnvDyn::new(Box::new(EnvScoped::from_impl(self.copy_frames())))
    }
}

} // verus!
