//! Variable records, scope qualifiers and the result codes of a write.

use crate::text::{clone_strings, join_spec, join_strings, str_eq, strs};
use libc::c_int;
use vstd::prelude::*;

verus! {

/// The flags that a stored variable carries.
#[derive(Clone, Copy, Debug, PartialEq, Eq, Structural)]
pub struct EnvVarFlags {
    /// The variable is handed to child processes.
    pub exports: bool,
    /// The variable may only be written with the user-override qualifier.
    pub read_only: bool,
    /// The variable is a path list: its values are joined with `:`.
    pub pathvar: bool,
}

impl Default for EnvVarFlags {
    fn default() -> (r: Self)
        ensures
            r == (EnvVarFlags { exports: false, read_only: false, pathvar: false }),
    {
        EnvVarFlags { exports: false, read_only: false, pathvar: false }
    }
}

/// What a variable record is: its values in order, and its flags.
pub struct VarView {
    pub values: Seq<Seq<char>>,
    pub flags: EnvVarFlags,
}

impl VarView {
    /// The character that separates the values when they are joined.
    pub open spec fn delimiter(self) -> char {
        if self.flags.pathvar {
            ':'
        } else {
            ' '
        }
    }

    /// The values joined into one string.
    pub open spec fn joined(self) -> Seq<char> {
        join_spec(self.values, self.delimiter())
    }
}

/// The view of an optional record.
pub open spec fn opt_view(v: Option<EnvVar>) -> Option<VarView> {
    match v {
        Some(var) => Some(var@),
        None => None,
    }
}

/// A variable record: an ordered list of values and a flag set. A record is
/// never changed in place; a write builds a new one.
#[derive(Debug, PartialEq, Eq)]
pub struct EnvVar {
    values: Vec<String>,
    flags: EnvVarFlags,
}

impl View for EnvVar {
    type V = VarView;

    closed spec fn view(&self) -> VarView {
        VarView { values: strs(self.values@), flags: self.flags }
    }
}

impl Clone for EnvVar {
    fn clone(&self) -> (r: Self)
        ensures
            r@ == self@,
    {
        EnvVar { values: clone_strings(&self.values), flags: self.flags }
    }
}

impl EnvVar {
    /// A record with the single value `value`.
    pub fn new(value: String, flags: EnvVarFlags) -> (r: EnvVar)
        ensures
            r@ == (VarView { values: seq![value@], flags }),
    {
        let mut values: Vec<String> = Vec::new();
        values.push(value);
        assert(strs(values@) =~= seq![value@]);
        EnvVar { values, flags }
    }

    /// A record with the values `values`.
    pub fn new_vec(values: Vec<String>, flags: EnvVarFlags) -> (r: EnvVar)
        ensures
            r@ == (VarView { values: strs(values@), flags }),
    {
        EnvVar { values, flags }
    }

    /// The values, in order.
    pub fn as_list(&self) -> (r: &Vec<String>)
        ensures
            strs(r@) == self@.values,
    {
        &self.values
    }

    /// The values joined with a space, or with `:` for a path variable.
    pub fn as_string(&self) -> (r: String)
        ensures
            r@ == self@.joined(),
    {
        let sep = if self.flags.pathvar {
            ':'
        } else {
            ' '
        };
        join_strings(&self.values, sep)
    }

    /// Whether the record has no values.
    pub fn is_empty(&self) -> (r: bool)
        ensures
            r == (self@.values.len() == 0),
    {
        self.values.len() == 0
    }

    /// The flag set.
    pub fn get_flags(&self) -> (r: EnvVarFlags)
        ensures
            r == self@.flags,
    {
        self.flags
    }

    /// Whether the variable is handed to child processes.
    pub fn exports(&self) -> (r: bool)
        ensures
            r == self@.flags.exports,
    {
        self.flags.exports
    }

    /// Whether the variable is read-only.
    pub fn is_read_only(&self) -> (r: bool)
        ensures
            r == self@.flags.read_only,
    {
        self.flags.read_only
    }

    /// Whether the variable is a path list.
    pub fn is_pathvar(&self) -> (r: bool)
        ensures
            r == self@.flags.pathvar,
    {
        self.flags.pathvar
    }

    /// Structural equality: the same values in the same order, and the same
    /// flags.
    pub fn same_as(&self, other: &EnvVar) -> (r: bool)
        ensures
            r == (self@ == other@),
    {
        if self.flags != other.flags {
            return false;
        }
        if self.values.len() != other.values.len() {
            assert(self@.values.len() != other@.values.len());
            return false;
        }
        let mut i: usize = 0;
        while i < self.values.len()
            invariant
                i <= self.values.len(),
                self.values.len() == other.values.len(),
                forall|j: int| 0 <= j < i ==> self.values@[j]@ == other.values@[j]@,
            decreases self.values.len() - i,
        {
            if !str_eq(self.values[i].as_str(), other.values[i].as_str()) {
                assert(self@.values[i as int] != other@.values[i as int]);
                return false;
            }
            i += 1;
        }
        assert(self@.values =~= other@.values);
        true
    }
}

/// Bit of the local addressing scope: the innermost frame.
pub const ENV_LOCAL: u16 = 1;

/// Bit of the global addressing scope: the global frame.
pub const ENV_GLOBAL: u16 = 2;

/// Bit of the universal addressing scope: the store shared between instances.
pub const ENV_UNIVERSAL: u16 = 4;

/// Bit of the export qualifier.
pub const ENV_EXPORT: u16 = 8;

/// Bit of the path-variable qualifier.
pub const ENV_PATHVAR: u16 = 16;

/// Bit of the qualifier that permits a write to a read-only variable.
pub const ENV_USER: u16 = 32;

/// A scope qualifier: a bit set of at most one addressing scope (on a write)
/// and any of the qualifiers. No scope bit means the default search order.
#[derive(Clone, Copy, Debug, PartialEq, Eq, Structural)]
pub struct EnvMode {
    pub bits: u16,
}

impl EnvMode {
    pub open spec fn local(self) -> bool {
        self.bits & ENV_LOCAL != 0
    }

    pub open spec fn global(self) -> bool {
        self.bits & ENV_GLOBAL != 0
    }

    pub open spec fn universal(self) -> bool {
        self.bits & ENV_UNIVERSAL != 0
    }

    pub open spec fn exports(self) -> bool {
        self.bits & ENV_EXPORT != 0
    }

    pub open spec fn pathvar(self) -> bool {
        self.bits & ENV_PATHVAR != 0
    }

    pub open spec fn user(self) -> bool {
        self.bits & ENV_USER != 0
    }

    /// Whether an addressing scope is named.
    pub open spec fn has_scope(self) -> bool {
        self.local() || self.global() || self.universal()
    }

    /// Whether more than one addressing scope is named.
    pub open spec fn ambiguous(self) -> bool {
        (self.local() && self.global()) || (self.local() && self.universal()) || (self.global()
            && self.universal())
    }

    /// Whether a read under this mode looks at the local frames.
    pub open spec fn reads_local(self) -> bool {
        !self.has_scope() || self.local()
    }

    /// Whether a read under this mode looks at the global frame.
    pub open spec fn reads_global(self) -> bool {
        !self.has_scope() || self.global()
    }

    /// Whether a read under this mode looks at the universal store.
    pub open spec fn reads_universal(self) -> bool {
        !self.has_scope() || self.universal()
    }

    /// Whether a record passes the mode's export filter.
    pub open spec fn admits(self, var: VarView) -> bool {
        self.exports() ==> var.flags.exports
    }

    /// The mode with the bits `bits`.
    pub fn from_bits(bits: u16) -> (r: EnvMode)
        ensures
            r.bits == bits,
    {
        EnvMode { bits }
    }

    /// The default mode: no scope and no qualifier.
    pub fn default_mode() -> (r: EnvMode)
        ensures
            r.bits == 0,
            !r.local(),
            !r.global(),
            !r.universal(),
            !r.exports(),
            !r.pathvar(),
            !r.user(),
    {
        assert(0u16 & 1 == 0 && 0u16 & 2 == 0 && 0u16 & 4 == 0 && 0u16 & 8 == 0 && 0u16 & 16 == 0
            && 0u16 & 32 == 0) by (bit_vector);
        EnvMode { bits: 0 }
    }

    /// The mode that has the bits of both.
    pub fn union(self, other: EnvMode) -> (r: EnvMode)
        ensures
            r.bits == self.bits | other.bits,
            r.local() == (self.local() || other.local()),
            r.global() == (self.global() || other.global()),
            r.universal() == (self.universal() || other.universal()),
            r.exports() == (self.exports() || other.exports()),
            r.pathvar() == (self.pathvar() || other.pathvar()),
            r.user() == (self.user() || other.user()),
    {
        let a = self.bits;
        let b = other.bits;
        assert(((a | b) & 1 != 0) == (a & 1 != 0 || b & 1 != 0)) by (bit_vector);
        assert(((a | b) & 2 != 0) == (a & 2 != 0 || b & 2 != 0)) by (bit_vector);
        assert(((a | b) & 4 != 0) == (a & 4 != 0 || b & 4 != 0)) by (bit_vector);
        assert(((a | b) & 8 != 0) == (a & 8 != 0 || b & 8 != 0)) by (bit_vector);
        assert(((a | b) & 16 != 0) == (a & 16 != 0 || b & 16 != 0)) by (bit_vector);
        assert(((a | b) & 32 != 0) == (a & 32 != 0 || b & 32 != 0)) by (bit_vector);
        EnvMode { bits: a | b }
    }

    pub fn is_local(self) -> (r: bool)
        ensures
            r == self.local(),
    {
        self.bits & ENV_LOCAL != 0
    }

    pub fn is_global(self) -> (r: bool)
        ensures
            r == self.global(),
    {
        self.bits & ENV_GLOBAL != 0
    }

    pub fn is_universal(self) -> (r: bool)
        ensures
            r == self.universal(),
    {
        self.bits & ENV_UNIVERSAL != 0
    }

    pub fn is_export(self) -> (r: bool)
        ensures
            r == self.exports(),
    {
        self.bits & ENV_EXPORT != 0
    }

    pub fn is_pathvar(self) -> (r: bool)
        ensures
            r == self.pathvar(),
    {
        self.bits & ENV_PATHVAR != 0
    }

    pub fn is_user(self) -> (r: bool)
        ensures
            r == self.user(),
    {
        self.bits & ENV_USER != 0
    }
}

/// The mode that names the global scope and the export qualifier: the
/// working directory is written under it.
pub open spec fn exported_global_mode() -> EnvMode {
    EnvMode { bits: ENV_EXPORT | ENV_GLOBAL }
}

/// The mode under which the arguments are written: local.
pub open spec fn local_mode() -> EnvMode {
    EnvMode { bits: ENV_LOCAL }
}

/// The local mode names the local scope and nothing else.
pub proof fn lemma_local_mode()
    ensures
        local_mode().local(),
        !local_mode().global(),
        !local_mode().universal(),
        !local_mode().exports(),
        !local_mode().user(),
        !local_mode().pathvar(),
{
    assert(1u16 & 1u16 != 0 && 1u16 & 2u16 == 0 && 1u16 & 4u16 == 0 && 1u16 & 8u16 == 0 && 1u16
        & 16u16 == 0 && 1u16 & 32u16 == 0) by (bit_vector);
}

/// The exported global mode names the global scope and the export
/// qualifier, and nothing else.
pub proof fn lemma_exported_global_mode()
    ensures
        exported_global_mode().global(),
        exported_global_mode().exports(),
        !exported_global_mode().local(),
        !exported_global_mode().universal(),
        !exported_global_mode().user(),
        !exported_global_mode().pathvar(),
{
    assert((8u16 | 2u16) & 2u16 != 0 && (8u16 | 2u16) & 8u16 != 0 && (8u16 | 2u16) & 1u16 == 0 && (
    8u16 | 2u16) & 4u16 == 0 && (8u16 | 2u16) & 32u16 == 0 && (8u16 | 2u16) & 16u16 == 0)
        by (bit_vector);
}

/// How a write ended.
#[allow(non_camel_case_types)]
#[derive(Clone, Copy, Debug, PartialEq, Eq, Structural)]
pub enum EnvStackSetResult {
    /// The write was made.
    ENV_OK,
    /// The variable is read-only and the mode lacks the override qualifier.
    ENV_PERM,
    /// The mode asks for a scope that cannot be used here.
    ENV_SCOPE,
    /// The name is not a variable name.
    ENV_INVALID,
}

/// What a write did, beside its result code.
#[derive(Clone, Copy, Debug, PartialEq, Eq, Structural)]
pub struct ModResult {
    pub status: EnvStackSetResult,
    /// The global frame was changed.
    pub global_modified: bool,
    /// The universal store was changed.
    pub uvar_modified: bool,
    /// The caller owes the rest of the shell one change notification for the
    /// variable's name, to be sent once its own lock is released.
    pub dispatch: bool,
}

/// The exit status of the last job and of each process of its pipeline.
#[derive(Debug, PartialEq, Eq)]
pub struct Statuses {
    pub status: c_int,
    pub pipestatus: Vec<c_int>,
}

impl Clone for Statuses {
    fn clone(&self) -> (r: Self)
        ensures
            r.status == self.status,
            r.pipestatus@ == self.pipestatus@,
    {
        let mut pipestatus: Vec<c_int> = Vec::new();
        let mut i: usize = 0;
        while i < self.pipestatus.len()
            invariant
                i <= self.pipestatus.len(),
                pipestatus@ == self.pipestatus@.take(i as int),
            decreases self.pipestatus.len() - i,
        {
            pipestatus.push(self.pipestatus[i]);
            i += 1;
            assert(pipestatus@ =~= self.pipestatus@.take(i as int));
        }
        assert(self.pipestatus@.take(self.pipestatus.len() as int) =~= self.pipestatus@);
        Statuses { status: self.status, pipestatus }
    }
}

impl Statuses {
    /// The statuses of a job of one process that exited with `status`.
    pub fn just(status: c_int) -> (r: Statuses)
        ensures
            r.status == status,
            r.pipestatus@ == seq![status],
    {
        let mut pipestatus: Vec<c_int> = Vec::new();
        pipestatus.push(status);
        Statuses { status, pipestatus }
    }
}

} // verus!
