//! The start of the environment: the first load of the universal
//! variables, and what follows from it for the global frame and for the
//! shell's abbreviations.

use crate::model::SharedView;
use crate::shared::SharedEnv;
use crate::stack::EnvStack;
use crate::table::{entry, pairs, table_of, Vars};
use crate::text::{
    add_name, distinct_names, has_prefix, join_spec, join_strings, listed, str_eq, to_chars,
};
use crate::universal::{describes_diff, reports_change, CallbackData};
use crate::var::{
    exported_global_mode, lemma_exported_global_mode, EnvMode, EnvVar, VarView, ENV_EXPORT,
    ENV_GLOBAL,
};
use vstd::prelude::*;
use vstd::utf8::{decode_utf8, valid_utf8};

verus! {

/// Where in a command line an abbreviation expands.
#[derive(Clone, Copy, Debug, PartialEq, Eq, Structural)]
pub enum Position {
    /// Only in command position.
    Command,
    /// Anywhere.
    Anywhere,
}

/// An abbreviation, as the abbreviation registry takes it.
#[derive(Debug)]
pub struct Abbreviation {
    pub name: String,
    pub key: String,
    pub replacement: String,
    pub position: Position,
    pub from_universal: bool,
}

/// What an abbreviation that came from a universal variable is: its name,
/// which is also its key, and its replacement.
pub struct AbbrView {
    pub name: Seq<char>,
    pub replacement: Seq<char>,
}

/// What the start of the environment asks of the caller, in this order.
#[derive(Debug)]
pub struct EnvInit {
    /// The names of the universal variables that were loaded: the change
    /// of each is to be signalled to the rest of the shell.
    pub loaded: Vec<String>,
    /// The global variables that gave way to an exported universal
    /// variable: one change notification is owed for each, after those of
    /// `loaded`.
    pub removed: Vec<String>,
    /// The abbreviations to add to the registry, last.
    pub abbreviations: Vec<Abbreviation>,
}

/// The value of a hexadecimal digit, or -1 for another character.
pub open spec fn hex_value(c: char) -> int {
    if '0' <= c <= '9' {
        c as int - '0' as int
    } else if 'a' <= c <= 'f' {
        c as int - 'a' as int + 10
    } else if 'A' <= c <= 'F' {
        c as int - 'A' as int + 10
    } else {
        -1
    }
}

/// `rest` with `byte` in front, where there is a rest.
pub open spec fn after_byte(byte: u8, rest: Option<Seq<u8>>) -> Option<Seq<u8>> {
    match rest {
        Some(bytes) => Some(seq![byte] + bytes),
        None => None,
    }
}

/// The bytes that the escaped text `s` stands for from position `i` on.
/// A letter or digit stands for itself, two underscores for one, and an
/// underscore with two hexadecimal digits for the byte of that value;
/// any other underscore only separates. The text is refused where it
/// holds a character outside ASCII, where an escape is cut short, and
/// where it ends in an underscore that no escaped byte came before
/// (`escaped_before` says whether one did).
pub open spec fn unescape_from(s: Seq<char>, i: int, escaped_before: bool) -> Option<Seq<u8>>
    decreases s.len() - i,
{
    if i < 0 || i >= s.len() {
        Some(Seq::empty())
    } else if s[i] as u32 > 0x7F {
        None
    } else if s[i] != '_' {
        after_byte(s[i] as u8, unescape_from(s, i + 1, escaped_before))
    } else if i + 1 >= s.len() {
        if escaped_before {
            Some(Seq::empty())
        } else {
            None
        }
    } else if s[i + 1] == '_' {
        after_byte('_' as u8, unescape_from(s, i + 2, escaped_before))
    } else if hex_value(s[i + 1]) >= 0 {
        if i + 2 >= s.len() || hex_value(s[i + 2]) < 0 {
            None
        } else {
            after_byte(
                (16 * hex_value(s[i + 1]) + hex_value(s[i + 2])) as u8,
                unescape_from(s, i + 3, true),
            )
        }
    } else {
        unescape_from(s, i + 1, escaped_before)
    }
}

/// The text that the escaped variable name `s` stands for: its bytes read
/// as UTF-8. There is none where the escape is malformed or the bytes are
/// not UTF-8.
pub open spec fn unescape_var(s: Seq<char>) -> Option<Seq<char>> {
    match unescape_from(s, 0, false) {
        Some(bytes) => if valid_utf8(bytes) {
            Some(decode_utf8(bytes))
        } else {
            None
        },
        None => None,
    }
}

/// The prefix of the name of a universal variable that holds an
/// abbreviation.
pub open spec fn abbr_prefix() -> Seq<char> {
    "_fish_abbr_"@
}

/// The abbreviation that the universal variable `name` with the record
/// `var` holds, if it holds one: the name is the unescaped rest of the
/// variable's name, the replacement the values joined by spaces.
pub open spec fn abbr_of(name: Seq<char>, var: VarView) -> Option<AbbrView> {
    if has_prefix(name, abbr_prefix()) {
        match unescape_var(name.skip(abbr_prefix().len() as int)) {
            Some(text) => Some(AbbrView { name: text, replacement: join_spec(var.values, ' ') }),
            None => None,
        }
    } else {
        None
    }
}

/// Whether `abbr` is the abbreviation `view`, for the command position and
/// marked as coming from a universal variable.
pub open spec fn is_abbr(abbr: Abbreviation, view: AbbrView) -> bool {
    &&& abbr.name@ == view.name
    &&& abbr.key@ == view.name
    &&& abbr.replacement@ == view.replacement
    &&& abbr.position == Position::Command
    &&& abbr.from_universal
}

/// Whether `abbr` is the abbreviation that the variable `n` of `t` holds.
pub open spec fn holds_abbr(t: Vars, n: Seq<char>, abbr: Abbreviation) -> bool {
    t.contains_key(n) && abbr_of(n, t[n]) is Some && is_abbr(abbr, abbr_of(n, t[n])->0)
}

/// Whether `abbrs` are the abbreviations that the variables `names` of `t`
/// hold, in order, and `names` are the variables of `t` that hold an
/// abbreviation, each once.
pub open spec fn abbreviation_listing(
    abbrs: Seq<Abbreviation>,
    names: Seq<Seq<char>>,
    t: Vars,
) -> bool {
    &&& names.len() == abbrs.len()
    &&& names.no_duplicates()
    &&& forall|i: int| 0 <= i < abbrs.len() ==> holds_abbr(t, #[trigger] names[i], abbrs[i])
    &&& forall|n: Seq<char>|
        t.contains_key(n) && #[trigger] abbr_of(n, t[n]) is Some ==> names.contains(n)
}

/// Whether `abbrs` are the abbreviations that the variables of `t` hold:
/// one for each variable that holds one, and no other.
pub open spec fn abbreviations_in(abbrs: Seq<Abbreviation>, t: Vars) -> bool {
    exists|names: Seq<Seq<char>>| abbreviation_listing(abbrs, names, t)
}

/// Whether the global variable `n` repeats an exported universal
/// variable: it is exported too and has the same value. At the start
/// such a global variable is removed, so that the universal one shows.
pub open spec fn repeats_universal(globals: Vars, universal: Vars, n: Seq<char>) -> bool {
    &&& universal.contains_key(n)
    &&& universal[n].flags.exports
    &&& globals.contains_key(n)
    &&& globals[n].flags.exports
    &&& globals[n].joined() == universal[n].joined()
}

/// Whether the global variable `n` gives way to the exported universal
/// variable that it repeats, once the store holds `stored`: it does unless
/// it is read-only, for its removal carries no override qualifier.
pub open spec fn gives_way(shared: SharedView, stored: Vars, n: Seq<char>) -> bool {
    repeats_universal(shared.globals, stored, n) && !shared.globals[n].flags.read_only
}

/// Whether `list` holds the entries of the table `t`, each name once.
spec fn lists_table(list: Seq<(String, EnvVar)>, t: Vars) -> bool {
    &&& forall|j: int|
        0 <= j < list.len() ==> t.contains_key((#[trigger] list[j]).0@) && t[list[j].0@]
            == list[j].1@
    &&& forall|i: int, j: int|
        0 <= i < j < list.len() ==> (#[trigger] list[i]).0@ != (#[trigger] list[j]).0@
    &&& forall|n: Seq<char>| t.contains_key(n) ==> seen(list, list.len() as int, n)
}

/// Whether `n` names one of the first `i` entries of `list`.
spec fn seen(list: Seq<(String, EnvVar)>, i: int, n: Seq<char>) -> bool {
    exists|j: int| 0 <= j < i && (#[trigger] list[j]).0@ == n
}

proof fn lemma_seen_step(list: Seq<(String, EnvVar)>, i: int, n: Seq<char>)
    requires
        0 <= i < list.len(),
    ensures
        seen(list, i + 1, n) <==> seen(list, i, n) || list[i].0@ == n,
{
    if seen(list, i, n) {
        let j = choose|j: int| 0 <= j < i && (#[trigger] list[j]).0@ == n;
        assert(0 <= j < i + 1 && list[j].0@ == n);
    }
    if list[i].0@ == n {
        assert(0 <= i < i + 1 && list[i].0@ == n);
    }
}

/// Turns bytes into a string: `String::from_utf8` of the standard library,
/// which succeeds exactly where the bytes are valid UTF-8 and then gives
/// the string that they encode.
#[verifier::external_body]
fn string_from_utf8(bytes: Vec<u8>) -> (r: Option<String>)
    ensures
        match r {
            Some(s) => valid_utf8(bytes@) && s@ == decode_utf8(bytes@),
            None => !valid_utf8(bytes@),
        },
{
    String::from_utf8(bytes).ok()
}

fn hex_digit(c: char) -> (r: Option<u8>)
    ensures
        match r {
            Some(d) => d == hex_value(c) && d < 16,
            None => hex_value(c) < 0,
        },
{
    if '0' <= c && c <= '9' {
        Some((c as u32 - '0' as u32) as u8)
    } else if 'a' <= c && c <= 'f' {
        Some((c as u32 - 'a' as u32 + 10) as u8)
    } else if 'A' <= c && c <= 'F' {
        Some((c as u32 - 'A' as u32 + 10) as u8)
    } else {
        None
    }
}

/// `rest` with `bytes` in front, where there is a rest.
spec fn after_bytes(bytes: Seq<u8>, rest: Option<Seq<u8>>) -> Option<Seq<u8>> {
    match rest {
        Some(more) => Some(bytes + more),
        None => None,
    }
}

/// The text that an escaped variable name stands for, if it is well
/// formed.
pub fn unescape_string_var(text: &str) -> (r: Option<String>)
    ensures
        match r {
            Some(plain) => unescape_var(text@) == Some(plain@),
            None => unescape_var(text@) is None,
        },
{
    let chars = to_chars(text);
    assert(chars@.skip(0) =~= text@);
    unescape_chars(&chars, 0)
}

/// The text that the characters `s[from..]` stand for as an escaped
/// variable name.
fn unescape_chars(s: &Vec<char>, from: usize) -> (r: Option<String>)
    requires
        from <= s.len(),
    ensures
        match r {
            Some(text) => unescape_var(s@.skip(from as int)) == Some(text@),
            None => unescape_var(s@.skip(from as int)) is None,
        },
{
    let ghost text = s@.skip(from as int);
    let mut bytes: Vec<u8> = Vec::new();
    let mut escaped_before = false;
    let mut i: usize = from;
    assert(bytes@ + Seq::<u8>::empty() =~= bytes@);
    while i < s.len()
        invariant
            from <= i <= s.len(),
            text == s@.skip(from as int),
            unescape_from(text, 0, false) == after_bytes(
                bytes@,
                unescape_from(text, i - from, escaped_before),
            ),
        decreases s.len() - i,
    {
        let ghost at = i - from;
        let ghost done = bytes@;
        let c = s[i];
        assert(text[at] == c);
        if c as u32 > 0x7F {
            return None;
        }
        if c != '_' {
            bytes.push(c as u8);
            proof {
                let rest = unescape_from(text, at + 1, escaped_before);
                if rest is Some {
                    assert(done + (seq![c as u8] + rest->0) =~= bytes@ + rest->0);
                }
            }
            i += 1;
        } else if i + 1 >= s.len() {
            if escaped_before {
                proof {
                    assert(bytes@ + Seq::<u8>::empty() =~= bytes@);
                }
                return string_from_utf8(bytes);
            }
            return None;
        } else {
            let c1 = s[i + 1];
            assert(text[at + 1] == c1);
            if c1 == '_' {
                bytes.push('_' as u8);
                proof {
                    let rest = unescape_from(text, at + 2, escaped_before);
                    if rest is Some {
                        assert(done + (seq!['_' as u8] + rest->0) =~= bytes@ + rest->0);
                    }
                }
                i += 2;
            } else {
                match hex_digit(c1) {
                    Some(d1) => {
                        if i + 2 >= s.len() {
                            return None;
                        }
                        let c2 = s[i + 2];
                        assert(text[at + 2] == c2);
                        match hex_digit(c2) {
                            Some(d2) => {
                                let byte: u8 = d1 * 16 + d2;
                                bytes.push(byte);
                                proof {
                                    let rest = unescape_from(text, at + 3, true);
                                    if rest is Some {
                                        assert(done + (seq![byte] + rest->0) =~= bytes@ + rest->0);
                                    }
                                }
                                escaped_before = true;
                                i += 3;
                            },
                            None => {
                                return None;
                            },
                        }
                    },
                    None => {
                        i += 1;
                    },
                }
            }
        }
    }
    proof {
        assert(bytes@ + Seq::<u8>::empty() =~= bytes@);
    }
    string_from_utf8(bytes)
}

/// The abbreviation that the universal variable `name` with the record
/// `var` holds, if it holds one.
pub fn abbreviation_of(name: &str, var: &EnvVar) -> (r: Option<Abbreviation>)
    ensures
        match r {
            Some(abbr) => abbr_of(name@, var@) is Some && is_abbr(abbr, abbr_of(name@, var@)->0),
            None => abbr_of(name@, var@) is None,
        },
{
    let chars = to_chars(name);
    let prefix = to_chars("_fish_abbr_");
    if chars.len() < prefix.len() {
        return None;
    }
    let mut i: usize = 0;
    while i < prefix.len()
        invariant
            i <= prefix.len() <= chars.len(),
            chars@ == name@,
            prefix@ == abbr_prefix(),
            forall|j: int| 0 <= j < i ==> chars@[j] == prefix@[j],
        decreases prefix.len() - i,
    {
        if chars[i] != prefix[i] {
            assert(chars@.take(prefix.len() as int)[i as int] != prefix@[i as int]);
            return None;
        }
        i += 1;
    }
    assert(chars@.take(prefix.len() as int) =~= prefix@);
    match unescape_chars(&chars, prefix.len()) {
        Some(text) => {
            let key = text.clone();
            let replacement = join_strings(var.as_list(), ' ');
            Some(
                Abbreviation {
                    name: text,
                    key,
                    replacement,
                    position: Position::Command,
                    from_universal: true,
                },
            )
        },
        None => None,
    }
}

fn names_of(callbacks: &Vec<CallbackData>, Ghost(t): Ghost<Vars>) -> (r: Vec<String>)
    requires
        describes_diff(callbacks@, Map::empty(), t),
    ensures
        distinct_names(r@),
        forall|n: Seq<char>| #[trigger] listed(r@, n) <==> t.contains_key(n),
{
    let mut names: Vec<String> = Vec::new();
    let mut c: usize = 0;
    while c < callbacks.len()
        invariant
            c <= callbacks.len(),
            names.len() == c,
            forall|j: int| 0 <= j < c ==> (#[trigger] names@[j])@ == callbacks@[j].key@,
        decreases callbacks.len() - c,
    {
        names.push(callbacks[c].key.clone());
        c += 1;
    }
    proof {
        assert forall|n: Seq<char>| #[trigger] listed(names@, n) <==> t.contains_key(n) by {
            if listed(names@, n) {
                let j = choose|j: int| 0 <= j < names@.len() && (#[trigger] names@[j])@ == n;
                assert(reports_change(callbacks@[j], Map::empty(), t));
            }
            if t.contains_key(n) {
                assert(entry(Map::<Seq<char>, VarView>::empty(), n) != entry(t, n));
                let j = choose|j: int|
                    0 <= j < callbacks@.len() && (#[trigger] callbacks@[j]).key@ == n;
                assert(names@[j]@ == n);
            }
        }
        assert forall|a: int, b: int| 0 <= a < b < names@.len() implies (#[trigger] names@[a])@
            != (#[trigger] names@[b])@ by {
            assert(callbacks@[a].key@ != callbacks@[b].key@);
        }
    }
    names
}

/// Whether the global variable `name` repeats an exported universal
/// variable: both exist and are exported, and their values joined are the
/// same text.
pub fn repeats_exported_universal(shared: &SharedEnv, name: &str) -> (r: bool)
    ensures
        r == repeats_universal(shared@.globals, shared@.universal, name@),
{
    match shared.uvars().get(name) {
        Some(uvar) => {
            if !uvar.exports() {
                return false;
            }
            match shared.globals().get(name) {
                Some(global) => {
                    global.exports() && str_eq(
                        global.as_string().as_str(),
                        uvar.as_string().as_str(),
                    )
                },
                None => false,
            }
        },
        None => false,
    }
}

/// Removes from the global frame every variable that gives way to the
/// exported universal variable that it repeats, and returns the names of
/// those removed. Each removal is one under the global scope with the
/// export qualifier on a stack that has only globals.
fn drop_repeated_globals(shared: &mut SharedEnv, list: &Vec<(String, EnvVar)>) -> (removed: Vec<
    String,
>)
    requires
        lists_table(list@, old(shared)@.universal),
    ensures
        final(shared)@ == (SharedView {
            globals: old(shared)@.globals.remove_keys(
                Set::new(|n: Seq<char>| gives_way(old(shared)@, old(shared)@.universal, n)),
            ),
            ..old(shared)@
        }),
        distinct_names(removed@),
        forall|n: Seq<char>| #[trigger]
            listed(removed@, n) <==> gives_way(old(shared)@, old(shared)@.universal, n),
        !old(shared).exports_cached() ==> !final(shared).exports_cached(),
{
    let ghost s0 = shared@;
    let ghost g0 = shared@.globals;
    let ghost t = shared@.universal;
    let mut globals_only = EnvStack::globals();
    let mode = EnvMode::from_bits(ENV_EXPORT | ENV_GLOBAL);
    proof {
        lemma_exported_global_mode();
        assert(mode == exported_global_mode());
    }
    let mut removed: Vec<String> = Vec::new();
    let mut i: usize = 0;
    assert(shared@.globals =~= Map::new(
        |n: Seq<char>| g0.contains_key(n) && !(gives_way(s0, t, n) && seen(list@, 0, n)),
        |n: Seq<char>| g0[n],
    ));
    while i < list.len()
        invariant
            i <= list.len(),
            lists_table(list@, t),
            mode == exported_global_mode(),
            globals_only@.frames.len() == 0,
            g0 == s0.globals,
            t == s0.universal,
            shared@ == (SharedView {
                globals: Map::new(
                    |n: Seq<char>|
                        g0.contains_key(n) && !(gives_way(s0, t, n) && seen(list@, i as int, n)),
                    |n: Seq<char>| g0[n],
                ),
                ..s0
            }),
            !old(shared).exports_cached() ==> !shared.exports_cached(),
            distinct_names(removed@),
            forall|n: Seq<char>| #[trigger]
                listed(removed@, n) <==> (gives_way(s0, t, n) && seen(list@, i as int, n)),
        decreases list.len() - i,
    {
        let name = list[i].0.as_str();
        let ghost k = name@;
        let ghost before = shared@;
        proof {
            lemma_exported_global_mode();
            assert(t.contains_key(list@[i as int].0@));
            if seen(list@, i as int, k) {
                let j = choose|j: int| 0 <= j < i && (#[trigger] list@[j]).0@ == k;
                assert(list@[j].0@ != list@[i as int].0@);
            }
            assert(before.globals.contains_key(k) == g0.contains_key(k));
            if g0.contains_key(k) {
                assert(before.globals[k] == g0[k]);
            }
        }
        let mut gone = false;
        if repeats_exported_universal(shared, name) {
            let result = globals_only.remove(shared, name, mode);
            gone = result.dispatch;
        }
        assert(gone == gives_way(s0, t, k));
        if gone {
            add_name(&mut removed, name);
        }
        proof {
            assert forall|n: Seq<char>|
                seen(list@, i + 1, n) <==> #[trigger] seen(list@, i as int, n) || n == k by {
                lemma_seen_step(list@, i as int, n);
            }
            assert(shared@.globals =~= Map::new(
                |n: Seq<char>| g0.contains_key(n) && !(gives_way(s0, t, n) && seen(list@, i + 1, n)),
                |n: Seq<char>| g0[n],
            ));
            assert forall|n: Seq<char>| #[trigger]
                listed(removed@, n) <==> (gives_way(s0, t, n) && seen(list@, i + 1, n)) by {
                lemma_seen_step(list@, i as int, n);
            }
        }
        i += 1;
    }
    proof {
        assert(shared@.globals =~= g0.remove_keys(Set::new(|n: Seq<char>| gives_way(s0, t, n))));
    }
    removed
}

/// The abbreviations that the universal variables of `list` hold.
fn collect_abbreviations(list: &Vec<(String, EnvVar)>, Ghost(t): Ghost<Vars>) -> (r: Vec<
    Abbreviation,
>)
    requires
        lists_table(list@, t),
    ensures
        abbreviations_in(r@, t),
{
    let mut abbreviations: Vec<Abbreviation> = Vec::new();
    let ghost mut src: Seq<int> = Seq::empty();
    let mut a: usize = 0;
    while a < list.len()
        invariant
            a <= list.len(),
            lists_table(list@, t),
            src.len() == abbreviations@.len(),
            forall|x: int| 0 <= x < src.len() ==> 0 <= #[trigger] src[x] < a,
            forall|x: int, y: int| 0 <= x < y < src.len() ==> #[trigger] src[x] < #[trigger] src[y],
            forall|x: int|
                0 <= x < src.len() ==> holds_abbr(
                    t,
                    list@[#[trigger] src[x]].0@,
                    abbreviations@[x],
                ),
            forall|j: int|
                0 <= j < a && abbr_of((#[trigger] list@[j]).0@, list@[j].1@) is Some ==> exists|
                    x: int,
                | 0 <= x < src.len() && src[x] == j,
        decreases list.len() - a,
    {
        let ghost prev = abbreviations@;
        let ghost old_src = src;
        let ghost k = list@[a as int].0@;
        assert(t.contains_key(list@[a as int].0@) && t[k] == list@[a as int].1@);
        match abbreviation_of(list[a].0.as_str(), &list[a].1) {
            Some(abbr) => {
                abbreviations.push(abbr);
                proof {
                    src = src.push(a as int);
                    assert forall|x: int| 0 <= x < src.len() implies holds_abbr(
                        t,
                        list@[#[trigger] src[x]].0@,
                        abbreviations@[x],
                    ) by {
                        if x < old_src.len() {
                            assert(src[x] == old_src[x]);
                            assert(abbreviations@[x] == prev[x]);
                        }
                    }
                }
            },
            None => {},
        }
        proof {
            assert forall|j: int|
                0 <= j < a + 1 && abbr_of(
                    (#[trigger] list@[j]).0@,
                    list@[j].1@,
                ) is Some implies exists|x: int| 0 <= x < src.len() && src[x] == j by {
                if j < a {
                    let x = choose|x: int| 0 <= x < old_src.len() && old_src[x] == j;
                    assert(src[x] == j);
                } else {
                    assert(src[old_src.len() as int] == j);
                }
            }
        }
        a += 1;
    }
    proof {
        let names = Seq::new(src.len(), |x: int| list@[src[x]].0@);
        assert forall|x: int, y: int| 0 <= x < y < names.len() implies names[x] != names[y] by {
            assert(src[x] < src[y]);
            assert(list@[src[x]].0@ != list@[src[y]].0@);
        }
        assert forall|x: int| 0 <= x < abbreviations@.len() implies holds_abbr(
            t,
            #[trigger] names[x],
            abbreviations@[x],
        ) by {
            assert(holds_abbr(t, list@[src[x]].0@, abbreviations@[x]));
        }
        assert forall|n: Seq<char>|
            t.contains_key(n) && #[trigger] abbr_of(n, t[n]) is Some implies names.contains(n) by {
            assert(seen(list@, list.len() as int, n));
            let j = choose|j: int| 0 <= j < list.len() && (#[trigger] list@[j]).0@ == n;
            assert(t[list@[j].0@] == list@[j].1@);
            let x = choose|x: int| 0 <= x < src.len() && src[x] == j;
            assert(names[x] == n);
        }
        assert(abbreviation_listing(abbreviations@, names, t));
    }
    abbreviations
}

/// Starts the environment.
///
/// Without `do_uvars` the universal scope is switched off and nothing else
/// happens. With it, the universal variables are taken from `stored`, which
/// is what the external store holds; every global variable that repeats an
/// exported universal variable, being exported too and of the same value,
/// is removed unless it is read-only; and every universal variable whose
/// name starts with the abbreviation prefix and unescapes yields an
/// abbreviation. The result names what the caller is to signal and to
/// register, and in which order.
pub fn env_init(shared: &mut SharedEnv, do_uvars: bool, stored: &Vec<(String, EnvVar)>) -> (r:
    EnvInit)
    ensures
        !do_uvars ==> final(shared)@ == (SharedView { degraded: true, ..old(shared)@ })
            && r.loaded@.len() == 0 && r.removed@.len() == 0 && r.abbreviations@.len() == 0,
        do_uvars ==> final(shared)@ == (SharedView {
            universal: table_of(pairs(stored@)),
            synced: table_of(pairs(stored@)),
            globals: old(shared)@.globals.remove_keys(
                Set::new(|n: Seq<char>| gives_way(old(shared)@, table_of(pairs(stored@)), n)),
            ),
            ..old(shared)@
        }),
        do_uvars ==> distinct_names(r.loaded@) && forall|n: Seq<char>| #[trigger]
            listed(r.loaded@, n) <==> table_of(pairs(stored@)).contains_key(n),
        do_uvars ==> distinct_names(r.removed@) && forall|n: Seq<char>| #[trigger]
            listed(r.removed@, n) <==> gives_way(old(shared)@, table_of(pairs(stored@)), n),
        do_uvars ==> abbreviations_in(r.abbreviations@, table_of(pairs(stored@))),
        do_uvars ==> !final(shared).exports_cached(),
{
    if !do_uvars {
        shared.disable_universal_scope();
        return EnvInit { loaded: Vec::new(), removed: Vec::new(), abbreviations: Vec::new() };
    }
    let ghost s0 = shared@;
    let ghost t = table_of(pairs(stored@));
    let mut callbacks: Vec<CallbackData> = Vec::new();
    shared.initialize(stored, &mut callbacks);
    assert(callbacks@.skip(0) =~= callbacks@);
    let loaded = names_of(&callbacks, Ghost(t));
    let table = shared.uvars().get_table();
    let list = table.to_pairs();
    proof {
        table.lemma_keys_are_domain();
        assert forall|n: Seq<char>| t.contains_key(n) implies seen(list@, list.len() as int, n) by {
            let j = table.keys().index_of(n);
            assert(table.keys()[j] == n);
            assert(list@[j].0@ == n);
        }
        assert forall|i: int, j: int| 0 <= i < j < list.len() implies (#[trigger] list@[i]).0@ != (
        #[trigger] list@[j]).0@ by {
            assert(table.keys()[i] != table.keys()[j]);
        }
    }
    let ghost s1 = shared@;
    let removed = drop_repeated_globals(shared, &list);
    proof {
        assert forall|n: Seq<char>| gives_way(s1, s1.universal, n) == gives_way(s0, t, n) by {}
        assert(Set::new(|n: Seq<char>| gives_way(s1, s1.universal, n)) =~= Set::new(
            |n: Seq<char>| gives_way(s0, t, n),
        ));
    }
    let abbreviations = collect_abbreviations(&list, Ghost(t));
    EnvInit { loaded, removed, abbreviations }
}

} // verus!
