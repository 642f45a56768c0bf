//! Small verified helpers over strings, all stated over `Seq<char>` views.

use vstd::prelude::*;

verus! {

/// The views of a sequence of strings.
pub open spec fn strs(v: Seq<String>) -> Seq<Seq<char>> {
    v.map_values(|s: String| s@)
}

/// `parts` joined with `sep` between neighbours.
pub open spec fn join_spec(parts: Seq<Seq<char>>, sep: char) -> Seq<char>
    decreases parts.len(),
{
    if parts.len() == 0 {
        Seq::empty()
    } else if parts.len() == 1 {
        parts[0]
    } else {
        join_spec(parts.drop_last(), sep).push(sep) + parts.last()
    }
}

/// Whether `s` begins with `prefix`.
pub open spec fn has_prefix(s: Seq<char>, prefix: Seq<char>) -> bool {
    prefix.len() <= s.len() && s.take(prefix.len() as int) == prefix
}

/// Appends one character to a string: `String::push` of the standard library,
/// which adds `c` at the end and leaves the rest as it was.
#[verifier::external_body]
pub(crate) fn push_char(s: &mut String, c: char)
    ensures
        final(s)@ == old(s)@.push(c),
{
    s.push(c)
}

fn bytes_eq(x: &[u8], y: &[u8]) -> (r: bool)
    ensures
        r == (x@ == y@),
{
    if x.len() != y.len() {
        return false;
    }
    let mut i: usize = 0;
    while i < x.len()
        invariant
            i <= x.len(),
            x.len() == y.len(),
            forall|j: int| 0 <= j < i ==> x@[j] == y@[j],
        decreases x.len() - i,
    {
        if x[i] != y[i] {
            return false;
        }
        i += 1;
    }
    assert(x@ =~= y@);
    true
}

/// Equality of two string slices, decided on their UTF-8 bytes.
pub fn str_eq(a: &str, b: &str) -> (r: bool)
    ensures
        r == (a@ == b@),
{
    proof {
        vstd::utf8::encode_utf8_decode_utf8(a@);
        vstd::utf8::encode_utf8_decode_utf8(b@);
    }
    bytes_eq(a.as_bytes(), b.as_bytes())
}

/// The characters of a string slice.
pub fn to_chars(s: &str) -> (v: Vec<char>)
    ensures
        v@ == s@,
{
    broadcast use vstd::string::group_string_axioms;

    let mut v: Vec<char> = Vec::new();
    for c in it: s.chars()
        invariant
            it.seq() == s@,
            v@ == s@.take(it.index() as int),
    {
        v.push(c);
        assert(v@ =~= s@.take(it.index() + 1));
    }
    assert(s@.take(s@.len() as int) =~= s@);
    v
}

/// The string made of the characters `v[from..to]`.
pub fn from_chars(v: &Vec<char>, from: usize, to: usize) -> (s: String)
    requires
        from <= to <= v.len(),
    ensures
        s@ == v@.subrange(from as int, to as int),
{
    let mut s = String::new();
    let mut i: usize = from;
    while i < to
        invariant
            from <= i <= to <= v.len(),
            s@ == v@.subrange(from as int, i as int),
        decreases to - i,
    {
        push_char(&mut s, v[i]);
        i += 1;
        assert(s@ =~= v@.subrange(from as int, i as int));
    }
    s
}

/// A deep copy of a list of strings.
pub fn clone_strings(v: &Vec<String>) -> (r: Vec<String>)
    ensures
        strs(r@) == strs(v@),
{
    let mut r: Vec<String> = Vec::new();
    let mut i: usize = 0;
    while i < v.len()
        invariant
            i <= v.len(),
            r.len() == i,
            strs(r@) == strs(v@).take(i as int),
        decreases v.len() - i,
    {
        let ghost before = r@;
        r.push(v[i].clone());
        i += 1;
        assert forall|j: int| 0 <= j < i implies strs(r@)[j] == strs(v@)[j] by {
            if j < i - 1 {
                assert(strs(before)[j] == strs(v@).take(i - 1)[j]);
            }
        }
        assert(strs(r@) =~= strs(v@).take(i as int));
    }
    assert(strs(v@).take(v.len() as int) =~= strs(v@));
    r
}

/// The strings of `v` joined into one, with `sep` between neighbours.
pub fn join_strings(v: &Vec<String>, sep: char) -> (r: String)
    ensures
        r@ == join_spec(strs(v@), sep),
{
    let mut r = String::new();
    let mut i: usize = 0;
    while i < v.len()
        invariant
            i <= v.len(),
            r@ == join_spec(strs(v@).take(i as int), sep),
        decreases v.len() - i,
    {
        let ghost before = strs(v@).take(i as int);
        let ghost after = strs(v@).take(i + 1);
        assert(after.drop_last() =~= before);
        assert(after.last() == v@[i as int]@);
        if i > 0 {
            push_char(&mut r, sep);
        }
        r.append(v[i].as_str());
        i += 1;
        assert(r@ =~= join_spec(after, sep));
    }
    assert(strs(v@).take(v.len() as int) =~= strs(v@));
    r
}

/// Whether `name` is the view of one of `names`.
pub open spec fn listed(names: Seq<String>, name: Seq<char>) -> bool {
    exists|i: int| 0 <= i < names.len() && (#[trigger] names[i])@ == name
}

/// Whether no two of `names` have the same view.
pub open spec fn distinct_names(names: Seq<String>) -> bool {
    forall|i: int, j: int|
        0 <= i < j < names.len() ==> (#[trigger] names[i])@ != (#[trigger] names[j])@
}

/// Whether `key` is among `names`.
pub fn list_has(names: &Vec<String>, key: &str) -> (r: bool)
    ensures
        r == listed(names@, key@),
{
    let mut i: usize = 0;
    while i < names.len()
        invariant
            i <= names.len(),
            forall|j: int| 0 <= j < i ==> (#[trigger] names@[j])@ != key@,
        decreases names.len() - i,
    {
        if str_eq(names[i].as_str(), key) {
            return true;
        }
        i += 1;
    }
    false
}

/// Adds `key` to `names` unless it is there already.
pub fn add_name(names: &mut Vec<String>, key: &str)
    ensures
        forall|n: Seq<char>| #[trigger]
            listed(final(names)@, n) <==> listed(old(names)@, n) || n == key@,
        distinct_names(old(names)@) ==> distinct_names(final(names)@),
{
    let ghost before = names@;
    if !list_has(names, key) {
        names.push(key.to_owned());
        proof {
            let last = before.len() as int;
            assert(names@[last]@ == key@);
            assert forall|n: Seq<char>| #[trigger]
                listed(names@, n) <==> listed(before, n) || n == key@ by {
                if listed(before, n) {
                    let i = choose|i: int| 0 <= i < before.len() && (#[trigger] before[i])@ == n;
                    assert(names@[i]@ == n);
                }
                if listed(names@, n) && n != key@ {
                    let i = choose|i: int| 0 <= i < names@.len() && (#[trigger] names@[i])@ == n;
                    assert(before[i]@ == n);
                }
            }
            if distinct_names(before) {
                assert forall|i: int, j: int| 0 <= i < j < names@.len() implies (
                #[trigger] names@[i])@ != (#[trigger] names@[j])@ by {
                    if j == last {
                        assert(before[i]@ != key@);
                    } else {
                        assert(before[i]@ != before[j]@);
                    }
                }
            }
        }
    }
}

} // verus!
