//! The two normalizations that a write applies to its values: canonical
//! paths for the directory variables, and colon splitting for the search
//! paths.

use crate::text::{from_chars, join_spec, push_char, str_eq, strs, to_chars};
use vstd::prelude::*;

verus! {

/// `s` without its trailing slashes; a first character is never taken away.
pub open spec fn trim_trailing_slashes(s: Seq<char>) -> Seq<char>
    decreases s.len(),
{
    if s.len() > 1 && s.last() == '/' {
        trim_trailing_slashes(s.drop_last())
    } else {
        s
    }
}

/// `s` with every run of slashes replaced by one slash.
pub open spec fn squeeze_slashes(s: Seq<char>) -> Seq<char>
    decreases s.len(),
{
    if s.len() == 0 {
        s
    } else if s.len() >= 2 && s.last() == '/' && s[s.len() - 2] == '/' {
        squeeze_slashes(s.drop_last())
    } else {
        squeeze_slashes(s.drop_last()).push(s.last())
    }
}

/// The canonical form of a path: no trailing slash, unless the path is a
/// single slash, and no two slashes in a row.
pub open spec fn canonical_path(s: Seq<char>) -> Seq<char> {
    squeeze_slashes(trim_trailing_slashes(s))
}

/// Whether a path is in canonical form.
pub open spec fn is_canonical(s: Seq<char>) -> bool {
    &&& s.len() > 1 ==> s.last() != '/'
    &&& forall|i: int| 0 <= i < s.len() - 1 ==> !(#[trigger] s[i] == '/' && s[i + 1] == '/')
}

/// Whether a path starts at the root.
pub open spec fn is_absolute(s: Seq<char>) -> bool {
    s.len() > 0 && s[0] == '/'
}

proof fn lemma_trim(s: Seq<char>)
    ensures
        trim_trailing_slashes(s).len() <= s.len(),
        trim_trailing_slashes(s) == s.take(trim_trailing_slashes(s).len() as int),
        s.len() >= 1 ==> trim_trailing_slashes(s).len() >= 1,
        trim_trailing_slashes(s).len() > 1 ==> trim_trailing_slashes(s).last() != '/',
    decreases s.len(),
{
    if s.len() > 1 && s.last() == '/' {
        lemma_trim(s.drop_last());
        let t = trim_trailing_slashes(s.drop_last());
        assert(s.drop_last().take(t.len() as int) =~= s.take(t.len() as int));
    } else {
        assert(s.take(s.len() as int) =~= s);
    }
}

proof fn lemma_squeeze(s: Seq<char>)
    ensures
        squeeze_slashes(s).len() <= s.len(),
        s.len() > 0 ==> squeeze_slashes(s).len() > 0 && squeeze_slashes(s).last() == s.last()
            && squeeze_slashes(s)[0] == s[0],
        forall|i: int|
            0 <= i < squeeze_slashes(s).len() - 1 ==> !(#[trigger] squeeze_slashes(s)[i] == '/'
                && squeeze_slashes(s)[i + 1] == '/'),
    decreases s.len(),
{
    if s.len() > 0 {
        lemma_squeeze(s.drop_last());
    }
}

proof fn lemma_squeeze_fixed(s: Seq<char>)
    requires
        forall|i: int| 0 <= i < s.len() - 1 ==> !(#[trigger] s[i] == '/' && s[i + 1] == '/'),
    ensures
        squeeze_slashes(s) == s,
    decreases s.len(),
{
    if s.len() > 0 {
        lemma_squeeze_fixed(s.drop_last());
        if s.len() >= 2 {
            assert(!(s[s.len() - 2] == '/' && s[s.len() - 2 + 1] == '/'));
        }
        assert(s.drop_last().push(s.last()) =~= s);
    }
}

/// Canonicalizing yields a canonical path, leaves a canonical path as it is,
/// and so does nothing when applied a second time; an absolute path stays
/// absolute.
pub proof fn law_canonical_path(s: Seq<char>)
    ensures
        is_canonical(canonical_path(s)),
        is_canonical(s) ==> canonical_path(s) == s,
        canonical_path(canonical_path(s)) == canonical_path(s),
        is_absolute(s) ==> is_absolute(canonical_path(s)),
{
    lemma_trim(s);
    lemma_squeeze(trim_trailing_slashes(s));
    if is_canonical(s) {
        lemma_squeeze_fixed(s);
    }
    let c = canonical_path(s);
    lemma_squeeze_fixed(c);
}

/// Brings a path into canonical form: trailing slashes go, but for a path
/// that is a single slash, and each run of slashes becomes one slash.
pub fn path_make_canonical(path: &mut String)
    ensures
        final(path)@ == canonical_path(old(path)@),
{
    let chars = to_chars(path.as_str());
    let mut len: usize = chars.len();
    assert(chars@.take(chars.len() as int) =~= chars@);
    while len > 1 && chars[len - 1] == '/'
        invariant
            len <= chars.len(),
            trim_trailing_slashes(chars@) == trim_trailing_slashes(chars@.take(len as int)),
        decreases len,
    {
        assert(chars@.take(len as int).drop_last() =~= chars@.take(len - 1));
        len -= 1;
    }
    let ghost trimmed = chars@.take(len as int);
    assert(trim_trailing_slashes(chars@) == trimmed);
    let mut out = String::new();
    let mut i: usize = 0;
    while i < len
        invariant
            i <= len <= chars.len(),
            trimmed == chars@.take(len as int),
            out@ == squeeze_slashes(trimmed.take(i as int)),
        decreases len - i,
    {
        let ghost next = trimmed.take(i + 1);
        assert(next.drop_last() =~= trimmed.take(i as int));
        assert(next.last() == chars@[i as int]);
        if !(i >= 1 && chars[i] == '/' && chars[i - 1] == '/') {
            push_char(&mut out, chars[i]);
        }
        i += 1;
    }
    assert(trimmed.take(len as int) =~= trimmed);
    *path = out;
}

/// The pieces of `s` between its colons. There is always at least one piece;
/// a piece is empty where two colons meet or a colon stands at an end.
pub open spec fn split_colons(s: Seq<char>) -> Seq<Seq<char>>
    decreases s.len(),
{
    if s.len() == 0 {
        seq![Seq::<char>::empty()]
    } else {
        let before = split_colons(s.drop_last());
        if s.last() == ':' {
            before.push(Seq::<char>::empty())
        } else {
            before.drop_last().push(before.last().push(s.last()))
        }
    }
}

/// The pieces of all of `values`, in order.
pub open spec fn split_all(values: Seq<Seq<char>>) -> Seq<Seq<char>>
    decreases values.len(),
{
    if values.len() == 0 {
        Seq::empty()
    } else {
        split_all(values.drop_last()) + split_colons(values.last())
    }
}

/// A single dot in place of an empty piece.
pub open spec fn dot_if_empty(s: Seq<char>) -> Seq<char> {
    if s.len() == 0 {
        seq!['.']
    } else {
        s
    }
}

/// The value list of a search path: every value split at its colons, and
/// every empty piece replaced by a dot.
pub open spec fn search_path_values(values: Seq<Seq<char>>) -> Seq<Seq<char>> {
    split_all(values).map_values(|s: Seq<char>| dot_if_empty(s))
}

/// Whether `name` is one of the directory variables, `PWD` and `HOME`.
pub open spec fn is_directory_name(name: Seq<char>) -> bool {
    name == "PWD"@ || name == "HOME"@
}

/// Whether `name` is one of the search paths, `PATH` and `CDPATH`.
pub open spec fn is_search_path_name(name: Seq<char>) -> bool {
    name == "PATH"@ || name == "CDPATH"@
}

/// The values that a write of `values` to `name` stores: a single value of a
/// directory variable in canonical form, the values of a search path split
/// and dotted, any other values as they are.
pub open spec fn normalized_values(name: Seq<char>, values: Seq<Seq<char>>) -> Seq<Seq<char>> {
    let canonical = if values.len() == 1 && is_directory_name(name) {
        seq![canonical_path(values[0])]
    } else {
        values
    };
    if is_search_path_name(name) {
        search_path_values(canonical)
    } else {
        canonical
    }
}

/// Splitting at colons loses nothing: there is at least one piece, no
/// piece holds a colon, and the pieces joined by colons are the text that
/// was split.
pub proof fn law_split_colons(s: Seq<char>)
    ensures
        split_colons(s).len() >= 1,
        forall|i: int|
            0 <= i < split_colons(s).len() ==> !(#[trigger] split_colons(s)[i]).contains(':'),
        join_spec(split_colons(s), ':') == s,
    decreases s.len(),
{
    let pieces = split_colons(s);
    if s.len() == 0 {
        assert(pieces[0] =~= s);
    } else {
        let before = split_colons(s.drop_last());
        law_split_colons(s.drop_last());
        assert(s.drop_last().push(s.last()) =~= s);
        if s.last() == ':' {
            assert(pieces.drop_last() =~= before);
            assert(join_spec(pieces, ':') =~= s);
        } else {
            let grown = before.last().push(s.last());
            assert(pieces.last() == grown);
            if pieces.len() == 1 {
                assert(before[0] == s.drop_last());
                assert(pieces[0] =~= s);
            } else {
                assert(pieces.drop_last() =~= before.drop_last());
                assert(join_spec(before, ':') == join_spec(before.drop_last(), ':').push(':')
                    + before.last());
                assert(join_spec(pieces, ':') =~= join_spec(before, ':').push(s.last()));
            }
        }
    }
}

proof fn lemma_split_nonempty(s: Seq<char>)
    ensures
        split_colons(s).len() >= 1,
    decreases s.len(),
{
    if s.len() > 0 {
        lemma_split_nonempty(s.drop_last());
    }
}

fn split_into(out: &mut Vec<String>, s: &str)
    ensures
        strs(final(out)@) == strs(old(out)@) + split_colons(s@),
{
    let chars = to_chars(s);
    let ghost base = strs(out@);
    let mut start: usize = 0;
    let mut i: usize = 0;
    assert(chars@.take(0) =~= Seq::<char>::empty());
    assert(chars@.subrange(0, 0) =~= Seq::<char>::empty());
    assert(base + split_colons(chars@.take(0)).drop_last() =~= base);
    while i < chars.len()
        invariant
            start <= i <= chars.len(),
            split_colons(chars@.take(i as int)).len() >= 1,
            strs(out@) == base + split_colons(chars@.take(i as int)).drop_last(),
            split_colons(chars@.take(i as int)).last() == chars@.subrange(start as int, i as int),
        decreases chars.len() - i,
    {
        let ghost prev = split_colons(chars@.take(i as int));
        let ghost next = chars@.take(i + 1);
        assert(next.drop_last() =~= chars@.take(i as int));
        assert(next.last() == chars@[i as int]);
        proof {
            lemma_split_nonempty(next);
        }
        if chars[i] == ':' {
            let piece = from_chars(&chars, start, i);
            let ghost before = out@;
            out.push(piece);
            start = i + 1;
            assert(split_colons(next) == prev.push(Seq::<char>::empty()));
            assert(split_colons(next).drop_last() =~= prev);
            assert(prev =~= prev.drop_last().push(prev.last()));
            assert(strs(out@) =~= strs(before).push(piece@));
            assert(strs(out@) =~= base + split_colons(next).drop_last());
            assert(chars@.subrange(start as int, i + 1) =~= Seq::<char>::empty());
        } else {
            assert(split_colons(next) == prev.drop_last().push(prev.last().push(chars@[i as int])));
            assert(split_colons(next).drop_last() =~= prev.drop_last());
            assert(chars@.subrange(start as int, i + 1) =~= chars@.subrange(
                start as int,
                i as int,
            ).push(chars@[i as int]));
        }
        i += 1;
    }
    assert(chars@.take(chars.len() as int) =~= chars@);
    let piece = from_chars(&chars, start, i);
    let ghost before = out@;
    let ghost all = split_colons(chars@);
    out.push(piece);
    assert(strs(out@) =~= strs(before).push(piece@));
    assert(all =~= all.drop_last().push(all.last()));
    assert(strs(out@) =~= base + all);
}

/// Splits every value at its colons and returns all the pieces, in order.
pub fn colon_split(vals: &Vec<String>) -> (r: Vec<String>)
    ensures
        strs(r@) == split_all(strs(vals@)),
{
    let mut r: Vec<String> = Vec::new();
    let mut i: usize = 0;
    assert(strs(r@) =~= split_all(strs(vals@).take(0)));
    while i < vals.len()
        invariant
            i <= vals.len(),
            strs(r@) == split_all(strs(vals@).take(i as int)),
        decreases vals.len() - i,
    {
        let ghost next = strs(vals@).take(i + 1);
        assert(next.drop_last() =~= strs(vals@).take(i as int));
        assert(next.last() == vals@[i as int]@);
        split_into(&mut r, vals[i].as_str());
        i += 1;
    }
    assert(strs(vals@).take(vals.len() as int) =~= strs(vals@));
    r
}

/// The values that a write to `key` stores in place of `vals`.
pub fn normalize_values(key: &str, vals: Vec<String>) -> (r: Vec<String>)
    ensures
        strs(r@) == normalized_values(key@, strs(vals@)),
{
    let mut vals = vals;
    let ghost given = strs(vals@);
    if vals.len() == 1 && (str_eq(key, "PWD") || str_eq(key, "HOME")) {
        let mut first = vals.remove(0);
        path_make_canonical(&mut first);
        vals.push(first);
        assert(strs(vals@) =~= seq![canonical_path(given[0])]);
    }
    if str_eq(key, "PATH") || str_eq(key, "CDPATH") {
        let mut pieces = colon_split(&vals);
        let ghost split = strs(pieces@);
        let mut i: usize = 0;
        while i < pieces.len()
            invariant
                i <= pieces.len(),
                pieces.len() == split.len(),
                forall|j: int| 0 <= j < i ==> pieces@[j]@ == dot_if_empty(split[j]),
                forall|j: int| i <= j < pieces.len() ==> pieces@[j]@ == split[j],
            decreases pieces.len() - i,
        {
            if pieces[i].as_str().unicode_len() == 0 {
                let mut dot = String::new();
                push_char(&mut dot, '.');
                assert(dot@ =~= seq!['.']);
                pieces.set(i, dot);
            }
            i += 1;
        }
        assert(strs(pieces@) =~= split.map_values(|s: Seq<char>| dot_if_empty(s)));
        pieces
    } else {
        vals
    }
}

} // verus!
