//! The path of a request: a text of names separated by `/`.

use vstd::prelude::*;
use vstd::string::StrSliceExecFns;

verus! {

/// The separator of the names of a path.
pub const SEPARATOR: char = '/';

/// Whether `c` is white space: a character with the Unicode property
/// `White_Space`.
pub open spec fn is_space(c: char) -> bool {
    let u = c as u32;
    ||| 0x09 <= u <= 0x0d
    ||| u == 0x20
    ||| u == 0x85
    ||| u == 0xa0
    ||| u == 0x1680
    ||| 0x2000 <= u <= 0x200a
    ||| u == 0x2028
    ||| u == 0x2029
    ||| u == 0x202f
    ||| u == 0x205f
    ||| u == 0x3000
}

/// The number of white-space characters that `s` starts with.
pub open spec fn leading_spaces(s: Seq<char>) -> nat
    decreases s.len(),
{
    if s.len() > 0 && is_space(s.first()) {
        1 + leading_spaces(s.drop_first())
    } else {
        0
    }
}

/// The number of white-space characters that `s` ends with.
pub open spec fn trailing_spaces(s: Seq<char>) -> nat
    decreases s.len(),
{
    if s.len() > 0 && is_space(s.last()) {
        1 + trailing_spaces(s.drop_last())
    } else {
        0
    }
}

/// `s` without the white space at its start and at its end.
pub open spec fn trimmed(s: Seq<char>) -> Seq<char> {
    if leading_spaces(s) == s.len() {
        Seq::empty()
    } else {
        s.subrange(leading_spaces(s) as int, s.len() - trailing_spaces(s))
    }
}

/// The pieces of `s` between the occurrences of `separator`. A text without
/// separator is one piece; two adjacent separators enclose an empty piece,
/// as does a separator at the start or at the end.
pub open spec fn split(s: Seq<char>, separator: char) -> Seq<Seq<char>>
    decreases s.len(),
{
    if s.len() == 0 {
        seq![Seq::empty()]
    } else {
        let before = split(s.drop_last(), separator);
        if s.last() == separator {
            before.push(Seq::empty())
        } else {
            before.update(before.len() - 1, before.last().push(s.last()))
        }
    }
}

/// The names of the path `path`: what stands between the separators, after
/// the white space around the whole path is removed.
pub open spec fn names_of(path: Seq<char>) -> Seq<Seq<char>> {
    split(trimmed(path), SEPARATOR)
}

/// The texts of `parts`.
pub open spec fn texts(parts: Seq<String>) -> Seq<Seq<char>> {
    Seq::new(parts.len(), |i: int| parts[i]@)
}

/// Whether `c` is white space.
pub fn is_white_space(c: char) -> (space: bool)
    ensures
        space == is_space(c),
{
    let u: u32 = c as u32;
    (0x09 <= u && u <= 0x0d) || u == 0x20 || u == 0x85 || u == 0xa0 || u == 0x1680 || (0x2000 <= u
        && u <= 0x200a) || u == 0x2028 || u == 0x2029 || u == 0x202f || u == 0x205f || u == 0x3000
}

/// `path` without the white space at its start and at its end.
pub fn trim_path(path: &str) -> (inner: &str)
    ensures
        inner@ == trimmed(path@),
{
    let n: usize = path.unicode_len();
    let mut from: usize = 0;
    assert(path@.skip(0) =~= path@);
    while from < n && is_white_space(path.get_char(from))
        invariant
            n == path@.len(),
            from <= n,
            leading_spaces(path@) == from + leading_spaces(path@.skip(from as int)),
        decreases n - from,
    {
        assert(path@.skip(from as int).drop_first() =~= path@.skip(from as int + 1));
        from = from + 1;
    }
    if from == n {
        return path.substring_char(n, n);
    }
    let mut to: usize = n;
    while to > from + 1 && is_white_space(path.get_char(to - 1))
        invariant
            n == path@.len(),
            from < to <= n,
            !is_space(path@[from as int]),
            trailing_spaces(path@) == (n - to) + trailing_spaces(path@.take(to as int)),
        decreases to,
    {
        assert(path@.take(to as int).drop_last() =~= path@.take(to as int - 1));
        to = to - 1;
    }
    path.substring_char(from, to)
}

/// Splits `path` into the names it is made of.
///
/// The white space around the path is dropped; what stands between the
/// separators is kept as it is.
pub fn path_parts(path: &str) -> (parts: Vec<String>)
    ensures
        texts(parts@) == names_of(path@),
        parts@.len() > 0,
{
    let inner = trim_path(path);
    let n: usize = inner.unicode_len();
    let mut parts: Vec<String> = Vec::new();
    let mut start: usize = 0;
    let mut i: usize = 0;
    assert(inner@.take(0) =~= Seq::<char>::empty());
    while i < n
        invariant
            n == inner@.len(),
            start <= i <= n,
            split(inner@.take(i as int), SEPARATOR) == texts(parts@).push(
                inner@.subrange(start as int, i as int),
            ),
        decreases n - i,
    {
        let ghost piece = inner@.subrange(start as int, i as int);
        let ghost prefix = inner@.take(i as int + 1);
        assert(prefix.drop_last() =~= inner@.take(i as int));
        if inner.get_char(i) == SEPARATOR {
            parts.push(inner.substring_char(start, i).to_owned());
            start = i + 1;
            assert(inner@.subrange(start as int, i as int + 1) =~= Seq::<char>::empty());
        } else {
            assert(piece.push(inner@[i as int]) =~= inner@.subrange(start as int, i as int + 1));
        }
        i = i + 1;
    }
    assert(inner@.take(n as int) =~= inner@);
    parts.push(inner.substring_char(start, n).to_owned());
    parts
}

} // verus!
