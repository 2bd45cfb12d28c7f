//! Character-level text operations on `&str`, each specified over the
//! string's view as a sequence of chars: searching, splitting, prefixes and lines.
use vstd::prelude::*;

verus! {

/// The first position at or after `i` where `s` holds `c`.
pub open spec fn find_from(s: Seq<char>, c: char, i: int) -> Option<int>
    decreases s.len() - i,
{
    if i < 0 || i >= s.len() {
        None
    } else if s[i] == c {
        Some(i)
    } else {
        find_from(s, c, i + 1)
    }
}

/// What `find_from` returns: the first occurrence at or after `i`, or none at all.
pub proof fn lemma_find_from(s: Seq<char>, c: char, i: int)
    requires
        0 <= i,
    ensures
        match find_from(s, c, i) {
            Some(j) => i <= j < s.len() && s[j] == c && forall|k: int| i <= k < j ==> s[k] != c,
            None => forall|k: int| i <= k < s.len() ==> s[k] != c,
        },
    decreases s.len() - i,
{
    if i < s.len() && s[i] != c {
        lemma_find_from(s, c, i + 1);
    }
}

/// The pieces of `s[start..]` between occurrences of `c` (as `str::split` yields them).
pub open spec fn split_from(s: Seq<char>, c: char, start: int) -> Seq<Seq<char>>
    decreases s.len() - start,
{
    if start < 0 || start > s.len() {
        Seq::empty()
    } else {
        match find_from(s, c, start) {
            None => seq![s.subrange(start, s.len() as int)],
            Some(j) => {
                proof {
                    lemma_find_from(s, c, start);
                }
                seq![s.subrange(start, j)] + split_from(s, c, j + 1)
            },
        }
    }
}

/// The pieces of `s` between occurrences of `c`: always at least one, possibly empty.
pub open spec fn split(s: Seq<char>, c: char) -> Seq<Seq<char>> {
    split_from(s, c, 0)
}

/// `s` cut at the first occurrence of `c`, which belongs to neither part.
pub open spec fn split_once(s: Seq<char>, c: char) -> Option<(Seq<char>, Seq<char>)> {
    match find_from(s, c, 0) {
        Some(j) => Some((s.take(j), s.skip(j + 1))),
        None => None,
    }
}

/// `s` begins with `p`.
pub open spec fn starts_with(s: Seq<char>, p: Seq<char>) -> bool {
    p.len() <= s.len() && s.take(p.len() as int) == p
}

/// What follows the prefix `p` in `s`, if `s` begins with `p`.
pub open spec fn strip_prefix(s: Seq<char>, p: Seq<char>) -> Option<Seq<char>> {
    if starts_with(s, p) {
        Some(s.skip(p.len() as int))
    } else {
        None
    }
}

/// A line without its carriage return, when it ends with one.
pub open spec fn strip_cr(t: Seq<char>) -> Seq<char> {
    if t.len() > 0 && t.last() == '\r' {
        t.drop_last()
    } else {
        t
    }
}

/// Searching `p + b` from a position in `b` finds what searching `b` finds,
/// shifted by the length of `p`.
pub proof fn lemma_find_from_shift(p: Seq<char>, b: Seq<char>, c: char, i: int)
    requires
        0 <= i,
    ensures
        find_from(p + b, c, p.len() + i) == match find_from(b, c, i) {
            Some(j) => Some(j + p.len()),
            None => None::<int>,
        },
    decreases b.len() - i,
{
    if i < b.len() {
        assert((p + b)[p.len() + i] == b[i]);
        if b[i] != c {
            lemma_find_from_shift(p, b, c, i + 1);
        }
    }
}

/// Splitting `p + b` from a position in `b` gives the pieces of `b` from there.
pub proof fn lemma_split_shift(p: Seq<char>, b: Seq<char>, c: char, i: int)
    requires
        0 <= i <= b.len(),
    ensures
        split_from(p + b, c, p.len() + i) == split_from(b, c, i),
    decreases b.len() - i,
{
    lemma_find_from_shift(p, b, c, i);
    lemma_find_from(b, c, i);
    match find_from(b, c, i) {
        None => {
            assert((p + b).subrange(p.len() + i, (p + b).len() as int) =~= b.subrange(
                i,
                b.len() as int,
            ));
        },
        Some(j) => {
            assert((p + b).subrange(p.len() + i, p.len() + j) =~= b.subrange(i, j));
            lemma_split_shift(p, b, c, j + 1);
        },
    }
}

/// Splitting from a position within the text gives at least one piece.
proof fn lemma_split_from_nonempty(s: Seq<char>, c: char, start: int)
    requires
        0 <= start <= s.len(),
    ensures
        split_from(s, c, start).len() >= 1,
    decreases s.len() - start,
{
    lemma_find_from(s, c, start);
    if let Some(j) = find_from(s, c, start) {
        lemma_split_from_nonempty(s, c, j + 1);
    }
}

/// A split has at least one piece, and at least two when the separator occurs.
pub proof fn lemma_split_len(s: Seq<char>, c: char)
    ensures
        split(s, c).len() >= 1,
        s.contains(c) ==> split(s, c).len() >= 2,
{
    lemma_split_from_nonempty(s, c, 0);
    lemma_find_from(s, c, 0);
    if s.contains(c) {
        let i = choose|i: int| 0 <= i < s.len() && s[i] == c;
        assert(find_from(s, c, 0) is Some);
        let j = find_from(s, c, 0)->0;
        lemma_split_from_nonempty(s, c, j + 1);
    }
}

/// A text without the separator is one piece.
pub proof fn lemma_split_whole(s: Seq<char>, c: char)
    requires
        !s.contains(c),
    ensures
        split(s, c) == seq![s],
{
    lemma_find_from(s, c, 0);
    if let Some(j) = find_from(s, c, 0) {
        assert(s.contains(c));
    }
    assert(s.subrange(0, s.len() as int) =~= s);
}

/// A first piece without the separator, then the separator, then the rest:
/// the first piece comes first, and the rest splits on its own.
pub proof fn lemma_split_first(a: Seq<char>, b: Seq<char>, c: char)
    requires
        !a.contains(c),
    ensures
        split(a.push(c) + b, c) == seq![a] + split(b, c),
{
    let s = a.push(c) + b;
    lemma_find_from(s, c, 0);
    assert(s[a.len() as int] == c);
    match find_from(s, c, 0) {
        Some(j) => {
            if j < a.len() {
                assert(s[j] == a[j]);
                assert(a.contains(c));
            }
            assert(j == a.len());
        },
        None => {
            assert(false);
        },
    }
    assert(s.subrange(0, a.len() as int) =~= a);
    lemma_split_shift(a.push(c), b, c, 0);
    assert(a.push(c).len() + 0 == a.len() + 1);
}

/// The lines of `s[start..]`: split at each `'\n'`, a `"\r\n"` ending counts as
/// one line ending, and a final line ending adds no empty line.
pub open spec fn lines_from(s: Seq<char>, start: int) -> Seq<Seq<char>>
    decreases s.len() - start,
{
    if start < 0 || start >= s.len() {
        Seq::empty()
    } else {
        match find_from(s, '\n', start) {
            None => seq![s.subrange(start, s.len() as int)],
            Some(j) => {
                proof {
                    lemma_find_from(s, '\n', start);
                }
                seq![strip_cr(s.subrange(start, j))] + lines_from(s, j + 1)
            },
        }
    }
}

/// The lines of `s`, as `str::lines` yields them.
pub open spec fn lines(s: Seq<char>) -> Seq<Seq<char>> {
    lines_from(s, 0)
}

/// The char sequences that a sequence of string slices hold.
pub open spec fn views(v: Seq<&str>) -> Seq<Seq<char>> {
    v.map_values(|p: &str| p@)
}

/// The char sequences that a sequence of strings hold.
pub open spec fn string_views(v: Seq<String>) -> Seq<Seq<char>> {
    v.map_values(|p: String| p@)
}

/// An optional position as a mathematical integer.
pub open spec fn opt_int(r: Option<usize>) -> Option<int> {
    match r {
        Some(j) => Some(j as int),
        None => None,
    }
}

/// The first position at or after `start` where `s` holds `c`.
pub fn find_char_from(s: &str, c: char, start: usize) -> (r: Option<usize>)
    requires
        start <= s@.len(),
    ensures
        opt_int(r) == find_from(s@, c, start as int),
{
    let n = s.unicode_len();
    let mut i = start;
    while i < n
        invariant
            n == s@.len(),
            start <= i <= n,
            find_from(s@, c, start as int) == find_from(s@, c, i as int),
        decreases n - i,
    {
        if s.get_char(i) == c {
            return Some(i);
        }
        i += 1;
    }
    None
}

/// The two strings hold the same chars.
pub fn str_eq(a: &str, b: &str) -> (r: bool)
    ensures
        r == (a@ == b@),
{
    let n = a.unicode_len();
    if n != b.unicode_len() {
        return false;
    }
    let mut i: usize = 0;
    while i < n
        invariant
            n == a@.len(),
            n == b@.len(),
            i <= n,
            forall|k: int| 0 <= k < i ==> a@[k] == b@[k],
        decreases n - i,
    {
        if a.get_char(i) != b.get_char(i) {
            return false;
        }
        i += 1;
    }
    assert(a@ =~= b@);
    true
}

/// `s` begins with `p`.
pub fn starts_with_str(s: &str, p: &str) -> (r: bool)
    ensures
        r == starts_with(s@, p@),
{
    let n = p.unicode_len();
    if n > s.unicode_len() {
        return false;
    }
    let mut i: usize = 0;
    while i < n
        invariant
            n == p@.len(),
            n <= s@.len(),
            i <= n,
            forall|k: int| 0 <= k < i ==> s@[k] == p@[k],
        decreases n - i,
    {
        if s.get_char(i) != p.get_char(i) {
            assert(s@.take(n as int)[i as int] != p@[i as int]);
            return false;
        }
        i += 1;
    }
    assert(s@.take(n as int) =~= p@);
    true
}

/// What follows `p` in `s`, if `s` begins with `p`.
pub fn strip_prefix_str<'a>(s: &'a str, p: &str) -> (r: Option<&'a str>)
    ensures
        match r {
            Some(rest) => strip_prefix(s@, p@) == Some(rest@),
            None => strip_prefix(s@, p@) is None,
        },
{
    if starts_with_str(s, p) {
        let rest = s.substring_char(p.unicode_len(), s.unicode_len());
        assert(rest@ =~= s@.skip(p@.len() as int));
        Some(rest)
    } else {
        None
    }
}

/// `s` cut at the first `c`.
pub fn split_once_char<'a>(s: &'a str, c: char) -> (r: Option<(&'a str, &'a str)>)
    ensures
        match r {
            Some((a, b)) => split_once(s@, c) == Some((a@, b@)),
            None => split_once(s@, c) is None,
        },
{
    let n = s.unicode_len();
    match find_char_from(s, c, 0) {
        Some(j) => {
            proof {
                lemma_find_from(s@, c, 0);
            }
            let a = s.substring_char(0, j);
            let b = s.substring_char(j + 1, n);
            assert(a@ =~= s@.take(j as int));
            assert(b@ =~= s@.skip(j + 1));
            Some((a, b))
        },
        None => None,
    }
}

/// The pieces of `s` between occurrences of `c`.
pub fn split_char<'a>(s: &'a str, c: char) -> (r: Vec<&'a str>)
    ensures
        views(r@) == split(s@, c),
{
    let n = s.unicode_len();
    let mut pieces: Vec<&'a str> = Vec::new();
    let mut start: usize = 0;
    loop
        invariant_except_break
            n == s@.len(),
            start <= n,
            views(pieces@) + split_from(s@, c, start as int) == split(s@, c),
        ensures
            views(pieces@) == split(s@, c),
        decreases n - start,
    {
        let ghost old_pieces = pieces@;
        match find_char_from(s, c, start) {
            None => {
                let piece = s.substring_char(start, n);
                pieces.push(piece);
                assert(views(pieces@) =~= views(old_pieces) + seq![piece@]);
                break;
            },
            Some(j) => {
                proof {
                    lemma_find_from(s@, c, start as int);
                }
                let piece = s.substring_char(start, j);
                pieces.push(piece);
                assert(views(pieces@) =~= views(old_pieces) + seq![piece@]);
                assert(split_from(s@, c, start as int) == seq![piece@] + split_from(
                    s@,
                    c,
                    j + 1,
                ));
                assert(views(old_pieces) + (seq![piece@] + split_from(s@, c, j + 1)) =~= (
                views(old_pieces) + seq![piece@]) + split_from(s@, c, j + 1));
                start = j + 1;
            },
        }
    }
    pieces
}

/// The lines of `s`.
pub fn lines_of<'a>(s: &'a str) -> (r: Vec<&'a str>)
    ensures
        views(r@) == lines(s@),
{
    let n = s.unicode_len();
    let mut out: Vec<&'a str> = Vec::new();
    let mut start: usize = 0;
    while start < n
        invariant
            n == s@.len(),
            start <= n,
            views(out@) + lines_from(s@, start as int) == lines(s@),
        decreases n - start,
    {
        let ghost old_out = out@;
        match find_char_from(s, '\n', start) {
            None => {
                let line = s.substring_char(start, n);
                out.push(line);
                assert(views(out@) =~= views(old_out) + seq![line@]);
                assert(lines_from(s@, n as int) =~= Seq::<Seq<char>>::empty());
                assert(views(out@) + lines_from(s@, n as int) =~= views(out@));
                start = n;
            },
            Some(j) => {
                proof {
                    lemma_find_from(s@, '\n', start as int);
                }
                let mut end = j;
                if j > start && s.get_char(j - 1) == '\r' {
                    end = j - 1;
                }
                let line = s.substring_char(start, end);
                assert(line@ =~= strip_cr(s@.subrange(start as int, j as int)));
                out.push(line);
                assert(views(out@) =~= views(old_out) + seq![line@]);
                assert(views(old_out) + (seq![line@] + lines_from(s@, j + 1)) =~= (views(
                    old_out,
                ) + seq![line@]) + lines_from(s@, j + 1));
                start = j + 1;
            },
        }
    }
    assert(lines_from(s@, start as int) =~= Seq::<Seq<char>>::empty());
    assert(views(out@) + lines_from(s@, start as int) =~= views(out@));
    out
}

} // verus!
