//! Paths of files.
//!
//! How a path is taken apart depends on the platform: under Windows the backslash
//! separates names as the slash does, and a drive may stand in front; elsewhere,
//! the slash alone separates them. std decides by the platform that it runs on, so
//! what it does is stated as one of these two.

use crate::text::{
    chars_of, lemma_split_joined, lemma_split_push, lemma_split_whole, lemma_until_char_bounds,
    same_text, slice_of, split_at_char, split_on, string_of, until_char, views,
};
use vstd::prelude::*;

verus! {

/// A path taken apart.
pub struct PathParts {
    /// The letter of the drive, in lower case.
    pub drive: Option<char>,
    /// Whether the path starts at the root.
    pub rooted: bool,
    /// The names that it goes through.
    pub names: Seq<Seq<char>>,
}

/// The names that a path goes through, given what stands between its separators:
/// repeated separators count once, and a name `.` counts only if the path starts
/// with it.
pub open spec fn path_names(pieces: Seq<Seq<char>>, start: bool) -> Seq<Seq<char>>
    decreases pieces.len(),
{
    if pieces.len() == 0 {
        Seq::empty()
    } else if pieces[0].len() == 0 || (pieces[0] == seq!['.'] && !start) {
        path_names(pieces.skip(1), false)
    } else {
        seq![pieces[0]] + path_names(pieces.skip(1), false)
    }
}

/// The letter of the drive that a path of Windows starts with, in lower case.
pub open spec fn drive_of(path: Seq<char>) -> Option<char> {
    if path.len() >= 2 && path[1] == ':' && 'a' <= path_char(path[0]) <= 'z' {
        Some(path_char(path[0]))
    } else {
        None
    }
}

/// What follows the drive, with slashes between its names.
pub open spec fn after_drive(path: Seq<char>, windows: bool) -> Seq<char> {
    if windows {
        path.skip(
            if drive_of(path) is Some {
                2
            } else {
                0
            },
        ).map_values(
            |c: char|
                if c == '\\' {
                    '/'
                } else {
                    c
                },
        )
    } else {
        path
    }
}

/// A path taken apart as Windows does, or as other platforms do. Under Windows
/// this is for paths without a server or a device in front.
pub open spec fn parts_of(path: Seq<char>, windows: bool) -> PathParts {
    let body = after_drive(path, windows);
    PathParts {
        drive: if windows {
            drive_of(path)
        } else {
            None
        },
        rooted: body.len() > 0 && body[0] == '/',
        names: path_names(split_on(body, '/'), true),
    }
}

/// Whether a character separates names on some platform.
pub open spec fn is_separator(c: char) -> bool {
    c == '/' || c == '\\'
}

/// Whether a path starts with two separators. Under Windows a server or a device
/// may follow.
pub open spec fn leads_twice(path: Seq<char>) -> bool {
    path.len() >= 2 && is_separator(path[0]) && is_separator(path[1])
}

/// Whether a path starts with what tells Windows to take it as it is.
pub open spec fn leads_verbatim(path: Seq<char>) -> bool {
    path.len() >= 4 && path.take(4) == seq!['\\', '\\', '?', '\\']
}

/// Whether no platform sees a drive, a server or another separator in a path.
pub open spec fn plain_path(path: Seq<char>) -> bool {
    !path.contains('\\') && !path.contains(':') && !leads_twice(path)
}

/// The names that stand in a path between separators of either kind, but for
/// names `.`, with ASCII letters in lower case.
pub open spec fn written_names(path: Seq<char>) -> Seq<Seq<char>> {
    path_names(split_on(path.map_values(|c: char| path_char(c)), '\\'), false)
}

/// Whether two paths are equal as the platform takes them apart. Under Windows
/// this leaves open what starts with two separators.
pub open spec fn compares_to(a: Seq<char>, b: Seq<char>, equal: bool, windows: bool) -> bool {
    (windows ==> !leads_twice(a) && !leads_twice(b)) ==> equal == (parts_of(a, windows) == parts_of(
        b,
        windows,
    ))
}

/// Whether `equal` can be the answer to whether two paths are equal, on some
/// platform: the paths have the same parts there. Wherever it is, a path is equal
/// to itself, equal paths have the same names but for the case of ASCII letters,
/// and plain paths are equal if they go through the same names.
pub open spec fn are_equal(a: Seq<char>, b: Seq<char>, equal: bool) -> bool {
    &&& a == b ==> equal
    &&& equal ==> written_names(a) == written_names(b)
    &&& plain_path(a) && plain_path(b) ==> equal == same_place(a, b, false)
    &&& compares_to(a, b, equal, false) || compares_to(a, b, equal, true)
}

/// Equality of `std::path::Path`: whether two paths have the same components.
/// Taking a path apart leaves out repeated separators, one at the end, and names
/// `.` but at the start; names are compared as they are, the letter of a drive
/// without regard to case. Left open is which platform std runs on, and what of
/// two separators at the start under Windows.
#[verifier::external_body]
pub(crate) fn same_path(a: &str, b: &str) -> (res: bool)
    ensures
        are_equal(a@, b@, res),
{
    std::path::Path::new(a) == std::path::Path::new(b)
}

/// Whether a text is the part of a path that starts at `i`.
pub open spec fn stands_at(path: Seq<char>, text: Seq<char>, i: int) -> bool {
    0 <= i <= path.len() - text.len() && path.subrange(i, i + text.len()) == text
}

/// The last name that a path goes through, unless it leads to a place by its
/// position: to where it starts, or one up.
pub open spec fn last_name(names: Seq<Seq<char>>) -> Option<Seq<char>> {
    if names.len() == 0 || names.last() == seq!['.'] || names.last() == seq!['.', '.'] {
        None
    } else {
        Some(names.last())
    }
}

/// Whether `name` is the last name of a path as the platform takes it apart.
/// Under Windows a server with what it shares, or a device, is no name: of a path
/// that may start with one and is short, or is taken as it is, this says only that
/// a name is a part of it.
pub open spec fn ends_in(path: Seq<char>, name: Option<Seq<char>>, windows: bool) -> bool {
    let names = parts_of(path, windows).names;
    if windows && leads_twice(path) && (leads_verbatim(path) || names.len() <= 2) {
        name matches Some(n) ==> n.len() > 0 && exists|i: int| stands_at(path, n, i)
    } else {
        name == last_name(names)
    }
}

/// Whether `name` is the last name of a path on some platform.
pub open spec fn is_file_name(path: Seq<char>, name: Option<Seq<char>>) -> bool {
    ends_in(path, name, false) || ends_in(path, name, true)
}

/// Whether a text is a path without its last name as the platform takes it apart:
/// the shortest beginning of the path that has the other parts. Under Windows
/// what follows two separators is kept, so there it may not be the shortest; of a
/// path that may be without any name, or is taken as it is, this says only that
/// it is a shorter beginning.
pub open spec fn stands_in(path: Seq<char>, directory: Option<Seq<char>>, windows: bool) -> bool {
    let parts = parts_of(path, windows);
    let rest = PathParts { names: parts.names.drop_last(), ..parts };
    let begins = directory matches Some(dir) ==> dir.len() < path.len() && dir == path.take(
        dir.len() as int,
    );
    if windows && leads_twice(path) {
        &&& begins
        &&& !leads_verbatim(path) && parts.names.len() > 2 ==> (directory matches Some(dir)
            && parts_of(dir, windows).names == rest.names)
    } else if parts.names.len() == 0 {
        directory is None
    } else {
        &&& begins
        &&& directory matches Some(dir) && parts_of(dir, windows) == rest && forall|k: int|
            0 <= k < dir.len() ==> #[trigger] parts_of(path.take(k), windows) != rest
    }
}

/// Whether `directory` is a path without its last name on some platform.
pub open spec fn is_directory(path: Seq<char>, directory: Option<Seq<char>>) -> bool {
    stands_in(path, directory, false) || stands_in(path, directory, true)
}

/// The text of an optional string.
pub open spec fn text_of(s: Option<String>) -> Option<Seq<char>> {
    match s {
        Some(t) => Some(t@),
        None => None,
    }
}

/// `Path::file_name` of std: the last component of a path, if it is a name.
/// Left open is which platform std runs on, and what of two separators at the
/// start under Windows.
#[verifier::external_body]
pub(crate) fn file_name(path: &str) -> (res: Option<String>)
    ensures
        is_file_name(path@, text_of(res)),
{
    std::path::Path::new(path).file_name().map(|name| name.to_string_lossy().to_string())
}

/// `Path::parent` of std: a path without its last component; none if it ends in
/// the root or a drive, or is empty. Left open is which platform std runs on, and
/// what of two separators at the start under Windows.
#[verifier::external_body]
pub(crate) fn parent(path: &str) -> (res: Option<String>)
    ensures
        is_directory(path@, text_of(res)),
{
    std::path::Path::new(path).parent().map(|dir| dir.to_string_lossy().to_string())
}

/// A character of a path for a comparison under Windows: the two separators are
/// the same, and so are the cases of an ASCII letter.
pub open spec fn path_char(c: char) -> char {
    if c == '/' {
        '\\'
    } else if 'A' <= c <= 'Z' {
        (c as int + 32) as char
    } else {
        c
    }
}

/// Whether two paths are the same. Under Windows they are compared character by
/// character; elsewhere they have to start at the root or not alike, and go
/// through the same names.
pub open spec fn same_place(p1: Seq<char>, p2: Seq<char>, windows: bool) -> bool {
    if windows {
        p1.map_values(|c: char| path_char(c)) == p2.map_values(|c: char| path_char(c))
    } else {
        parts_of(p1, false) == parts_of(p2, false)
    }
}

/// A character of a path for a comparison under Windows.
fn folded(c: char) -> (res: char)
    ensures
        res == path_char(c),
{
    if c == '/' {
        '\\'
    } else if 'A' <= c && c <= 'Z' {
        (c as u8 + 32) as char
    } else {
        c
    }
}

/// The names that a path goes through where `/` separates them.
fn names_of(path: &Vec<char>) -> (res: Vec<Vec<char>>)
    ensures
        views(res@) == path_names(split_on(path@, '/'), true),
{
    let pieces = split_at_char(path, '/');
    let dot = chars_of(".");
    let ghost all = views(pieces@);
    proof {
        reveal_strlit(".");
        assert(dot@ =~= seq!['.']);
    }
    let mut out: Vec<Vec<char>> = Vec::new();
    let mut i: usize = 0;
    assert(all.skip(0) =~= all);
    assert(views(out@) + path_names(all, true) =~= path_names(all, true));
    while i < pieces.len()
        invariant
            i <= pieces.len(),
            all == views(pieces@),
            all == split_on(path@, '/'),
            dot@ == seq!['.'],
            views(out@) + path_names(all.skip(i as int), i == 0) == path_names(all, true),
        decreases pieces.len() - i,
    {
        let ghost before = views(out@);
        let ghost rest = all.skip(i as int);
        let piece = &pieces[i];
        assert(rest[0] == piece@);
        assert(rest.skip(1) =~= all.skip(i + 1));
        if !(piece.len() == 0 || (same_text(piece, &dot) && i != 0)) {
            let copy = slice_of(piece, 0, piece.len());
            assert(copy@ =~= piece@);
            out.push(copy);
            assert(views(out@) =~= before.push(piece@));
            assert(before + (seq![piece@] + path_names(rest.skip(1), false)) =~= views(out@)
                + path_names(rest.skip(1), false));
        }
        i += 1;
    }
    assert(all.skip(i as int).len() == 0);
    assert(views(out@) =~= path_names(all, true));
    out
}

/// Whether two paths are the same under Windows.
fn same_folded(a: &Vec<char>, b: &Vec<char>) -> (res: bool)
    ensures
        res == same_place(a@, b@, true),
{
    let ghost fa = a@.map_values(|c: char| path_char(c));
    let ghost fb = b@.map_values(|c: char| path_char(c));
    if a.len() != b.len() {
        assert(fa.len() != fb.len());
        return false;
    }
    let mut i: usize = 0;
    while i < a.len()
        invariant
            i <= a.len() == b.len(),
            fa == a@.map_values(|c: char| path_char(c)),
            fb == b@.map_values(|c: char| path_char(c)),
            forall|j: int| 0 <= j < i ==> fa[j] == fb[j],
        decreases a.len() - i,
    {
        assert(fa[i as int] == path_char(a@[i as int]));
        assert(fb[i as int] == path_char(b@[i as int]));
        if folded(a[i]) != folded(b[i]) {
            return false;
        }
        i += 1;
    }
    assert(fa =~= fb);
    true
}

/// Whether two lists hold the same texts.
fn same_texts(a: &Vec<Vec<char>>, b: &Vec<Vec<char>>) -> (res: bool)
    ensures
        res == (views(a@) == views(b@)),
{
    if a.len() != b.len() {
        assert(views(a@).len() != views(b@).len());
        return false;
    }
    let mut i: usize = 0;
    while i < a.len()
        invariant
            i <= a.len() == b.len(),
            forall|j: int| 0 <= j < i ==> views(a@)[j] == views(b@)[j],
        decreases a.len() - i,
    {
        assert(views(a@)[i as int] == a@[i as int]@);
        assert(views(b@)[i as int] == b@[i as int]@);
        if !same_text(&a[i], &b[i]) {
            return false;
        }
        i += 1;
    }
    assert(views(a@) =~= views(b@));
    true
}

/// Whether two paths are the same.
pub fn paths_are_equal(p1: &str, p2: &str, windows: bool) -> (res: bool)
    ensures
        res == same_place(p1@, p2@, windows),
{
    let a = chars_of(p1);
    let b = chars_of(p2);
    if windows {
        return same_folded(&a, &b);
    }
    let rooted_a = a.len() > 0 && a[0] == '/';
    let rooted_b = b.len() > 0 && b[0] == '/';
    rooted_a == rooted_b && same_texts(&names_of(&a), &names_of(&b))
}

/// The path as the platform writes it: with backslashes under Windows.
pub open spec fn normalized(s: Seq<char>, windows: bool) -> Seq<char> {
    s.map_values(
        |c: char|
            if windows && c == '/' {
                '\\'
            } else {
                c
            },
    )
}

/// The path as the platform writes it: with backslashes under Windows.
pub fn normalize_path(s: &str, windows: bool) -> (res: String)
    ensures
        res@ == normalized(s@, windows),
{
    let chars = chars_of(s);
    let mut out: Vec<char> = Vec::new();
    let mut i: usize = 0;
    while i < chars.len()
        invariant
            i <= chars.len(),
            out.len() == i,
            forall|j: int|
                0 <= j < i ==> out@[j] == if windows && chars@[j] == '/' {
                    '\\'
                } else {
                    chars@[j]
                },
        decreases chars.len() - i,
    {
        if windows && chars[i] == '/' {
            out.push('\\');
        } else {
            out.push(chars[i]);
        }
        i += 1;
    }
    string_of(&out)
}

/// Whether paths are the same does not depend on their order, and a path is the
/// same as itself and as what is the same as one that is the same as it.
pub proof fn law_same_place_is_an_equivalence(
    a: Seq<char>,
    b: Seq<char>,
    c: Seq<char>,
    windows: bool,
)
    ensures
        same_place(a, a, windows),
        same_place(a, b, windows) == same_place(b, a, windows),
        same_place(a, b, windows) && same_place(b, c, windows) ==> same_place(a, c, windows),
{
}

/// Writing a path as the platform does leaves it the same path.
pub proof fn law_normalized_path_is_the_same(s: Seq<char>, windows: bool)
    ensures
        same_place(s, normalized(s, windows), windows),
{
    if windows {
        assert(s.map_values(|c: char| path_char(c)) =~= normalized(s, windows).map_values(
            |c: char| path_char(c),
        ));
    } else {
        assert(normalized(s, windows) =~= s);
    }
}

/// What a piece adds to the names of a path.
spec fn counted(piece: Seq<char>, start: bool) -> Seq<Seq<char>> {
    if piece.len() == 0 || (piece == seq!['.'] && !start) {
        Seq::empty()
    } else {
        seq![piece]
    }
}

proof fn lemma_names_push(pieces: Seq<Seq<char>>, piece: Seq<char>, start: bool)
    ensures
        path_names(pieces.push(piece), start) == path_names(pieces, start) + counted(
            piece,
            start && pieces.len() == 0,
        ),
    decreases pieces.len(),
{
    let more = pieces.push(piece);
    if pieces.len() == 0 {
        assert(more.skip(1) =~= Seq::empty());
        assert(path_names(more.skip(1), false) =~= Seq::empty());
    } else {
        assert(more.skip(1) =~= pieces.skip(1).push(piece));
        lemma_names_push(pieces.skip(1), piece, false);
    }
    assert(path_names(more, start) =~= path_names(pieces, start) + counted(
        piece,
        start && pieces.len() == 0,
    ));
}

proof fn lemma_names_concat(a: Seq<Seq<char>>, b: Seq<Seq<char>>)
    ensures
        path_names(a + b, false) == path_names(a, false) + path_names(b, false),
    decreases b.len(),
{
    if b.len() == 0 {
        assert(a + b =~= a);
        assert(path_names(a + b, false) =~= path_names(a, false) + path_names(b, false));
    } else {
        let fewer = b.drop_last();
        lemma_names_concat(a, fewer);
        lemma_names_push(a + fewer, b.last(), false);
        lemma_names_push(fewer, b.last(), false);
        assert((a + fewer).push(b.last()) =~= a + b);
        assert(fewer.push(b.last()) =~= b);
        assert(path_names(a + b, false) =~= path_names(a, false) + path_names(b, false));
    }
}

/// The number of characters in some names.
spec fn size_of_names(names: Seq<Seq<char>>) -> nat
    decreases names.len(),
{
    if names.len() == 0 {
        0
    } else {
        size_of_names(names.drop_last()) + names.last().len()
    }
}

proof fn lemma_size_with(names: Seq<Seq<char>>, piece: Seq<char>, start: bool)
    ensures
        size_of_names(names + counted(piece, start)) == size_of_names(names) + if counted(
            piece,
            start,
        ).len() == 0 {
            0
        } else {
            piece.len()
        },
{
    let all = names + counted(piece, start);
    if counted(piece, start).len() == 0 {
        assert(all =~= names);
    } else {
        assert(all.drop_last() =~= names);
        assert(all.last() == piece);
    }
}

/// The names of a path where the slash alone separates them.
spec fn slash_names(s: Seq<char>) -> Seq<Seq<char>> {
    path_names(split_on(s, '/'), true)
}

proof fn lemma_names_grow(s: Seq<char>, c: char)
    ensures
        size_of_names(slash_names(s)) <= size_of_names(slash_names(s.push(c))),
        c != '/' && c != '.' ==> size_of_names(slash_names(s)) < size_of_names(
            slash_names(s.push(c)),
        ),
{
    lemma_split_push(s, c, '/');
    let pieces = split_on(s, '/');
    if c == '/' {
        lemma_names_push(pieces, Seq::empty(), true);
        assert(slash_names(s.push(c)) =~= slash_names(s));
    } else {
        let before = pieces.drop_last();
        let piece = pieces.last();
        let start = before.len() == 0;
        assert(before.push(piece) =~= pieces);
        lemma_names_push(before, piece, true);
        lemma_names_push(before, piece.push(c), true);
        lemma_size_with(path_names(before, true), piece, start);
        lemma_size_with(path_names(before, true), piece.push(c), start);
        if piece.push(c) == seq!['.'] {
            assert(piece.push(c).last() == '.');
            assert(piece.len() == 0);
        }
    }
}

proof fn lemma_beginning_has_less(s: Seq<char>, k: int)
    requires
        0 <= k <= s.len(),
    ensures
        size_of_names(slash_names(s.take(k))) <= size_of_names(slash_names(s)),
        k < s.len() && s.last() != '/' && s.last() != '.' ==> size_of_names(slash_names(s.take(k)))
            < size_of_names(slash_names(s)),
    decreases s.len(),
{
    if k == s.len() {
        assert(s.take(k) =~= s);
    } else {
        let fewer = s.drop_last();
        lemma_beginning_has_less(fewer, k);
        lemma_names_grow(fewer, s.last());
        assert(fewer.push(s.last()) =~= s);
        assert(fewer.take(k) =~= s.take(k));
    }
}

/// Whether a text is a name, and no separator stands in it.
pub open spec fn is_plain_name(name: Seq<char>, windows: bool) -> bool {
    &&& name.len() > 0
    &&& name != seq!['.']
    &&& name != seq!['.', '.']
    &&& !name.contains('/')
    &&& windows ==> !name.contains('\\')
}

/// Whether a character separates names on the platform.
pub open spec fn separates(c: char, windows: bool) -> bool {
    c == '/' || (windows && c == '\\')
}

proof fn lemma_after_drive(path: Seq<char>, windows: bool)
    ensures
        ({
            let d: int = if windows && drive_of(path) is Some {
                2
            } else {
                0
            };
            let body = after_drive(path, windows);
            &&& body.len() == path.len() - d
            &&& forall|i: int|
                0 <= i < body.len() ==> #[trigger] body[i] == if separates(path[i + d], windows) {
                    '/'
                } else {
                    path[i + d]
                }
        }),
{
}

/// A path made of a directory and a name has the two as its directory and its
/// last name.
pub proof fn law_directory_and_name(dir: Seq<char>, sep: char, name: Seq<char>, windows: bool)
    requires
        separates(sep, windows),
        is_plain_name(name, windows),
        dir.len() > 0,
        !separates(dir.last(), windows),
        dir.last() != '.',
        windows ==> !leads_twice(dir),
        windows && drive_of(dir) is Some ==> dir.len() > 2,
    ensures
        forall|d: Option<Seq<char>>| #[trigger]
            stands_in(dir.push(sep) + name, d, windows) <==> d == Some(dir),
        forall|n: Option<Seq<char>>| #[trigger]
            ends_in(dir.push(sep) + name, n, windows) <==> n == Some(name),
{
    let path = dir.push(sep) + name;
    let parts = parts_of(path, windows);
    let rest = PathParts { names: parts.names.drop_last(), ..parts };
    let short = after_drive(dir, windows);
    let body = after_drive(path, windows);
    assert(drive_of(path) == drive_of(dir)) by {
        if dir.len() < 2 {
            assert(path[1] == sep);
        }
    }
    assert(windows ==> !leads_twice(path)) by {
        if dir.len() < 2 {
            assert(path[0] == dir.last());
        }
    }
    lemma_after_drive(dir, windows);
    lemma_after_drive(path, windows);
    assert(body =~= short.push('/') + name) by {
        assert forall|i: int| 0 <= i < name.len() implies !separates(#[trigger] name[i], windows) by {}
    }
    lemma_split_joined(short, '/', name);
    lemma_split_push(short, '/', '/');
    lemma_names_push(split_on(short, '/'), name, true);
    assert(parts.names =~= slash_names(short).push(name));
    assert(rest.names =~= slash_names(short));
    assert(rest == parts_of(dir, windows));
    assert(path.take(dir.len() as int) =~= dir);
    assert forall|k: int| 0 <= k < dir.len() implies #[trigger] parts_of(path.take(k), windows)
        != rest by {
        let begun = path.take(k);
        lemma_after_drive(begun, windows);
        if windows && drive_of(dir) is Some && k < 2 {
            assert(drive_of(begun) is None);
        } else {
            let d: int = if windows && drive_of(dir) is Some {
                2
            } else {
                0
            };
            assert(drive_of(begun) == drive_of(dir) || !windows) by {
                if k >= 2 {
                    assert(begun[0] == dir[0] && begun[1] == dir[1]);
                }
            }
            assert(after_drive(begun, windows) =~= short.take(k - d));
            assert(short.last() == dir.last());
            lemma_beginning_has_less(short, k - d);
        }
    }
    assert forall|d: Option<Seq<char>>| #[trigger] stands_in(path, d, windows) implies d == Some(
        dir,
    ) by {
        let t = d->0;
        if t.len() > dir.len() {
            assert(parts_of(path.take(dir.len() as int), windows) == rest);
        } else if t.len() < dir.len() {
            assert(parts_of(path.take(t.len() as int), windows) != rest);
        }
    }
    assert(stands_in(path, Some(dir), windows));
}

/// Whether a text is where names start: nothing, a root, a drive, or the root of
/// a drive.
pub open spec fn is_bare(root: Seq<char>, windows: bool) -> bool {
    let body = after_drive(root, windows);
    body.len() == 0 || (body.len() == 1 && body[0] == '/')
}

/// A name that stands at a root, at a drive or alone has that as its directory.
pub proof fn law_name_at_the_start(root: Seq<char>, name: Seq<char>, windows: bool)
    requires
        is_bare(root, windows),
        is_plain_name(name, windows),
        windows ==> drive_of(root + name) == drive_of(root),
    ensures
        forall|d: Option<Seq<char>>| #[trigger]
            stands_in(root + name, d, windows) <==> d == Some(root),
        forall|n: Option<Seq<char>>| #[trigger]
            ends_in(root + name, n, windows) <==> n == Some(name),
{
    let path = root + name;
    let parts = parts_of(path, windows);
    let rest = PathParts { names: parts.names.drop_last(), ..parts };
    let short = after_drive(root, windows);
    let body = after_drive(path, windows);
    lemma_after_drive(root, windows);
    lemma_after_drive(path, windows);
    assert forall|i: int| 0 <= i < name.len() implies !separates(#[trigger] name[i], windows) by {}
    assert(windows ==> !leads_twice(path)) by {
        if root.len() < 2 {
            assert(path[1] == name[1 - root.len()] || path.len() < 2);
        }
    }
    assert(body =~= short + name);
    lemma_split_whole(name, '/');
    let none = Seq::<Seq<char>>::empty();
    assert(path_names(none, true) =~= none);
    lemma_names_push(none, name, true);
    assert(none.push(name) =~= seq![name]);
    let empty = Seq::<char>::empty();
    lemma_split_whole(empty, '/');
    lemma_names_push(none, empty, true);
    assert(none.push(empty) =~= seq![empty]);
    if short.len() == 0 {
        assert(body =~= name);
        assert(short =~= empty);
    } else {
        assert(short =~= empty.push('/'));
        assert(body =~= empty.push('/') + name);
        lemma_split_joined(empty, '/', name);
        lemma_names_push(seq![empty], name, true);
        lemma_split_push(empty, '/', '/');
        lemma_names_push(seq![empty], empty, true);
    }
    assert(parts.names =~= seq![name]);
    assert(rest.names =~= none);
    assert(parts_of(root, windows).names =~= none);
    assert(body[0] == '/' <==> short.len() > 0) by {
        if short.len() == 0 {
            assert(body[0] == name[0]);
        }
    }
    assert(rest == parts_of(root, windows));
    assert(path.take(root.len() as int) =~= root);
    assert forall|k: int| 0 <= k < root.len() implies #[trigger] parts_of(path.take(k), windows)
        != rest by {
        let begun = path.take(k);
        lemma_after_drive(begun, windows);
        if k >= 2 {
            assert(begun[0] == root[0] && begun[1] == root[1]);
        }
    }
    assert forall|d: Option<Seq<char>>| #[trigger] stands_in(path, d, windows) implies d == Some(
        root,
    ) by {
        let t = d->0;
        if t.len() > root.len() {
            assert(parts_of(path.take(root.len() as int), windows) == rest);
        } else if t.len() < root.len() {
            assert(parts_of(path.take(t.len() as int), windows) != rest);
        }
    }
    assert(stands_in(path, Some(root), windows));
}

/// A plain path has the same parts on all platforms.
pub proof fn law_plain_path_has_the_same_parts(path: Seq<char>)
    requires
        plain_path(path),
    ensures
        parts_of(path, true) == parts_of(path, false),
{
    lemma_after_drive(path, true);
    assert(drive_of(path) is None) by {
        if path.len() >= 2 {
            assert(path.contains(path[1]));
        }
    }
    assert forall|i: int| 0 <= i < path.len() implies path[i] != '\\' by {}
    assert(after_drive(path, true) =~= path);
}

/// A path as it is compared under Windows.
spec fn folded_path(path: Seq<char>) -> Seq<char> {
    path.map_values(|c: char| path_char(c))
}

/// The pieces between separators of either kind, given those between slashes.
spec fn smaller_pieces(pieces: Seq<Seq<char>>) -> Seq<Seq<char>>
    decreases pieces.len(),
{
    if pieces.len() == 0 {
        Seq::empty()
    } else {
        smaller_pieces(pieces.drop_last()) + split_on(folded_path(pieces.last()), '\\')
    }
}

proof fn lemma_smaller_pieces(path: Seq<char>)
    ensures
        split_on(folded_path(path), '\\') == smaller_pieces(split_on(path, '/')),
    decreases path.len(),
{
    let sep = '\\';
    let none = Seq::<Seq<char>>::empty();
    let empty = Seq::<char>::empty();
    lemma_split_whole(empty, sep);
    lemma_split_whole(empty, '/');
    assert(folded_path(empty) =~= empty);
    assert(smaller_pieces(none) =~= none);
    if path.len() == 0 {
        assert(path =~= empty);
        assert(seq![empty].drop_last() =~= none);
        assert(none + seq![empty] =~= seq![empty]);
    } else {
        let fewer = path.drop_last();
        let c = path.last();
        lemma_smaller_pieces(fewer);
        assert(fewer.push(c) =~= path);
        assert(folded_path(fewer).push(path_char(c)) =~= folded_path(path));
        lemma_split_push(fewer, c, '/');
        lemma_split_push(folded_path(fewer), path_char(c), sep);
        let pieces = split_on(fewer, '/');
        let whole = split_on(folded_path(fewer), sep);
        if c == '/' {
            assert(pieces.push(empty).drop_last() =~= pieces);
            assert(whole.push(empty) =~= whole + seq![empty]);
        } else {
            let before = pieces.drop_last();
            let piece = pieces.last();
            let longer = piece.push(c);
            assert(before.push(longer).drop_last() =~= before);
            assert(folded_path(piece).push(path_char(c)) =~= folded_path(longer));
            lemma_split_push(folded_path(piece), path_char(c), sep);
            assert(whole == smaller_pieces(before) + split_on(folded_path(piece), sep));
            assert(split_on(folded_path(path), sep) =~= smaller_pieces(before) + split_on(
                folded_path(longer),
                sep,
            ));
        }
    }
}

proof fn lemma_smaller_pieces_of_names(pieces: Seq<Seq<char>>, start: bool)
    ensures
        path_names(smaller_pieces(pieces), false) == path_names(
            smaller_pieces(path_names(pieces, start)),
            false,
        ),
    decreases pieces.len(),
{
    if pieces.len() > 0 {
        let before = pieces.drop_last();
        let piece = pieces.last();
        let kept = path_names(before, start);
        let first = start && before.len() == 0;
        let inner = split_on(folded_path(piece), '\\');
        lemma_smaller_pieces_of_names(before, start);
        lemma_names_push(before, piece, start);
        assert(before.push(piece) =~= pieces);
        lemma_names_concat(smaller_pieces(before), inner);
        if counted(piece, first).len() == 0 {
            assert(kept + counted(piece, first) =~= kept);
            lemma_split_whole(folded_path(piece), '\\');
            assert(folded_path(piece) =~= piece);
            let none = Seq::<Seq<char>>::empty();
            lemma_names_push(none, piece, false);
            assert(none.push(piece) =~= seq![piece]);
            assert(path_names(inner, false) =~= none);
            assert(path_names(smaller_pieces(before), false) + none =~= path_names(
                smaller_pieces(before),
                false,
            ));
        } else {
            assert(kept + counted(piece, first) =~= kept.push(piece));
            assert(kept.push(piece).drop_last() =~= kept);
            lemma_names_concat(smaller_pieces(kept), inner);
        }
    } else {
        assert(path_names(pieces, start) =~= pieces);
    }
}

/// Paths that are the same have the same names, but for the case of letters.
pub proof fn law_same_place_has_same_names(a: Seq<char>, b: Seq<char>, windows: bool)
    requires
        same_place(a, b, windows),
    ensures
        written_names(a) == written_names(b),
{
    if !windows {
        lemma_smaller_pieces(a);
        lemma_smaller_pieces(b);
        lemma_smaller_pieces_of_names(split_on(a, '/'), true);
        lemma_smaller_pieces_of_names(split_on(b, '/'), true);
    }
}

/// Text that stands in front belongs to the first piece.
proof fn lemma_split_in_front(front: Seq<char>, s: Seq<char>, sep: char)
    requires
        !front.contains(sep),
    ensures
        split_on(s, sep).len() > 0,
        split_on(s, sep)[0] == s.take(until_char(s, sep) as int),
        split_on(front + s, sep) == seq![front + split_on(s, sep)[0]] + split_on(s, sep).skip(1),
{
    let k = until_char(s, sep) as int;
    let all = front + s;
    lemma_until_char_bounds(s, sep);
    lemma_until_char_bounds(all, sep);
    let n = until_char(all, sep) as int;
    assert(n == front.len() + k) by {
        assert forall|i: int| 0 <= i < front.len() implies all[i] != sep by {
            assert(front.contains(front[i]));
        }
        if n < front.len() + k {
            assert(all[n] == s[n - front.len()]);
        }
        if n > front.len() + k {
            assert(all[front.len() + k] == s[k]);
        }
    }
    if k < s.len() {
        let rest = split_on(s.skip(k + 1), sep);
        assert(all.take(n) =~= front + s.take(k));
        assert(all.skip(n + 1) =~= s.skip(k + 1));
        assert((seq![s.take(k)] + rest).skip(1) =~= rest);
    } else {
        assert(s.take(k) =~= s);
        assert(seq![s].skip(1) =~= Seq::empty());
        assert(split_on(all, sep) =~= seq![front + s] + split_on(s, sep).skip(1));
    }
}

/// The names that stand in a path with a drive, given what follows the drive.
proof fn lemma_names_after_drive(path: Seq<char>)
    requires
        drive_of(path) is Some,
    ensures
        ({
            let body = after_drive(path, true);
            let inner = split_on(folded_path(body), '\\');
            let names = slash_names(body);
            let first = if body.len() == 0 || body[0] == '/' {
                Seq::empty()
            } else {
                folded_path(names[0])
            };
            &&& body.len() > 0 && body[0] != '/' ==> names.len() > 0
            &&& body.len() == 0 ==> names.len() == 0
            &&& written_names(body) == counted(first, false) + path_names(inner.skip(1), false)
            &&& written_names(path) == seq![seq![drive_of(path)->0, ':'] + first] + path_names(
                inner.skip(1),
                false,
            )
        }),
{
    let body = after_drive(path, true);
    let sep = '\\';
    let front = seq![drive_of(path)->0, ':'];
    let folded = folded_path(body);
    let inner = split_on(folded, sep);
    let pieces = split_on(body, '/');
    lemma_after_drive(path, true);
    assert(folded_path(path) =~= front + folded);
    lemma_split_in_front(front, folded, sep);
    lemma_split_in_front(Seq::empty(), body, '/');
    let k = until_char(body, '/') as int;
    lemma_until_char_bounds(body, '/');
    lemma_until_char_bounds(folded, sep);
    let n = until_char(folded, sep) as int;
    assert(n == k) by {
        if n < k {
            assert(folded[n] == path_char(body[n]));
        }
        if n > k {
            assert(folded[k] == path_char(body[k]));
        }
    }
    assert(inner[0] =~= folded_path(pieces[0]));
    let joined = seq![front + inner[0]] + inner.skip(1);
    assert(joined.skip(1) =~= inner.skip(1));
    assert(joined[0].len() >= 2 && seq!['.'].len() == 1);
    assert(counted(inner[0], false) + path_names(inner.skip(1), false) =~= path_names(
        inner,
        false,
    ));
    if body.len() == 0 || body[0] == '/' {
        assert(k == 0);
        assert(inner[0] =~= Seq::empty());
        if body.len() == 0 {
            assert(pieces =~= seq![body]);
            assert(pieces.skip(1) =~= Seq::empty());
        }
    } else {
        assert(k > 0);
        assert(slash_names(body)[0] == pieces[0]);
    }
}

/// Paths with the same parts have the same names, but for the case of letters.
pub proof fn law_equal_parts_have_the_same_names(a: Seq<char>, b: Seq<char>, windows: bool)
    requires
        parts_of(a, windows) == parts_of(b, windows),
    ensures
        written_names(a) == written_names(b),
{
    if windows {
        let body_a = after_drive(a, true);
        let body_b = after_drive(b, true);
        law_same_place_has_same_names(body_a, body_b, false);
        lemma_after_drive(a, true);
        lemma_after_drive(b, true);
        if drive_of(a) is Some {
            lemma_names_after_drive(a);
            lemma_names_after_drive(b);
            let rest_a = path_names(split_on(folded_path(body_a), '\\').skip(1), false);
            let rest_b = path_names(split_on(folded_path(body_b), '\\').skip(1), false);
            let first = if body_a.len() == 0 || body_a[0] == '/' {
                Seq::empty()
            } else {
                folded_path(slash_names(body_a)[0])
            };
            let n = counted(first, false).len() as int;
            assert(rest_a =~= written_names(body_a).skip(n));
            assert(rest_b =~= written_names(body_b).skip(n));
        } else {
            assert(folded_path(a) =~= folded_path(body_a));
            assert(folded_path(b) =~= folded_path(body_b));
        }
    } else {
        law_same_place_has_same_names(a, b, false);
    }
}

/// Whether some texts are names as they stand in a path where the slash separates
/// them.
pub open spec fn are_names(names: Seq<Seq<char>>) -> bool {
    forall|i: int|
        0 <= i < names.len() ==> (#[trigger] names[i]).len() > 0 && names[i] != seq!['.']
            && !names[i].contains('/')
}

/// A path that goes through some names, from the root or not.
pub open spec fn written_path(names: Seq<Seq<char>>, rooted: bool) -> Seq<char>
    decreases names.len(),
{
    if names.len() == 0 {
        if rooted {
            seq!['/']
        } else {
            Seq::empty()
        }
    } else if names.len() == 1 {
        if rooted {
            seq!['/'] + names[0]
        } else {
            names[0]
        }
    } else {
        written_path(names.drop_last(), rooted).push('/') + names.last()
    }
}

/// A path is taken apart into the names that it was made of.
pub proof fn law_path_reads_back(names: Seq<Seq<char>>, rooted: bool)
    requires
        are_names(names),
    ensures
        parts_of(written_path(names, rooted), false) == (PathParts { drive: None, rooted, names }),
    decreases names.len(),
{
    let path = written_path(names, rooted);
    let none = Seq::<Seq<char>>::empty();
    let empty = Seq::<char>::empty();
    assert(path_names(none, true) =~= none);
    lemma_split_whole(empty, '/');
    lemma_names_push(none, empty, true);
    assert(none.push(empty) =~= seq![empty]);
    if names.len() == 0 {
        if rooted {
            lemma_split_push(empty, '/', '/');
            assert(empty.push('/') =~= seq!['/']);
            lemma_names_push(seq![empty], empty, true);
        }
        assert(parts_of(path, false).names =~= names);
    } else if names.len() == 1 {
        let name = names[0];
        assert(!name.contains('/'));
        lemma_split_whole(name, '/');
        lemma_names_push(none, name, true);
        assert(none.push(name) =~= seq![name]);
        if rooted {
            lemma_split_joined(empty, '/', name);
            assert(empty.push('/') + name =~= path);
            lemma_names_push(seq![empty], name, true);
        } else {
            assert(name[0] != '/') by {
                assert(name.contains(name[0]));
            }
        }
        assert(parts_of(path, false).names =~= names);
    } else {
        let fewer = names.drop_last();
        let last = names.last();
        let head = written_path(fewer, rooted);
        assert(names[names.len() - 1].len() > 0);
        assert forall|i: int| 0 <= i < fewer.len() implies (#[trigger] fewer[i]).len() > 0
            && fewer[i] != seq!['.'] && !fewer[i].contains('/') by {
            assert(fewer[i] == names[i]);
        }
        law_path_reads_back(fewer, rooted);
        assert(head.len() > 0) by {
            if head.len() == 0 {
                assert(head =~= empty);
                assert(parts_of(head, false).names =~= none);
            }
        }
        lemma_split_joined(head, '/', last);
        lemma_split_push(head, '/', '/');
        lemma_names_push(split_on(head, '/'), last, true);
        assert(path[0] == head[0]);
        assert(parts_of(path, false).names =~= fewer.push(last));
        assert(fewer.push(last) =~= names);
    }
}

/// Paths through different names, or of which one starts at the root and the other
/// does not, are different; names are told apart by every character.
pub proof fn law_different_names_are_different_paths(
    a: Seq<Seq<char>>,
    b: Seq<Seq<char>>,
    rooted_a: bool,
    rooted_b: bool,
)
    requires
        are_names(a),
        are_names(b),
    ensures
        same_place(written_path(a, rooted_a), written_path(b, rooted_b), false) <==> a == b
            && rooted_a == rooted_b,
{
    law_path_reads_back(a, rooted_a);
    law_path_reads_back(b, rooted_b);
}

/// A separator more, between names or at the end, and a name `.` that the path does
/// not start with make no difference.
pub proof fn law_needless_separators_make_no_difference(path: Seq<char>, name: Seq<char>)
    requires
        path.len() > 0,
        !name.contains('/'),
    ensures
        same_place(path.push('/').push('/') + name, path.push('/') + name, false),
        same_place(path.push('/').push('.').push('/') + name, path.push('/') + name, false),
        same_place(path.push('/'), path, false),
        same_place(path.push('/').push('.'), path, false),
{
    let pieces = split_on(path, '/');
    let empty = Seq::<char>::empty();
    let dot = seq!['.'];
    lemma_split_push(path, '/', '/');
    lemma_split_push(path.push('/'), '/', '/');
    lemma_split_joined(path, '/', name);
    lemma_split_joined(path.push('/'), '/', name);
    assert forall|i: int| 0 <= i < dot.len() implies dot[i] != '/' by {}
    lemma_split_joined(path, '/', dot);
    let pointed = path.push('/').push('.');
    assert(path.push('/') + dot =~= pointed);
    lemma_split_push(pointed, '/', '/');
    lemma_split_joined(pointed, '/', name);
    lemma_names_push(pieces, empty, true);
    lemma_names_push(pieces, dot, true);
    lemma_names_push(pieces, name, true);
    lemma_names_push(pieces.push(empty), name, true);
    lemma_names_push(pieces.push(dot), name, true);
    let names = path_names(pieces, true);
    assert(names + counted(empty, false) =~= names);
    assert(names + counted(dot, false) =~= names);
}

/// Under Windows paths are the same exactly if they are as long and each character is
/// the same, but for the case of ASCII letters and the kind of separator.
pub proof fn law_windows_paths_are_compared_by_character(a: Seq<char>, b: Seq<char>)
    ensures
        same_place(a, b, true) <==> a.len() == b.len() && forall|i: int|
            0 <= i < a.len() ==> same_path_char(#[trigger] a[i], b[i]),
{
    let fa = a.map_values(|c: char| path_char(c));
    let fb = b.map_values(|c: char| path_char(c));
    if same_place(a, b, true) {
        assert(fa.len() == fb.len());
        assert forall|i: int| 0 <= i < a.len() implies same_path_char(#[trigger] a[i], b[i]) by {
            assert(fa[i] == path_char(a[i]) && fb[i] == path_char(b[i]));
        }
    }
    if a.len() == b.len() && forall|i: int|
        0 <= i < a.len() ==> same_path_char(#[trigger] a[i], b[i]) {
        assert forall|i: int| 0 <= i < fa.len() implies fa[i] == fb[i] by {
            assert(same_path_char(a[i], b[i]));
        }
        assert(fa =~= fb);
    }
}

/// Whether two characters are the same in a path of Windows.
pub open spec fn same_path_char(c: char, d: char) -> bool {
    ||| c == d
    ||| is_separator(c) && is_separator(d)
    ||| 'A' <= c <= 'Z' && d as int == c as int + 32
    ||| 'A' <= d <= 'Z' && c as int == d as int + 32
}

/// Writing a path as the platform does turns slashes into backslashes under Windows
/// and changes nothing else.
pub proof fn law_only_slashes_are_rewritten(path: Seq<char>, windows: bool)
    ensures
        normalized(path, windows).len() == path.len(),
        !windows ==> normalized(path, windows) == path,
        forall|i: int|
            0 <= i < path.len() ==> #[trigger] normalized(path, windows)[i] == if windows && path[i]
                == '/' {
                '\\'
            } else {
                path[i]
            },
{
    assert(normalized(path, false) =~= path);
}

/// What is taken for equal has the same names; a path is equal to itself; and the
/// answer is that of one of the two ways to take paths apart.
pub proof fn law_equality_is_that_of_the_parts(a: Seq<char>, b: Seq<char>, equal: bool)
    requires
        are_equal(a, b, equal),
    ensures
        a == b ==> equal,
        equal ==> written_names(a) == written_names(b),
        !leads_twice(a) && !leads_twice(b) ==> equal == (parts_of(a, false) == parts_of(b, false))
            || equal == (parts_of(a, true) == parts_of(b, true)),
        plain_path(a) && plain_path(b) ==> equal == (parts_of(a, false) == parts_of(b, false)),
{
}

/// A drive is a letter with a colon after it, in front; its case does not matter, and
/// what follows it is taken apart as if it stood alone, with both separators.
pub proof fn law_drive_stands_in_front(letter: char, rest: Seq<char>)
    requires
        'a' <= letter <= 'z' || 'A' <= letter <= 'Z',
    ensures
        parts_of(seq![letter, ':'] + rest, true).drive is Some,
        parts_of(seq![letter, ':'] + rest, true).drive->0 as int == if letter <= 'Z' {
            letter as int + 32
        } else {
            letter as int
        },
        parts_of(seq![letter, ':'] + rest, true).rooted == (rest.len() > 0 && is_separator(
            rest[0],
        )),
        parts_of(rest, true).drive is None ==> parts_of(seq![letter, ':'] + rest, true).names
            == parts_of(rest, true).names,
        parts_of(seq![letter, ':'] + rest, false).drive is None,
{
    let path = seq![letter, ':'] + rest;
    assert(path[0] == letter && path[1] == ':');
    lemma_after_drive(path, true);
    lemma_after_drive(rest, true);
    if rest.len() > 0 {
        assert(path[2] == rest[0]);
    }
    if drive_of(rest) is None {
        assert(after_drive(path, true) =~= after_drive(rest, true));
    }
}

/// Under Windows the two separators do the same: a path means the same with one in
/// place of the other.
pub proof fn law_separators_do_the_same_under_windows(path: Seq<char>)
    ensures
        parts_of(normalized(path, true), true) == parts_of(path, true),
{
    let other = normalized(path, true);
    lemma_after_drive(path, true);
    lemma_after_drive(other, true);
    assert(drive_of(other) == drive_of(path)) by {
        if path.len() >= 2 {
            assert(path_char(other[0]) == path_char(path[0]));
        }
    }
    assert(after_drive(other, true) =~= after_drive(path, true));
}

} // verus!
