//! Paths as text.
//!
//! A path has the style of a system: its components stand between slashes on Unix and between
//! backslashes on Windows, where a path may begin with a prefix: a drive (`C:`), a network share
//! (`\\server\share`), a device (`\\.\COM1`), or one of the verbatim prefixes (`\\?\name`, `\\?\C:`,
//! `\\?\UNC\server\share`). A path that begins with a separator, behind its prefix, starts at the root,
//! and so does every path with a share or a device. Repeated separators, one at the end and `.` inside
//! a path have no meaning, but for `.` behind a verbatim prefix; `.` at the beginning of a path is a
//! component, and so is `..`.
//!
//! Windows takes slashes for backslashes, except in a verbatim path. A text with slashes is a path here
//! once it is made canonical, with backslashes between its components.

use vstd::prelude::*;
use vstd::string::StringExecFns;

use crate::text::{
    ascii_lower, char_texts, chars_eq, chars_of, join, replace, small_letter, split, split_chars,
};

verus! {

broadcast use vstd::string::group_string_axioms;

// ----- Styles -----

/// How a system writes its paths.
#[derive(Clone, Copy, Debug, PartialEq, Eq, Structural)]
pub enum PathStyle {
    Unix,
    Windows,
}

impl PathStyle {
    /// What stands between the components of a path.
    pub open spec fn separator(self) -> char {
        match self {
            PathStyle::Unix => '/',
            PathStyle::Windows => '\\',
        }
    }

    /// What stands between the components of a path.
    pub fn sep(&self) -> (r: char)
        ensures
            r == self.separator(),
    {
        match self {
            PathStyle::Unix => '/',
            PathStyle::Windows => '\\',
        }
    }
}

/// Whether a character is an ASCII letter.
pub open spec fn is_letter(c: char) -> bool {
    'a' <= ascii_lower(c) <= 'z'
}

/// Whether a drive, a letter and a colon, stands in a text at `at`.
pub open spec fn drive_at(p: Seq<char>, at: int) -> bool {
    at + 2 <= p.len() && is_letter(p[at]) && p[at + 1] == ':'
}

/// Whether `UNC` stands in a text behind the first four characters.
pub open spec fn unc_at_four(p: Seq<char>) -> bool {
    p.len() >= 8 && p[4] == 'U' && p[5] == 'N' && p[6] == 'C'
}

/// Whether a path is verbatim, and so has slashes in its names.
pub open spec fn is_verbatim(p: Seq<char>) -> bool {
    p.len() >= 4 && p[0] == '\\' && p[1] == '\\' && p[2] == '?' && p[3] == '\\'
}

/// A verbatim text as a path: the separator behind its prefix may have been a slash.
pub open spec fn canonical_verbatim(p: Seq<char>) -> Seq<char> {
    if unc_at_four(p) && p[7] == '/' {
        p.update(7, '\\')
    } else if drive_at(p, 4) && p.len() > 6 && p[6] == '/' {
        p.update(6, '\\')
    } else {
        p
    }
}

/// Whether a text is `//?`, to which a share can still be joined.
pub open spec fn is_bare_question(p: Seq<char>) -> bool {
    p.len() == 3 && p[0] == '/' && (p[1] == '/' || p[1] == '\\') && p[2] == '?'
}

/// A text as a path with one kind of separator. A text such as `//?/x` is not verbatim: it is the
/// share `x` of a server `?`, and its first slash stays, to tell the two apart. Where it has no share
/// one of the separators at its start, which have the same meaning as one, is left out.
pub open spec fn canonical(style: PathStyle, p: Seq<char>) -> Seq<char> {
    let q = replace(p, '/', '\\');
    if style == PathStyle::Unix {
        p
    } else if is_verbatim(p) {
        canonical_verbatim(p)
    } else if is_bare_question(p) {
        q.update(0, '/')
    } else if !is_verbatim(q) {
        q
    } else if q.len() > 4 && q[4] != '\\' {
        q.update(0, '/')
    } else {
        q.skip(1)
    }
}

/// A text as a path with one kind of separator.
pub fn canonical_path(style: PathStyle, p: &str) -> (r: String)
    ensures
        r@ == canonical(style, p@),
{
    if style == PathStyle::Unix {
        return p.to_owned();
    }
    let mut chars = chars_of(p);
    let mut out = String::new();
    if verbatim(&chars) {
        if chars.len() >= 8 && chars[4] == 'U' && chars[5] == 'N' && chars[6] == 'C' && chars[7] == '/' {
            chars.set(7, '\\');
        } else if has_drive_at(&chars, 4) && chars.len() > 6 && chars[6] == '/' {
            chars.set(6, '\\');
        }
        push_chars(&mut out, &chars);
        assert(out@ =~= canonical(style, p@));
        return out;
    }
    let bare = chars.len() == 3 && chars[0] == '/' && (chars[1] == '/' || chars[1] == '\\') && chars[2] == '?';
    let mut i: usize = 0;
    while i < chars.len()
        invariant
            i <= chars@.len() == p@.len(),
            forall|k: int| 0 <= k < i ==> #[trigger] chars@[k] == (if p@[k] == '/' {
                '\\'
            } else {
                p@[k]
            }),
            forall|k: int| i <= k < chars@.len() ==> #[trigger] chars@[k] == p@[k],
        decreases chars@.len() - i,
    {
        if chars[i] == '/' {
            chars.set(i, '\\');
        }
        i = i + 1;
    }
    assert(chars@ =~= replace(p@, '/', '\\'));
    if bare {
        chars.set(0, '/');
    } else if verbatim(&chars) {
        if chars.len() > 4 && chars[4] != '\\' {
            chars.set(0, '/');
        } else {
            chars = chars_from(&chars, 1);
        }
    }
    push_chars(&mut out, &chars);
    assert(out@ =~= canonical(style, p@));
    out
}

// ----- Prefixes -----

/// What a path may begin with.
#[derive(Clone, Copy, Debug, PartialEq, Eq, Structural)]
pub enum Prefix {
    Absent,
    Drive,
    Share,
    Device,
    Verbatim,
    VerbatimDrive,
    VerbatimShare,
}

/// Where a backslash first stands in a text at or after `from`, or the length of the text.
pub open spec fn next_backslash(p: Seq<char>, from: int) -> int
    decreases p.len() - from,
{
    if from >= p.len() {
        p.len() as int
    } else if p[from] == '\\' {
        from
    } else {
        next_backslash(p, from + 1)
    }
}

/// Whether a text begins with two separators.
pub open spec fn begins_with_two(p: Seq<char>) -> bool {
    p.len() >= 2 && (p[0] == '\\' || p[0] == '/') && p[1] == '\\'
}

/// Whether a server and its share, neither of them empty, stand in a text behind the first two
/// characters.
pub open spec fn names_share(p: Seq<char>) -> bool {
    let e = next_backslash(p, 2);
    2 < e < p.len() && next_backslash(p, e + 1) > e + 1
}

/// What a path begins with.
#[verifier::opaque]
pub open spec fn prefix(style: PathStyle, p: Seq<char>) -> Prefix {
    if style == PathStyle::Unix {
        Prefix::Absent
    } else if is_verbatim(p) {
        if unc_at_four(p) && p[7] == '\\' {
            Prefix::VerbatimShare
        } else if drive_at(p, 4) && (p.len() > 6 ==> p[6] == '\\') {
            Prefix::VerbatimDrive
        } else {
            Prefix::Verbatim
        }
    } else if begins_with_two(p) && p.len() >= 4 && p[2] == '.' && p[3] == '\\' {
        Prefix::Device
    } else if begins_with_two(p) && names_share(p) {
        Prefix::Share
    } else if drive_at(p, 0) {
        Prefix::Drive
    } else {
        Prefix::Absent
    }
}

/// The length of what a path begins with.
#[verifier::opaque]
pub open spec fn prefix_len(style: PathStyle, p: Seq<char>) -> int {
    match prefix(style, p) {
        Prefix::Absent => 0,
        Prefix::Drive => 2,
        Prefix::Share => next_backslash(p, next_backslash(p, 2) + 1),
        Prefix::Device => next_backslash(p, 4),
        Prefix::Verbatim => next_backslash(p, 4),
        Prefix::VerbatimDrive => 6,
        Prefix::VerbatimShare => {
            let e = next_backslash(p, 8);
            if next_backslash(p, e + 1) > e + 1 {
                next_backslash(p, e + 1)
            } else {
                e
            }
        },
    }
}

/// The text of what a path begins with.
pub open spec fn prefix_text(style: PathStyle, p: Seq<char>) -> Seq<char> {
    p.take(prefix_len(style, p))
}

/// A path behind its prefix.
pub open spec fn below_prefix(style: PathStyle, p: Seq<char>) -> Seq<char> {
    p.skip(prefix_len(style, p))
}

/// Whether a path begins with a verbatim prefix.
pub open spec fn has_verbatim_prefix(style: PathStyle, p: Seq<char>) -> bool {
    style == PathStyle::Windows && is_verbatim(p)
}

/// What tells the prefix of a path from others, which no name can be. Drives have small letters.
#[verifier::opaque]
pub open spec fn prefix_key(style: PathStyle, p: Seq<char>) -> Seq<char> {
    let n = prefix_len(style, p);
    match prefix(style, p) {
        Prefix::Absent => Seq::empty(),
        Prefix::Drive => seq!['\\', 'd', ascii_lower(p[0])],
        Prefix::Share => seq!['\\', 's'] + p.subrange(2, n),
        Prefix::Device => seq!['\\', 'n'] + p.subrange(4, n),
        Prefix::Verbatim => seq!['\\', 'v'] + p.subrange(4, n),
        Prefix::VerbatimDrive => seq!['\\', 'w', ascii_lower(p[4])],
        Prefix::VerbatimShare => seq!['\\', 'x'] + p.subrange(8, n),
    }
}

/// The prefix of a path as a component, if it has one.
pub open spec fn prefix_component(style: PathStyle, p: Seq<char>) -> Seq<Seq<char>> {
    if prefix(style, p) == Prefix::Absent {
        Seq::empty()
    } else {
        seq![prefix_key(style, p)]
    }
}

// ----- Components -----

/// Whether a piece between two separators is a component, in a verbatim path or in another.
pub open spec fn is_component(verbatim: bool, piece: Seq<char>) -> bool {
    piece.len() > 0 && (verbatim || piece != seq!['.'])
}

/// The pieces that are components.
pub open spec fn components_among(verbatim: bool, pieces: Seq<Seq<char>>) -> Seq<Seq<char>>
    decreases pieces.len(),
{
    if pieces.len() == 0 {
        Seq::empty()
    } else {
        let before = components_among(verbatim, pieces.drop_last());
        if is_component(verbatim, pieces.last()) {
            before.push(pieces.last())
        } else {
            before
        }
    }
}

/// Whether a path without a prefix starts at the root.
pub open spec fn is_rooted(style: PathStyle, p: Seq<char>) -> bool {
    p.len() > 0 && p[0] == style.separator()
}

/// Whether a path without a prefix begins with the component `.`.
pub open spec fn begins_with_dot(style: PathStyle, p: Seq<char>) -> bool {
    p.len() > 0 && p[0] == '.' && (p.len() > 1 ==> p[1] == style.separator())
}

/// The text before the other components of a path, behind its prefix: the root, `.` or nothing.
pub open spec fn lead(style: PathStyle, p: Seq<char>) -> Seq<char> {
    let rest = below_prefix(style, p);
    if is_rooted(style, rest) {
        seq![style.separator()]
    } else if prefix(style, p) == Prefix::Absent && begins_with_dot(style, rest) {
        seq!['.']
    } else {
        Seq::empty()
    }
}

/// The component before the other components of a path, behind its prefix. A path with a share or a
/// device starts at the root even where nothing follows.
pub open spec fn lead_component(style: PathStyle, p: Seq<char>) -> Seq<Seq<char>> {
    if lead(style, p).len() > 0 {
        seq![lead(style, p)]
    } else if prefix(style, p) == Prefix::Share || prefix(style, p) == Prefix::Device {
        seq![seq![style.separator()]]
    } else {
        Seq::empty()
    }
}

/// The components of a path behind its prefix and what stands before the others.
pub open spec fn body(style: PathStyle, p: Seq<char>) -> Seq<Seq<char>> {
    components_among(
        has_verbatim_prefix(style, p),
        split(below_prefix(style, p), style.separator()),
    )
}

/// The components of a path, in order. The root is a component.
pub open spec fn components(style: PathStyle, p: Seq<char>) -> Seq<Seq<char>> {
    prefix_component(style, p) + lead_component(style, p) + body(style, p)
}

/// Names that are walked from `at`, one after the other, where `..` leads back from a name.
pub open spec fn walk(at: Seq<Seq<char>>, names: Seq<Seq<char>>) -> Seq<Seq<char>>
    decreases names.len(),
{
    if names.len() == 0 {
        at
    } else {
        let here = walk(at, names.drop_last());
        if names.last() != seq!['.', '.'] {
            here.push(names.last())
        } else if here.len() > 0 && here.last() != seq!['.', '.'] && here.last() != seq!['.'] {
            here.drop_last()
        } else {
            here
        }
    }
}

/// The path `b` as seen from the verbatim path `a`. It is made anew of its components, since `.` and
/// `..` have no other meaning in a verbatim path.
pub open spec fn join_verbatim(style: PathStyle, a: Seq<char>, b: Seq<char>) -> Seq<char> {
    let sep = style.separator();
    let names = walk(
        if is_rooted(style, b) {
            Seq::empty()
        } else {
            body(style, a)
        },
        components_among(false, split(b, sep)),
    );
    let top = if is_rooted(style, b) || is_rooted(style, below_prefix(style, a)) || names.len() > 0 {
        seq![sep]
    } else {
        Seq::empty()
    };
    prefix_text(style, a) + top + join(names, sep)
}

/// The path `b` as seen from `a`. A path with a prefix is seen as it is from everywhere, and one that
/// starts at the root is seen behind the same prefix.
pub open spec fn join_path(style: PathStyle, a: Seq<char>, b: Seq<char>) -> Seq<char> {
    if prefix(style, b) != Prefix::Absent {
        b
    } else if has_verbatim_prefix(style, a) && b.len() > 0 {
        join_verbatim(style, a, b)
    } else if is_rooted(style, b) {
        prefix_text(style, a) + b
    } else if a.len() == 0 || a.last() == style.separator() || is_bare_drive(style, a) {
        a + b
    } else {
        a.push(style.separator()) + b
    }
}

/// Whether a path is a drive and nothing else.
pub open spec fn is_bare_drive(style: PathStyle, p: Seq<char>) -> bool {
    prefix(style, p) == Prefix::Drive && p.len() == 2
}

/// Whether `p` is `base` or lies below it, component by component.
pub open spec fn starts_with(style: PathStyle, p: Seq<char>, base: Seq<char>) -> bool {
    components(style, base).is_prefix_of(components(style, p))
}

/// The index of the last component among the first `n` pieces, or -1.
pub open spec fn last_component(verbatim: bool, pieces: Seq<Seq<char>>, n: int) -> int
    decreases n,
{
    if n <= 0 {
        -1
    } else if is_component(verbatim, pieces[n - 1]) {
        n - 1
    } else {
        last_component(verbatim, pieces, n - 1)
    }
}

/// The index of the component that has `m` components before it from piece `i` on, or the number of
/// pieces.
pub open spec fn nth_component(verbatim: bool, pieces: Seq<Seq<char>>, m: int, i: int) -> int
    decreases pieces.len() - i,
{
    if i >= pieces.len() {
        pieces.len() as int
    } else if !is_component(verbatim, pieces[i]) {
        nth_component(verbatim, pieces, m, i + 1)
    } else if m <= 0 {
        i
    } else {
        nth_component(verbatim, pieces, m - 1, i + 1)
    }
}

/// A path behind its prefix up to the end of its last component.
pub open spec fn trimmed_rest(style: PathStyle, p: Seq<char>) -> Seq<char> {
    let pieces = split(below_prefix(style, p), style.separator());
    let to = last_component(has_verbatim_prefix(style, p), pieces, pieces.len() as int) + 1;
    if to == 0 {
        lead(style, p)
    } else {
        join(pieces.take(to), style.separator())
    }
}

/// The text of `p` from behind its first `n` components to the end of its last.
pub open spec fn without_first(style: PathStyle, p: Seq<char>, n: int) -> Seq<char> {
    let v = has_verbatim_prefix(style, p);
    let pieces = split(below_prefix(style, p), style.separator());
    let to = last_component(v, pieces, pieces.len() as int) + 1;
    let before = prefix_component(style, p).len() + lead_component(style, p).len();
    if n <= 0 {
        prefix_text(style, p) + trimmed_rest(style, p)
    } else if n < before {
        trimmed_rest(style, p)
    } else {
        let from = nth_component(v, pieces, n - before, 0);
        if from < to {
            join(pieces.subrange(from, to), style.separator())
        } else {
            Seq::empty()
        }
    }
}

/// The path that leads from `base` to `p`, if `p` is `base` or lies below it.
pub open spec fn strip_prefix(style: PathStyle, p: Seq<char>, base: Seq<char>) -> Option<Seq<char>> {
    if starts_with(style, p, base) {
        Some(without_first(style, p, components(style, base).len() as int))
    } else {
        None
    }
}

/// The path without its last component, if it has one besides the prefix and the root.
pub open spec fn parent(style: PathStyle, p: Seq<char>) -> Option<Seq<char>> {
    let v = has_verbatim_prefix(style, p);
    let pieces = split(below_prefix(style, p), style.separator());
    let i = last_component(v, pieces, pieces.len() as int);
    let j = last_component(v, pieces, i);
    if i >= 0 {
        if j >= 0 {
            Some(prefix_text(style, p) + join(pieces.take(j + 1), style.separator()))
        } else {
            Some(prefix_text(style, p) + lead(style, p))
        }
    } else if lead(style, p) == seq!['.'] {
        Some(Seq::empty())
    } else {
        None
    }
}

/// The name of the file that a path leads to, unless it ends with the prefix, the root, `.` or `..`.
pub open spec fn file_name(style: PathStyle, p: Seq<char>) -> Option<Seq<char>> {
    let pieces = split(below_prefix(style, p), style.separator());
    let i = last_component(has_verbatim_prefix(style, p), pieces, pieces.len() as int);
    if i >= 0 && pieces[i] != seq!['.', '.'] && pieces[i] != seq!['.'] {
        Some(pieces[i])
    } else {
        None
    }
}

/// The name of the copy that is kept beside a file.
pub open spec fn backup_name(name: Seq<char>) -> Seq<char> {
    if name.last() == '.' {
        name + "bak"@
    } else {
        name + ".bak"@
    }
}

/// Whether a name is two dots and an extension, such as `..a`. Without the extension it is no name
/// but the way up.
pub open spec fn is_dots_and_extension(name: Seq<char>) -> bool {
    name.len() > 2 && name[0] == '.' && name[1] == '.' && !name.skip(2).contains('.')
}

/// Whether a path leads to a file that has no place for a copy beside it: it ends with a name of
/// two dots and an extension.
pub open spec fn has_no_backup(style: PathStyle, p: Seq<char>) -> bool {
    let pieces = split(below_prefix(style, p), style.separator());
    is_dots_and_extension(pieces.last())
}

/// Where the copy that is kept beside a file stands. To make room for the new extension the old one
/// is cut off the path first. Where two dots are left of the name the path now leads up, there is no
/// name to give an extension to, and it stays so: the copy has no place.
pub open spec fn backup_path(style: PathStyle, p: Seq<char>) -> Seq<char> {
    let pieces = split(below_prefix(style, p), style.separator());
    let i = last_component(has_verbatim_prefix(style, p), pieces, pieces.len() as int);
    match file_name(style, p) {
        Some(name) => prefix_text(style, p) + join(
            pieces.take(i).push(
                if has_no_backup(style, p) {
                    seq!['.', '.']
                } else {
                    backup_name(name)
                },
            ),
            style.separator(),
        ),
        None => p,
    }
}

// ----- Working with paths -----

/// Whether a piece between two separators is a component.
pub(crate) fn component(verbatim: bool, piece: &Vec<char>) -> (r: bool)
    ensures
        r == is_component(verbatim, piece@),
{
    let r = piece.len() > 0 && (verbatim || !is_dot(piece));
    r
}

/// Whether a piece is `.`.
fn is_dot(piece: &Vec<char>) -> (r: bool)
    ensures
        r == (piece@ == seq!['.']),
{
    let r = piece.len() == 1 && piece[0] == '.';
    proof {
        let dot = seq!['.'];
        if r {
            assert(piece@ =~= dot);
        } else if piece@ == dot {
            assert(piece@[0] == dot[0]);
        }
    }
    r
}

/// Whether a piece is `..`.
pub(crate) fn is_dot_dot(piece: &Vec<char>) -> (r: bool)
    ensures
        r == (piece@ == seq!['.', '.']),
{
    let r = piece.len() == 2 && piece[0] == '.' && piece[1] == '.';
    proof {
        let dots = seq!['.', '.'];
        if r {
            assert(piece@ =~= dots);
        } else if piece@ == dots {
            assert(piece@[0] == dots[0] && piece@[1] == dots[1]);
        }
    }
    r
}

fn verbatim(p: &Vec<char>) -> (r: bool)
    ensures
        r == is_verbatim(p@),
{
    p.len() >= 4 && p[0] == '\\' && p[1] == '\\' && p[2] == '?' && p[3] == '\\'
}

fn has_drive_at(p: &Vec<char>, at: usize) -> (r: bool)
    requires
        at <= 4,
    ensures
        r == drive_at(p@, at as int),
{
    if p.len() >= at + 2 {
        let c = small_letter(p[at]);
        'a' <= c && c <= 'z' && p[at + 1] == ':'
    } else {
        false
    }
}

fn find_backslash(p: &Vec<char>, from: usize) -> (r: usize)
    ensures
        r == next_backslash(p@, from as int),
        from <= p@.len() ==> from <= r,
        r <= p@.len(),
{
    let mut i: usize = from;
    while i < p.len() && p[i] != '\\'
        invariant
            from <= i,
            from <= p@.len() ==> i <= p@.len(),
            i <= from || i <= p@.len(),
            next_backslash(p@, from as int) == next_backslash(p@, i as int),
        decreases p@.len() - i,
    {
        i = i + 1;
    }
    if i < p.len() {
        i
    } else {
        p.len()
    }
}

/// What a path begins with, and its length.
fn read_prefix(style: PathStyle, p: &Vec<char>) -> (r: (Prefix, usize))
    ensures
        r.0 == prefix(style, p@),
        r.1 == prefix_len(style, p@),
        r.1 <= p@.len(),
{
    reveal(prefix);
    reveal(prefix_len);
    if style == PathStyle::Unix {
        return (Prefix::Absent, 0);
    }
    if verbatim(p) {
        if p.len() >= 8 && p[4] == 'U' && p[5] == 'N' && p[6] == 'C' && p[7] == '\\' {
            let e: usize = find_backslash(p, 8);
            if e < p.len() {
                let f: usize = find_backslash(p, e + 1);
                if f > e + 1 {
                    return (Prefix::VerbatimShare, f);
                }
            }
            return (Prefix::VerbatimShare, e);
        }
        if has_drive_at(p, 4) && (p.len() <= 6 || p[6] == '\\') {
            return (Prefix::VerbatimDrive, 6);
        }
        return (Prefix::Verbatim, find_backslash(p, 4));
    }
    if p.len() >= 2 && (p[0] == '\\' || p[0] == '/') && p[1] == '\\' {
        if p.len() >= 4 && p[2] == '.' && p[3] == '\\' {
            return (Prefix::Device, find_backslash(p, 4));
        }
        let e: usize = find_backslash(p, 2);
        if 2 < e && e < p.len() {
            let f: usize = find_backslash(p, e + 1);
            if f > e + 1 {
                return (Prefix::Share, f);
            }
        }
    }
    if has_drive_at(p, 0) {
        (Prefix::Drive, 2)
    } else {
        (Prefix::Absent, 0)
    }
}

/// Whether a path begins with a prefix.
pub(crate) fn has_prefix(style: PathStyle, p: &Vec<char>) -> (r: bool)
    ensures
        r == (prefix(style, p@) != Prefix::Absent),
{
    read_prefix(style, p).0 != Prefix::Absent
}

/// The characters from `from` on.
fn chars_from(p: &Vec<char>, from: usize) -> (r: Vec<char>)
    requires
        from <= p@.len(),
    ensures
        r@ == p@.skip(from as int),
{
    let r = vstd::slice::slice_to_vec(vstd::slice::slice_subrange(p.as_slice(), from, p.len()));
    assert(r@ =~= p@.skip(from as int));
    r
}

/// A path behind its prefix.
fn rest_chars(style: PathStyle, p: &Vec<char>) -> (r: Vec<char>)
    ensures
        r@ == below_prefix(style, p@),
{
    let n: usize = read_prefix(style, p).1;
    chars_from(p, n)
}

/// The text of what a path begins with.
fn prefix_string(style: PathStyle, p: &Vec<char>) -> (r: String)
    ensures
        r@ == prefix_text(style, p@),
{
    let n: usize = read_prefix(style, p).1;
    let mut out = String::new();
    push_range(&mut out, p, 0, n);
    assert(out@ =~= prefix_text(style, p@));
    out
}

fn push_range(out: &mut String, s: &Vec<char>, from: usize, to: usize)
    requires
        from <= to <= s@.len(),
    ensures
        final(out)@ == old(out)@ + s@.subrange(from as int, to as int),
{
    let mut i: usize = from;
    assert(out@ =~= old(out)@ + s@.subrange(from as int, from as int));
    while i < to
        invariant
            from <= i <= to <= s@.len(),
            out@ == old(out)@ + s@.subrange(from as int, i as int),
        decreases to - i,
    {
        out.push(s[i]);
        i = i + 1;
        assert(out@ =~= old(out)@ + s@.subrange(from as int, i as int));
    }
}

fn push_chars(out: &mut String, s: &Vec<char>)
    ensures
        final(out)@ == old(out)@ + s@,
{
    push_range(out, s, 0, s.len());
    assert(s@.subrange(0, s@.len() as int) =~= s@);
}

/// What tells the prefix of a path from others.
fn prefix_chars(style: PathStyle, p: &Vec<char>) -> (r: Vec<char>)
    ensures
        r@ == prefix_key(style, p@),
{
    reveal(prefix);
    reveal(prefix_len);
    reveal(prefix_key);
    let (kind, n) = read_prefix(style, p);
    let mut r: Vec<char> = Vec::new();
    let (tag, from): (char, usize) = match kind {
        Prefix::Absent => {
            assert(r@ =~= prefix_key(style, p@));
            return r;
        },
        Prefix::Drive => ('d', 0),
        Prefix::Share => ('s', 2),
        Prefix::Device => ('n', 4),
        Prefix::Verbatim => ('v', 4),
        Prefix::VerbatimDrive => ('w', 4),
        Prefix::VerbatimShare => ('x', 8),
    };
    r.push('\\');
    r.push(tag);
    if kind == Prefix::Drive || kind == Prefix::VerbatimDrive {
        r.push(small_letter(p[from]));
        assert(r@ =~= prefix_key(style, p@));
        return r;
    }
    proof {
        lemma_next_backslash(p@, 2);
        lemma_next_backslash(p@, next_backslash(p@, 2) + 1);
        lemma_next_backslash(p@, 4);
        lemma_next_backslash(p@, 8);
        lemma_next_backslash(p@, next_backslash(p@, 8) + 1);
    }
    let mut i: usize = from;
    assert(r@ =~= seq!['\\', tag] + p@.subrange(from as int, from as int));
    while i < n
        invariant
            from <= i <= n <= p@.len(),
            r@ == seq!['\\', tag] + p@.subrange(from as int, i as int),
        decreases n - i,
    {
        r.push(p[i]);
        i = i + 1;
        assert(r@ =~= seq!['\\', tag] + p@.subrange(from as int, i as int));
    }
    r
}

/// Where the next backslash stands, or the end.
pub proof fn lemma_next_backslash(p: Seq<char>, from: int)
    ensures
        next_backslash(p, from) <= p.len(),
        0 <= from <= p.len() ==> from <= next_backslash(p, from),
        from > p.len() ==> next_backslash(p, from) == p.len(),
        0 <= from && next_backslash(p, from) < p.len() ==> p[next_backslash(p, from)] == '\\',
        forall|k: int| 0 <= from <= k < next_backslash(p, from) ==> p[k] != '\\',
    decreases p.len() - from,
{
    if from < p.len() && p[from] != '\\' {
        lemma_next_backslash(p, from + 1);
    }
}

/// Whether a path without a prefix starts at the root.
pub(crate) fn rooted(style: PathStyle, p: &Vec<char>) -> (r: bool)
    ensures
        r == is_rooted(style, p@),
{
    p.len() > 0 && p[0] == style.sep()
}

fn dotted(style: PathStyle, p: &Vec<char>) -> (r: bool)
    ensures
        r == begins_with_dot(style, p@),
{
    p.len() > 0 && p[0] == '.' && (p.len() == 1 || p[1] == style.sep())
}

fn verbatim_prefix(style: PathStyle, p: &Vec<char>) -> (r: bool)
    ensures
        r == has_verbatim_prefix(style, p@),
{
    style == PathStyle::Windows && verbatim(p)
}

/// Joins the pieces `from..to`.
fn join_pieces(style: PathStyle, pieces: &Vec<Vec<char>>, from: usize, to: usize) -> (r: String)
    requires
        from <= to <= pieces@.len(),
    ensures
        r@ == join(char_texts(pieces@).subrange(from as int, to as int), style.separator()),
{
    let ghost texts = char_texts(pieces@);
    let mut out = String::new();
    let mut i: usize = from;
    assert(texts.subrange(from as int, from as int) =~= Seq::empty());
    while i < to
        invariant
            from <= i <= to <= pieces@.len(),
            texts == char_texts(pieces@),
            out@ == join(texts.subrange(from as int, i as int), style.separator()),
        decreases to - i,
    {
        let ghost part = texts.subrange(from as int, i + 1);
        assert(part.drop_last() =~= texts.subrange(from as int, i as int));
        assert(part.last() == pieces@[i as int]@);
        if i > from {
            out.push(style.sep());
        }
        let ghost before = out@;
        push_chars(&mut out, &pieces[i]);
        assert(out@ =~= join(part, style.separator()));
        i = i + 1;
    }
    out
}

fn find_last_component(verbatim: bool, pieces: &Vec<Vec<char>>, n: usize) -> (r: Option<usize>)
    requires
        n <= pieces@.len(),
    ensures
        match r {
            Some(i) => i < n && last_component(verbatim, char_texts(pieces@), n as int) == i,
            None => last_component(verbatim, char_texts(pieces@), n as int) == -1,
        },
{
    let ghost texts = char_texts(pieces@);
    let mut i: usize = n;
    while i > 0
        invariant
            i <= n <= pieces@.len(),
            texts == char_texts(pieces@),
            last_component(verbatim, texts, n as int) == last_component(verbatim, texts, i as int),
        decreases i,
    {
        assert(texts[i - 1] == pieces@[i - 1]@);
        if component(verbatim, &pieces[i - 1]) {
            return Some(i - 1);
        }
        i = i - 1;
    }
    None
}

fn find_nth_component(verbatim: bool, pieces: &Vec<Vec<char>>, m: usize) -> (r: usize)
    ensures
        r == nth_component(verbatim, char_texts(pieces@), m as int, 0),
        r <= pieces@.len(),
{
    let ghost texts = char_texts(pieces@);
    let mut i: usize = 0;
    let mut left: usize = m;
    while i < pieces.len()
        invariant
            i <= pieces@.len(),
            texts == char_texts(pieces@),
            nth_component(verbatim, texts, m as int, 0) == nth_component(verbatim, texts, left as int, i as int),
        decreases pieces@.len() - i,
    {
        assert(texts[i as int] == pieces@[i as int]@);
        if component(verbatim, &pieces[i]) {
            if left == 0 {
                return i;
            }
            left = left - 1;
        }
        i = i + 1;
    }
    i
}

fn lead_chars(style: PathStyle, p: &Vec<char>) -> (r: Vec<char>)
    ensures
        r@ == lead(style, p@),
{
    let rest = rest_chars(style, p);
    let mut r: Vec<char> = Vec::new();
    if rooted(style, &rest) {
        r.push(style.sep());
        assert(r@ =~= seq![style.separator()]);
    } else if !has_prefix(style, p) && dotted(style, &rest) {
        r.push('.');
        assert(r@ =~= seq!['.']);
    }
    r
}

/// What stands before the other components of a path: the prefix, and the root or `.`.
fn read_head(style: PathStyle, p: &Vec<char>) -> (r: Vec<Vec<char>>)
    ensures
        char_texts(r@) == prefix_component(style, p@) + lead_component(style, p@),
{
    let mut out: Vec<Vec<char>> = Vec::new();
    let (kind, _) = read_prefix(style, p);
    if kind != Prefix::Absent {
        out.push(prefix_chars(style, p));
    }
    let ghost top = prefix_component(style, p@);
    assert(char_texts(out@) =~= top);
    let ghost before = out@;
    let mut second = lead_chars(style, p);
    if second.len() == 0 && (kind == Prefix::Share || kind == Prefix::Device) {
        second.push(style.sep());
        assert(second@ =~= seq![style.separator()]);
    }
    if second.len() > 0 {
        out.push(second);
        assert(char_texts(out@) =~= char_texts(before).push(second@));
    }
    assert(char_texts(out@) =~= top + lead_component(style, p@));
    out
}

/// The pieces that are components, behind those that are there.
fn push_components(verbatim: bool, out: &mut Vec<Vec<char>>, pieces: &Vec<Vec<char>>)
    ensures
        char_texts(final(out)@) == char_texts(old(out)@) + components_among(verbatim, char_texts(pieces@)),
{
    let ghost start = char_texts(out@);
    let ghost texts = char_texts(pieces@);
    let mut i: usize = 0;
    assert(texts.take(0) =~= Seq::empty());
    assert(start + components_among(verbatim, texts.take(0)) =~= start);
    while i < pieces.len()
        invariant
            i <= pieces@.len(),
            texts == char_texts(pieces@),
            char_texts(out@) == start + components_among(verbatim, texts.take(i as int)),
        decreases pieces@.len() - i,
    {
        assert(texts.take(i + 1).drop_last() =~= texts.take(i as int));
        assert(texts.take(i + 1).last() == pieces@[i as int]@);
        if component(verbatim, &pieces[i]) {
            let ghost before = out@;
            let piece = pieces[i].clone();
            assert(piece@ =~= pieces@[i as int]@);
            out.push(piece);
            assert(char_texts(out@) =~= char_texts(before).push(piece@));
        }
        assert(char_texts(out@) =~= start + components_among(verbatim, texts.take(i + 1)));
        i = i + 1;
    }
    assert(texts.take(i as int) =~= texts);
}

/// The components of a path.
fn read_components(style: PathStyle, p: &Vec<char>) -> (r: Vec<Vec<char>>)
    ensures
        char_texts(r@) == components(style, p@),
{
    let mut out = read_head(style, p);
    let pieces = split_chars(&rest_chars(style, p), style.sep());
    push_components(verbatim_prefix(style, p), &mut out, &pieces);
    assert(char_texts(out@) =~= components(style, p@));
    out
}

/// Walks names from where `at` stands.
fn walk_names(at: &mut Vec<Vec<char>>, names: &Vec<Vec<char>>)
    ensures
        char_texts(final(at)@) == walk(char_texts(old(at)@), char_texts(names@)),
{
    let ghost start = char_texts(at@);
    let ghost texts = char_texts(names@);
    let mut i: usize = 0;
    assert(texts.take(0) =~= Seq::empty());
    while i < names.len()
        invariant
            i <= names@.len(),
            texts == char_texts(names@),
            char_texts(at@) == walk(start, texts.take(i as int)),
        decreases names@.len() - i,
    {
        assert(texts.take(i + 1).drop_last() =~= texts.take(i as int));
        assert(texts.take(i + 1).last() == names@[i as int]@);
        let ghost before = at@;
        let ghost here = char_texts(at@);
        if !is_dot_dot(&names[i]) {
            let name = names[i].clone();
            assert(name@ =~= names@[i as int]@);
            at.push(name);
            assert(char_texts(at@) =~= here.push(name@));
        } else if at.len() > 0 {
            assert(here.last() == at@[at@.len() - 1]@);
            if !is_dot_dot(&at[at.len() - 1]) && !is_dot(&at[at.len() - 1]) {
                let _ = at.pop();
                assert(char_texts(at@) =~= here.drop_last());
            }
        }
        i = i + 1;
    }
    assert(texts.take(i as int) =~= texts);
}

fn join_to_verbatim(style: PathStyle, x: &Vec<char>, y: &Vec<char>) -> (r: String)
    ensures
        r@ == join_verbatim(style, x@, y@),
{
    let rest = rest_chars(style, x);
    let from_root = rooted(style, y);
    let mut names: Vec<Vec<char>> = Vec::new();
    assert(char_texts(names@) =~= Seq::empty());
    if !from_root {
        let pieces = split_chars(&rest, style.sep());
        push_components(verbatim_prefix(style, x), &mut names, &pieces);
        assert(char_texts(names@) =~= body(style, x@));
    }
    let mut below: Vec<Vec<char>> = Vec::new();
    assert(char_texts(below@) =~= Seq::empty());
    let pieces = split_chars(y, style.sep());
    push_components(false, &mut below, &pieces);
    assert(char_texts(below@) =~= components_among(false, split(y@, style.separator())));
    walk_names(&mut names, &below);
    let mut out = prefix_string(style, x);
    if from_root || rooted(style, &rest) || names.len() > 0 {
        out.push(style.sep());
    }
    assert(char_texts(names@).subrange(0, names@.len() as int) =~= char_texts(names@));
    let tail = join_pieces(style, &names, 0, names.len());
    out.append(tail.as_str());
    assert(out@ =~= join_verbatim(style, x@, y@));
    out
}

/// The path `b` as seen from `a`.
pub fn join_paths(style: PathStyle, a: &str, b: &str) -> (r: String)
    ensures
        r@ == join_path(style, a@, b@),
{
    let x = chars_of(a);
    let y = chars_of(b);
    if has_prefix(style, &y) {
        return b.to_owned();
    }
    if verbatim_prefix(style, &x) && y.len() > 0 {
        return join_to_verbatim(style, &x, &y);
    }
    if rooted(style, &y) {
        let mut out = prefix_string(style, &x);
        out.append(b);
        return out;
    }
    let mut out = a.to_owned();
    let (kind, _) = read_prefix(style, &x);
    if x.len() > 0 && x[x.len() - 1] != style.sep() && !(kind == Prefix::Drive && x.len() == 2) {
        out.push(style.sep());
    }
    out.append(b);
    out
}

/// Whether `p` is `base` or lies below it.
pub fn path_starts_with(style: PathStyle, p: &str, base: &str) -> (r: bool)
    ensures
        r == starts_with(style, p@, base@),
{
    let whole = read_components(style, &chars_of(p));
    let head = read_components(style, &chars_of(base));
    let ghost a = components(style, p@);
    let ghost b = components(style, base@);
    if head.len() > whole.len() {
        return false;
    }
    let mut i: usize = 0;
    while i < head.len()
        invariant
            i <= head@.len() <= whole@.len(),
            a == char_texts(whole@),
            b == char_texts(head@),
            a == components(style, p@),
            b == components(style, base@),
            forall|k: int| 0 <= k < i ==> b[k] == a[k],
        decreases head@.len() - i,
    {
        assert(a[i as int] == whole@[i as int]@ && b[i as int] == head@[i as int]@);
        if !chars_eq(&head[i], &whole[i]) {
            proof {
                if b.is_prefix_of(a) {
                    assert(a.subrange(0, b.len() as int)[i as int] == a[i as int]);
                }
            }
            return false;
        }
        i = i + 1;
    }
    assert(b =~= a.subrange(0, b.len() as int));
    true
}

/// A path behind its prefix up to the end of its last component.
fn trim_rest(style: PathStyle, p: &Vec<char>) -> (r: String)
    ensures
        r@ == trimmed_rest(style, p@),
{
    let rest = rest_chars(style, p);
    let pieces = split_chars(&rest, style.sep());
    let ghost texts = split(rest@, style.separator());
    match find_last_component(verbatim_prefix(style, p), &pieces, pieces.len()) {
        Some(i) => {
            assert(texts.take(i + 1) =~= texts.subrange(0, i + 1));
            join_pieces(style, &pieces, 0, i + 1)
        },
        None => {
            let mut out = String::new();
            push_chars(&mut out, &lead_chars(style, p));
            assert(out@ =~= lead(style, p@));
            out
        },
    }
}

fn drop_components(style: PathStyle, p: &Vec<char>, n: usize) -> (r: String)
    ensures
        r@ == without_first(style, p@, n as int),
{
    let head = read_head(style, p);
    assert(head@.len() == char_texts(head@).len());
    let before: usize = head.len();
    if n == 0 {
        let mut out = prefix_string(style, p);
        let below = trim_rest(style, p);
        out.append(below.as_str());
        return out;
    }
    if n < before {
        return trim_rest(style, p);
    }
    let v = verbatim_prefix(style, p);
    let pieces = split_chars(&rest_chars(style, p), style.sep());
    let to: usize = match find_last_component(v, &pieces, pieces.len()) {
        Some(i) => i + 1,
        None => 0,
    };
    let from: usize = find_nth_component(v, &pieces, n - before);
    if from < to {
        join_pieces(style, &pieces, from, to)
    } else {
        String::new()
    }
}

/// The path that leads from `base` to `p`, if `p` is `base` or lies below it.
pub fn path_below(style: PathStyle, p: &str, base: &str) -> (r: Option<String>)
    ensures
        crate::text::opt_text(r) == strip_prefix(style, p@, base@),
{
    if !path_starts_with(style, p, base) {
        return None;
    }
    let head = read_components(style, &chars_of(base));
    assert(head@.len() == char_texts(head@).len());
    Some(drop_components(style, &chars_of(p), head.len()))
}

/// The path without its last component.
pub fn parent_path(style: PathStyle, p: &str) -> (r: Option<String>)
    ensures
        crate::text::opt_text(r) == parent(style, p@),
{
    let chars = chars_of(p);
    let v = verbatim_prefix(style, &chars);
    let rest = rest_chars(style, &chars);
    let pieces = split_chars(&rest, style.sep());
    let ghost texts = split(rest@, style.separator());
    let mut out = prefix_string(style, &chars);
    let first = lead_chars(style, &chars);
    match find_last_component(v, &pieces, pieces.len()) {
        Some(i) => match find_last_component(v, &pieces, i) {
            Some(j) => {
                assert(texts.take(j + 1) =~= texts.subrange(0, j + 1));
                let upper = join_pieces(style, &pieces, 0, j + 1);
                out.append(upper.as_str());
                Some(out)
            },
            None => {
                push_chars(&mut out, &first);
                Some(out)
            },
        },
        None => if is_dot(&first) {
            Some(String::new())
        } else {
            None
        },
    }
}

/// The name of the file that a path leads to.
pub fn path_file_name(style: PathStyle, p: &str) -> (r: Option<String>)
    ensures
        crate::text::opt_text(r) == file_name(style, p@),
{
    let chars = chars_of(p);
    let rest = rest_chars(style, &chars);
    let pieces = split_chars(&rest, style.sep());
    let ghost texts = split(rest@, style.separator());
    match find_last_component(verbatim_prefix(style, &chars), &pieces, pieces.len()) {
        Some(i) => {
            assert(texts[i as int] == pieces@[i as int]@);
            if is_dot_dot(&pieces[i]) || is_dot(&pieces[i]) {
                None
            } else {
                let mut out = String::new();
                push_chars(&mut out, &pieces[i]);
                assert(out@ =~= texts[i as int]);
                Some(out)
            }
        },
        None => None,
    }
}

/// Whether a name is two dots and an extension.
fn dots_and_extension(name: &Vec<char>) -> (r: bool)
    ensures
        r == is_dots_and_extension(name@),
{
    if !(name.len() > 2 && name[0] == '.' && name[1] == '.') {
        return false;
    }
    let ghost tail = name@.skip(2);
    let mut i: usize = 2;
    while i < name.len()
        invariant
            2 <= i <= name@.len(),
            tail == name@.skip(2),
            forall|k: int| 0 <= k < i - 2 ==> tail[k] != '.',
        decreases name@.len() - i,
    {
        if name[i] == '.' {
            assert(tail[i - 2] == '.');
            return false;
        }
        i = i + 1;
    }
    true
}

/// Joins the pieces `..i` and a last one.
fn join_with_last(style: PathStyle, pieces: &Vec<Vec<char>>, i: usize, last: &str) -> (r: String)
    requires
        i <= pieces@.len(),
    ensures
        r@ == join(char_texts(pieces@).take(i as int).push(last@), style.separator()),
{
    let ghost upper = char_texts(pieces@).take(i as int);
    proof {
        assert(upper =~= char_texts(pieces@).subrange(0, i as int));
        lemma_join_push(upper, last@, style.separator());
    }
    let mut out = join_pieces(style, pieces, 0, i);
    if i > 0 {
        out.push(style.sep());
    }
    out.append(last);
    assert(i == 0 ==> out@ =~= last@);
    out
}

/// The name of the copy that is kept beside a file.
fn copy_name_of(name: &Vec<char>) -> (r: String)
    requires
        name@.len() > 0,
    ensures
        r@ == backup_name(name@),
{
    let mut out = String::new();
    push_chars(&mut out, name);
    assert(out@ =~= name@);
    if name[name.len() - 1] == '.' {
        out.append("bak");
    } else {
        out.append(".bak");
    }
    out
}

/// Where the copy that is kept beside a file stands.
pub fn backup_path_of(style: PathStyle, p: &str) -> (r: String)
    ensures
        r@ == backup_path(style, p@),
{
    let chars = chars_of(p);
    let rest = rest_chars(style, &chars);
    let pieces = split_chars(&rest, style.sep());
    let ghost texts = split(rest@, style.separator());
    let ghost v = has_verbatim_prefix(style, p@);
    let i: usize = match find_last_component(verbatim_prefix(style, &chars), &pieces, pieces.len()) {
        Some(i) => i,
        None => {
            return p.to_owned();
        },
    };
    assert(texts[i as int] == pieces@[i as int]@);
    if is_dot_dot(&pieces[i]) || is_dot(&pieces[i]) {
        return p.to_owned();
    }
    proof {
        lemma_last_component(v, texts, texts.len() as int);
        assert(texts.last() == pieces@[pieces@.len() - 1]@);
    }
    let last = if dots_and_extension(&pieces[pieces.len() - 1]) {
        proof {
            reveal_strlit("..");
            assert(".."@ =~= seq!['.', '.']);
        }
        "..".to_owned()
    } else {
        copy_name_of(&pieces[i])
    };
    let below = join_with_last(style, &pieces, i, last.as_str());
    let mut out = prefix_string(style, &chars);
    out.append(below.as_str());
    out
}

proof fn lemma_join_push(parts: Seq<Seq<char>>, last: Seq<char>, sep: char)
    ensures
        join(parts.push(last), sep) == (if parts.len() == 0 {
            last
        } else {
            join(parts, sep).push(sep) + last
        }),
{
    assert(parts.push(last).drop_last() =~= parts);
}

pub proof fn lemma_last_component(verbatim: bool, pieces: Seq<Seq<char>>, n: int)
    requires
        0 <= n <= pieces.len(),
    ensures
        -1 <= last_component(verbatim, pieces, n) < n,
        last_component(verbatim, pieces, n) >= 0 ==> is_component(verbatim, pieces[last_component(verbatim, pieces, n)]),
    decreases n,
{
    if n > 0 {
        lemma_last_component(verbatim, pieces, n - 1);
    }
}

} // verus!
