//! What holds of paths: how they are joined and taken apart, where parents and copies of files stand,
//! and what stays the same in a canonical path.

use vstd::prelude::*;

use crate::path::{
    PathStyle, Prefix, backup_name, backup_path, begins_with_two, below_prefix, body, canonical,
    canonical_verbatim, components, components_among, drive_at, file_name, has_no_backup,
    has_verbatim_prefix, is_bare_drive, is_bare_question, is_component, is_dots_and_extension,
    is_letter, is_rooted, is_verbatim, join_path, last_component, lead, lead_component,
    lemma_last_component, lemma_next_backslash, names_share, next_backslash, nth_component, parent,
    prefix, prefix_component, prefix_key, prefix_len, prefix_text, starts_with, strip_prefix,
    unc_at_four, walk, without_first,
};
use crate::text::{
    join, law_join_undoes_split, law_split_of_two_texts, law_split_undoes_join,
    lemma_split_of_one_piece, replace, split,
};
use crate::text::ascii_lower;

verus! {

/// Where the next backslash stands is the same in texts that agree so far.
proof fn lemma_next_backslash_agrees(a: Seq<char>, q: Seq<char>, from: int)
    requires
        0 <= from <= next_backslash(a, from) <= q.len(),
        next_backslash(a, from) <= a.len(),
        forall|k: int| from <= k < next_backslash(a, from) ==> a[k] == q[k],
        next_backslash(a, from) == q.len() || q[next_backslash(a, from)] == '\\',
    ensures
        next_backslash(q, from) == next_backslash(a, from),
    decreases a.len() - from,
{
    lemma_next_backslash(a, from);
    if from < next_backslash(a, from) {
        assert(a[from] == q[from]);
        lemma_next_backslash_agrees(a, q, from + 1);
    }
}

/// How a prefix and the rest of a path fit together.
pub proof fn lemma_prefix(style: PathStyle, p: Seq<char>)
    ensures
        0 <= prefix_len(style, p) <= p.len(),
        prefix(style, p) == Prefix::Absent <==> prefix_len(style, p) == 0,
        prefix(style, p) == Prefix::Drive ==> prefix_len(style, p) == 2,
        style == PathStyle::Unix ==> prefix(style, p) == Prefix::Absent,
        p == prefix_text(style, p) + below_prefix(style, p),
        prefix(style, p) == Prefix::Absent ==> below_prefix(style, p) == p && prefix_text(style, p)
            == Seq::<char>::empty() && !has_verbatim_prefix(style, p),
        prefix(style, p) == Prefix::Drive ==> !has_verbatim_prefix(style, p) && drive_at(p, 0),
        has_verbatim_prefix(style, p) <==> prefix(style, p) == Prefix::Verbatim || prefix(style, p)
            == Prefix::VerbatimDrive || prefix(style, p) == Prefix::VerbatimShare,
        prefix(style, p) != Prefix::Absent && prefix(style, p) != Prefix::Drive && below_prefix(style, p).len() > 0
            ==> is_rooted(style, below_prefix(style, p)),
        prefix(style, p) == Prefix::Share || (prefix(style, p) == Prefix::Device && p.len() > 4 && below_prefix(
            style,
            p,
        ).len() == 0) ==> prefix_text(style, p).last() != style.separator(),
{
    reveal(prefix);
    reveal(prefix_len);
    lemma_next_backslash(p, 2);
    lemma_next_backslash(p, next_backslash(p, 2) + 1);
    lemma_next_backslash(p, 4);
    lemma_next_backslash(p, 8);
    lemma_next_backslash(p, next_backslash(p, 8) + 1);
    assert(p =~= prefix_text(style, p) + below_prefix(style, p));
    if prefix_len(style, p) == 0 {
        assert(below_prefix(style, p) =~= p);
        assert(prefix_text(style, p) =~= Seq::<char>::empty());
    }
}

/// A text that begins neither with two separators nor with a drive has no prefix.
pub proof fn lemma_no_prefix(style: PathStyle, p: Seq<char>)
    requires
        style == PathStyle::Windows ==> !may_become_share(p) && !drive_at(p, 0),
    ensures
        prefix(style, p) == Prefix::Absent,
        prefix_len(style, p) == 0,
        below_prefix(style, p) == p,
        prefix_text(style, p) == Seq::<char>::empty(),
        !has_verbatim_prefix(style, p),
        is_settled(style, p),
{
    reveal(prefix);
    lemma_prefix(style, p);
}

/// Whether a path without a prefix may have one where something is joined to it.
pub open spec fn may_become_share(p: Seq<char>) -> bool {
    begins_with_two(p) || (p.len() > 0 && p[0] == '/')
}

/// Whether the prefix of a path stays the same whatever is joined to the path. It does not where the
/// path begins like a share or a device and ends before that is complete.
pub open spec fn is_settled(style: PathStyle, p: Seq<char>) -> bool {
    match prefix(style, p) {
        Prefix::Absent => style == PathStyle::Windows ==> !may_become_share(p),
        Prefix::Device => p.len() > 4,
        Prefix::Verbatim => !(prefix_len(style, p) == 7 && p[4] == 'U' && p[5] == 'N' && p[6] == 'C'),
        Prefix::VerbatimShare => prefix_len(style, p) > next_backslash(p, 8),
        _ => true,
    }
}

/// A path that begins as a settled path does, with nothing or a separator behind, has the same prefix.
proof fn lemma_same_prefix(style: PathStyle, a: Seq<char>, q: Seq<char>)
    requires
        is_settled(style, a),
        prefix_len(style, a) <= q.len(),
        q.take(prefix_len(style, a)) == prefix_text(style, a),
        prefix(style, a) == Prefix::Absent ==> (style == PathStyle::Windows ==> !may_become_share(q) && !drive_at(
            q,
            0,
        )),
        prefix(style, a) != Prefix::Absent && prefix(style, a) != Prefix::Drive && prefix_len(style, a) < q.len()
            ==> q[prefix_len(style, a)] == style.separator(),
    ensures
        prefix(style, q) == prefix(style, a),
        prefix_len(style, q) == prefix_len(style, a),
        prefix_text(style, q) == prefix_text(style, a),
        prefix_key(style, q) == prefix_key(style, a),
        has_verbatim_prefix(style, q) == has_verbatim_prefix(style, a),
        prefix(style, a) == Prefix::Device ==> q.len() > 4 ==> is_settled(style, q),
        prefix(style, a) != Prefix::Device ==> is_settled(style, q),
{
    lemma_prefix(style, a);
    let n = prefix_len(style, a);
    let kind = prefix(style, a);
    assert forall|k: int| 0 <= k < n implies q[k] == a[k] by {
        assert(q.take(n)[k] == prefix_text(style, a)[k]);
    }
    if kind == Prefix::Absent {
        lemma_no_prefix(style, q);
        reveal(prefix_key);
    } else {
        lemma_same_prefix_there(style, a, q);
    }
}

proof fn lemma_same_prefix_there(style: PathStyle, a: Seq<char>, q: Seq<char>)
    requires
        is_settled(style, a),
        prefix(style, a) != Prefix::Absent,
        0 <= prefix_len(style, a) <= q.len(),
        prefix_len(style, a) <= a.len(),
        forall|k: int| 0 <= k < prefix_len(style, a) ==> q[k] == a[k],
        prefix(style, a) != Prefix::Drive && prefix_len(style, a) < q.len() ==> q[prefix_len(style, a)] == '\\',
    ensures
        prefix(style, q) == prefix(style, a),
        prefix_len(style, q) == prefix_len(style, a),
        prefix_text(style, q) == prefix_text(style, a),
        prefix_key(style, q) == prefix_key(style, a),
        has_verbatim_prefix(style, q) == has_verbatim_prefix(style, a),
        prefix(style, a) == Prefix::Device ==> q.len() > 4 ==> is_settled(style, q),
        prefix(style, a) != Prefix::Device ==> is_settled(style, q),
{
    reveal(prefix);
    reveal(prefix_len);
    reveal(prefix_key);
    let n = prefix_len(style, a);
    lemma_next_backslash(a, 2);
    lemma_next_backslash(a, next_backslash(a, 2) + 1);
    lemma_next_backslash(a, 4);
    lemma_next_backslash(a, 8);
    lemma_next_backslash(a, next_backslash(a, 8) + 1);
    match prefix(style, a) {
        Prefix::Absent => {},
        Prefix::Drive => {},
        Prefix::Share => {
            let e = next_backslash(a, 2);
            lemma_next_backslash_agrees(a, q, 2);
            lemma_next_backslash_agrees(a, q, e + 1);
        },
        Prefix::Device => {
            lemma_next_backslash_agrees(a, q, 4);
        },
        Prefix::Verbatim => {
            lemma_next_backslash_agrees(a, q, 4);
        },
        Prefix::VerbatimDrive => {},
        Prefix::VerbatimShare => {
            let e = next_backslash(a, 8);
            lemma_next_backslash_agrees(a, q, 8);
            lemma_next_backslash_agrees(a, q, e + 1);
        },
    }
    assert(prefix_len(style, q) == n);
    assert(prefix_text(style, q) =~= prefix_text(style, a));
    assert(prefix_key(style, q) =~= prefix_key(style, a));
}

/// Names that lead down: components without a separator, other than `..` and without a prefix.
pub open spec fn leads_down(style: PathStyle, parts: Seq<Seq<char>>) -> bool {
    forall|k: int| 0 <= k < parts.len() ==> is_name(style, #[trigger] parts[k])
}

/// A name that leads down.
pub open spec fn is_name(style: PathStyle, name: Seq<char>) -> bool {
    &&& is_component(false, name)
    &&& !name.contains('/')
    &&& !name.contains(style.separator())
    &&& name != seq!['.', '.']
    &&& prefix(style, name) == Prefix::Absent
}

proof fn lemma_components_of_two(verbatim: bool, x: Seq<Seq<char>>, y: Seq<Seq<char>>)
    ensures
        components_among(verbatim, x + y) == components_among(verbatim, x) + components_among(verbatim, y),
    decreases y.len(),
{
    if y.len() == 0 {
        assert(x + y =~= x);
        assert(components_among(verbatim, x) + components_among(verbatim, y) =~= components_among(verbatim, x));
    } else {
        assert((x + y).drop_last() =~= x + y.drop_last());
        lemma_components_of_two(verbatim, x, y.drop_last());
        assert(components_among(verbatim, x + y) =~= components_among(verbatim, x) + components_among(
            verbatim,
            y,
        ));
    }
}

proof fn lemma_all_components(verbatim: bool, parts: Seq<Seq<char>>)
    requires
        forall|k: int| 0 <= k < parts.len() ==> is_component(verbatim, #[trigger] parts[k]),
    ensures
        components_among(verbatim, parts) == parts,
    decreases parts.len(),
{
    if parts.len() > 0 {
        let rest = parts.drop_last();
        assert forall|k: int| 0 <= k < rest.len() implies is_component(verbatim, #[trigger] rest[k]) by {
            assert(rest[k] == parts[k]);
        }
        lemma_all_components(verbatim, rest);
        assert(is_component(verbatim, parts[parts.len() - 1]));
        assert(rest.push(parts.last()) =~= parts);
    } else {
        assert(parts =~= Seq::empty());
    }
}

/// The components among pieces are pieces.
pub proof fn lemma_components_are_pieces(verbatim: bool, pieces: Seq<Seq<char>>)
    ensures
        forall|k: int|
            0 <= k < components_among(verbatim, pieces).len() ==> is_component(
                verbatim,
                #[trigger] components_among(verbatim, pieces)[k],
            ) && pieces.contains(components_among(verbatim, pieces)[k]),
    decreases pieces.len(),
{
    if pieces.len() > 0 {
        let rest = pieces.drop_last();
        lemma_components_are_pieces(verbatim, rest);
        let all = components_among(verbatim, pieces);
        let before = components_among(verbatim, rest);
        assert forall|k: int| 0 <= k < all.len() implies is_component(verbatim, #[trigger] all[k])
            && pieces.contains(all[k]) by {
            if k < before.len() {
                assert(all[k] == before[k]);
                let m = choose|m: int| 0 <= m < rest.len() && rest[m] == before[k];
                assert(pieces[m] == all[k]);
            } else {
                assert(pieces[pieces.len() - 1] == all[k]);
            }
        }
    }
}

proof fn lemma_nothing_has_no_components(verbatim: bool, sep: char)
    ensures
        components_among(verbatim, split(Seq::<char>::empty(), sep)) == Seq::<Seq<char>>::empty(),
{
    let nothing = split(Seq::<char>::empty(), sep);
    reveal_with_fuel(components_among, 2);
    assert(nothing.drop_last() =~= Seq::empty());
}

/// A text behind a separator has the same components.
proof fn lemma_components_behind(verbatim: bool, s: Seq<char>, sep: char)
    ensures
        split(seq![sep] + s, sep) == seq![Seq::<char>::empty()] + split(s, sep),
        components_among(verbatim, split(seq![sep] + s, sep)) == components_among(verbatim, split(s, sep)),
{
    let none = Seq::<char>::empty();
    law_split_of_two_texts(none, s, sep);
    assert(none.push(sep) =~= seq![sep]);
    lemma_components_of_two(verbatim, split(none, sep), split(s, sep));
    lemma_nothing_has_no_components(verbatim, sep);
    assert(split(none, sep) =~= seq![none]);
    assert(components_among(verbatim, split(seq![sep] + s, sep)) =~= components_among(verbatim, split(s, sep)));
}

/// The components behind a separator that stands between two texts.
proof fn lemma_components_of_text(verbatim: bool, a: Seq<char>, b: Seq<char>, sep: char)
    requires
        a.len() > 0,
    ensures
        ({
            let p = if a.last() == sep {
                a + b
            } else {
                a.push(sep) + b
            };
            &&& components_among(verbatim, split(p, sep)) == components_among(verbatim, split(a, sep))
                + components_among(verbatim, split(b, sep))
            &&& a.last() != sep ==> split(p, sep) == split(a, sep) + split(b, sep)
        }),
{
    let p = if a.last() == sep {
        a + b
    } else {
        a.push(sep) + b
    };
    if a.last() == sep {
        let head = a.drop_last();
        assert(head.push(sep) =~= a);
        assert(p =~= head.push(sep) + b);
        assert(a =~= head.push(sep) + Seq::<char>::empty());
        law_split_of_two_texts(head, b, sep);
        law_split_of_two_texts(head, Seq::empty(), sep);
        let nothing = split(Seq::<char>::empty(), sep);
        lemma_components_of_two(verbatim, split(head, sep), split(b, sep));
        lemma_components_of_two(verbatim, split(head, sep), nothing);
        lemma_nothing_has_no_components(verbatim, sep);
        assert(components_among(verbatim, split(a, sep)) =~= components_among(verbatim, split(head, sep)));
    } else {
        law_split_of_two_texts(a, b, sep);
        lemma_components_of_two(verbatim, split(a, sep), split(b, sep));
    }
}

/// Where there is no `..`, walking appends.
proof fn lemma_walk(at: Seq<Seq<char>>, names: Seq<Seq<char>>)
    requires
        !names.contains(seq!['.', '.']),
    ensures
        walk(at, names) == at + names,
    decreases names.len(),
{
    if names.len() > 0 {
        let rest = names.drop_last();
        assert(names.contains(names[names.len() - 1]));
        assert forall|k: int| 0 <= k < rest.len() implies rest[k] != seq!['.', '.'] by {
            assert(names.contains(names[k]));
        }
        lemma_walk(at, rest);
        assert((at + rest).push(names.last()) =~= at + names);
    } else {
        assert(at + names =~= at);
    }
}

/// Whether a path can be joined to another without a change of its prefix or a way back: the other is
/// settled and, if it is verbatim, the path does not climb, and one of the two has a name.
pub open spec fn joins(style: PathStyle, a: Seq<char>, b: Seq<char>) -> bool {
    &&& a.len() > 0
    &&& is_settled(style, a)
    &&& prefix(style, b) == Prefix::Absent
    &&& !is_rooted(style, b)
    &&& has_verbatim_prefix(style, a) ==> {
        let names = components_among(false, split(b, style.separator()));
        !names.contains(seq!['.', '.']) && (names.len() > 0 || below_prefix(style, a).len() > 0)
    }
}

/// What stands behind the prefix of a joined path.
pub open spec fn joined_rest(style: PathStyle, a: Seq<char>, b: Seq<char>) -> Seq<char> {
    let sep = style.separator();
    let rest = below_prefix(style, a);
    if has_verbatim_prefix(style, a) && b.len() > 0 {
        seq![sep] + join(body(style, a) + components_among(false, split(b, sep)), sep)
    } else if is_bare_drive(style, a) {
        b
    } else if rest.len() > 0 && rest.last() == sep {
        rest + b
    } else {
        rest.push(sep) + b
    }
}

proof fn lemma_join_text(style: PathStyle, a: Seq<char>, b: Seq<char>)
    requires
        joins(style, a, b),
    ensures
        join_path(style, a, b) == prefix_text(style, a) + joined_rest(style, a, b),
        join_path(style, a, b).len() > 0,
        prefix(style, a) != Prefix::Absent && prefix(style, a) != Prefix::Drive ==> joined_rest(
            style,
            a,
            b,
        ).len() > 0 && joined_rest(style, a, b)[0] == style.separator(),
        prefix(style, a) == Prefix::Device ==> join_path(style, a, b).len() > 4,
{
    let sep = style.separator();
    let rest = below_prefix(style, a);
    let text = prefix_text(style, a);
    let r = joined_rest(style, a, b);
    lemma_prefix(style, a);
    if has_verbatim_prefix(style, a) && b.len() > 0 {
        let names = components_among(false, split(b, sep));
        lemma_walk(body(style, a), names);
        assert(text + seq![sep] + join(body(style, a) + names, sep) =~= text + r);
    } else {
        if b.len() == 0 {
            lemma_nothing_has_no_components(false, sep);
            assert(b =~= Seq::empty());
        }
        if rest.len() > 0 {
            assert(rest.last() == a.last());
        } else {
            assert(a =~= text);
        }
        if is_bare_drive(style, a) {
            assert(a + b =~= text + r);
        } else if rest.len() > 0 && rest.last() == sep {
            assert(a + b =~= text + (rest + b));
        } else {
            assert(a.last() != sep);
            assert(a.push(sep) + b =~= text + (rest.push(sep) + b));
        }
    }
}

/// Joining to a path without a prefix makes none.
proof fn lemma_join_makes_no_prefix(style: PathStyle, a: Seq<char>, b: Seq<char>)
    requires
        joins(style, a, b),
        style == PathStyle::Windows,
        prefix(style, a) == Prefix::Absent,
    ensures
        !may_become_share(join_path(style, a, b)),
        !drive_at(join_path(style, a, b), 0),
{
    let q = join_path(style, a, b);
    lemma_prefix(style, a);
    reveal(prefix);
    assert(q[0] == a[0]);
    if a.len() >= 2 {
        assert(q[1] == a[1]);
    } else if a.last() == style.separator() && b.len() > 0 {
        assert(q[1] == b[0]);
    }
}

/// Joining keeps the prefix.
pub proof fn lemma_join_keeps_prefix(style: PathStyle, a: Seq<char>, b: Seq<char>)
    requires
        joins(style, a, b),
    ensures
        ({
            let q = join_path(style, a, b);
            &&& prefix(style, q) == prefix(style, a)
            &&& prefix_len(style, q) == prefix_len(style, a)
            &&& prefix_text(style, q) == prefix_text(style, a)
            &&& prefix_component(style, q) == prefix_component(style, a)
            &&& has_verbatim_prefix(style, q) == has_verbatim_prefix(style, a)
            &&& is_settled(style, q)
            &&& q.len() > 0
            &&& below_prefix(style, q) == joined_rest(style, a, b)
        }),
{
    let q = join_path(style, a, b);
    let r = joined_rest(style, a, b);
    let n = prefix_len(style, a);
    lemma_prefix(style, a);
    lemma_join_text(style, a, b);
    assert(q.take(n) =~= prefix_text(style, a));
    assert(r.len() > 0 ==> q[n] == r[0]);
    if prefix(style, a) == Prefix::Absent && style == PathStyle::Windows {
        lemma_join_makes_no_prefix(style, a, b);
    }
    lemma_same_prefix(style, a, q);
    assert(below_prefix(style, q) =~= r);
}

/// What stands before the other components of a path stays where something is joined to it.
pub proof fn lemma_join_keeps_lead(style: PathStyle, a: Seq<char>, b: Seq<char>)
    requires
        joins(style, a, b),
        has_verbatim_prefix(style, a) ==> below_prefix(style, a).len() > 0,
    ensures
        lead_component(style, join_path(style, a, b)) == lead_component(style, a),
{
    let q = join_path(style, a, b);
    let rest = below_prefix(style, a);
    let r = joined_rest(style, a, b);
    lemma_prefix(style, a);
    lemma_join_keeps_prefix(style, a, b);
    lemma_join_text(style, a, b);
    if rest.len() > 0 && !has_verbatim_prefix(style, a) {
        assert(r[0] == rest[0]);
        if rest.len() > 1 {
            assert(r[1] == rest[1]);
        } else if rest.last() != style.separator() {
            assert(r[1] == style.separator());
        }
    }
}

/// The components of a joined path are those of the first path and then those of the second. A
/// verbatim path is nothing but a prefix if nothing follows.
pub proof fn law_join_appends_components(style: PathStyle, a: Seq<char>, b: Seq<char>)
    requires
        joins(style, a, b),
        has_verbatim_prefix(style, a) ==> below_prefix(style, a).len() > 0,
    ensures
        components(style, join_path(style, a, b)) == components(style, a) + components_among(
            false,
            split(b, style.separator()),
        ),
{
    let q = join_path(style, a, b);
    let names = components_among(false, split(b, style.separator()));
    lemma_join_keeps_prefix(style, a, b);
    lemma_join_keeps_lead(style, a, b);
    lemma_join_appends(style, a, b);
    assert(components(style, q) =~= components(style, a) + names);
}

/// The components behind the prefix and the root of a joined path.
pub proof fn lemma_join_appends(style: PathStyle, a: Seq<char>, b: Seq<char>)
    requires
        joins(style, a, b),
    ensures
        body(style, join_path(style, a, b)) == body(style, a) + components_among(
            false,
            split(b, style.separator()),
        ),
{
    let sep = style.separator();
    let q = join_path(style, a, b);
    let rest = below_prefix(style, a);
    let v = has_verbatim_prefix(style, a);
    let names = components_among(false, split(b, sep));
    lemma_join_keeps_prefix(style, a, b);
    lemma_prefix(style, a);
    lemma_nothing_has_no_components(v, sep);
    lemma_nothing_has_no_components(false, sep);
    if v && b.len() > 0 {
        lemma_components_are_pieces(false, split(b, sep));
        law_join_undoes_split(b, sep);
        assert forall|k: int| 0 <= k < names.len() implies is_component(false, #[trigger] names[k])
            && !names[k].contains(sep) by {
            let pieces = split(b, sep);
            let m = choose|m: int| 0 <= m < pieces.len() && pieces[m] == names[k];
            assert(!pieces[m].contains(sep));
        }
        let all = body(style, a) + names;
        lemma_verbatim_body(style, a, names);
        lemma_components_behind(v, join(all, sep), sep);
    } else if v {
        assert(b =~= Seq::empty());
        lemma_components_of_text(v, rest, b, sep);
    } else if is_bare_drive(style, a) {
        assert(rest =~= Seq::empty());
    } else if rest.len() > 0 {
        lemma_components_of_text(v, rest, b, sep);
    } else {
        assert(rest =~= Seq::empty());
        assert(rest.push(sep) + b =~= seq![sep] + b);
        lemma_components_behind(v, b, sep);
    }
    assert(body(style, q) =~= body(style, a) + names);
}

/// The components of a verbatim path and names, joined and split again.
proof fn lemma_verbatim_body(style: PathStyle, a: Seq<char>, names: Seq<Seq<char>>)
    requires
        has_verbatim_prefix(style, a),
        forall|k: int|
            0 <= k < names.len() ==> is_component(false, #[trigger] names[k]) && !names[k].contains(
                style.separator(),
            ),
    ensures
        ({
            let all = body(style, a) + names;
            let sep = style.separator();
            &&& components_among(true, split(join(all, sep), sep)) == all
            &&& all.len() > 0 ==> split(join(all, sep), sep) == all
            &&& forall|k: int|
                0 <= k < all.len() ==> is_component(true, #[trigger] all[k]) && !all[k].contains(sep)
        }),
{
    let sep = style.separator();
    let all = body(style, a) + names;
    let rest = below_prefix(style, a);
    let pieces = split(rest, sep);
    lemma_components_are_pieces(true, pieces);
    law_join_undoes_split(rest, sep);
    assert forall|k: int| 0 <= k < all.len() implies is_component(true, #[trigger] all[k]) && !all[k].contains(
        sep,
    ) by {
        if k < body(style, a).len() {
            assert(all[k] == body(style, a)[k]);
            let m = choose|m: int| 0 <= m < pieces.len() && pieces[m] == all[k];
            assert(!pieces[m].contains(sep));
        } else {
            assert(all[k] == names[k - body(style, a).len()]);
        }
    }
    if all.len() > 0 {
        law_split_undoes_join(all, sep);
        lemma_all_components(true, all);
    } else {
        lemma_nothing_has_no_components(true, sep);
        assert(all =~= Seq::empty());
    }
}

/// Names that lead down are the components of the path that they make.
pub proof fn law_names_are_components(style: PathStyle, parts: Seq<Seq<char>>)
    requires
        leads_down(style, parts),
    ensures
        ({
            let sep = style.separator();
            let p = join(parts, sep);
            &&& components_among(false, split(p, sep)) == parts
            &&& components(style, p) == parts
            &&& prefix(style, p) == Prefix::Absent
            &&& !is_rooted(style, p)
            &&& p.len() == 0 <==> parts.len() == 0
            &&& parts.len() > 0 ==> split(p, sep) == parts && p.last() != sep
            &&& !parts.contains(seq!['.', '.'])
        }),
{
    let sep = style.separator();
    let p = join(parts, sep);
    if parts.contains(seq!['.', '.']) {
        let k = choose|k: int| 0 <= k < parts.len() && parts[k] == seq!['.', '.'];
        assert(is_name(style, parts[k]));
    }
    if parts.len() > 0 {
        assert forall|k: int| 0 <= k < parts.len() implies is_component(false, #[trigger] parts[k])
            && !parts[k].contains(sep) by {
            assert(is_name(style, parts[k]));
        }
        law_split_undoes_join(parts, sep);
        lemma_all_components(false, parts);
        lemma_join_starts(parts, sep);
        let first = parts[0];
        assert(is_name(style, first));
        assert(first.contains(first[0]));
        assert(p[0] == first[0]);
        if first.len() > 1 {
            assert(first.contains(first[1]));
            assert(p[1] == first[1]);
        } else if first[0] == '.' {
            assert(first =~= seq!['.']);
        }
        assert(!drive_at(first, 0) || style == PathStyle::Unix) by {
            reveal(prefix);
        }
        let last = parts[parts.len() - 1];
        assert(is_name(style, last));
        assert(last.contains(last.last()));
        assert(p.last() == last.last());
    } else {
        lemma_nothing_has_no_components(false, sep);
        assert(parts =~= Seq::empty());
    }
    lemma_no_prefix(style, p);
    assert(components(style, p) =~= parts);
}

/// A join begins with its first piece, and then a separator, if there are more.
proof fn lemma_join_starts(pieces: Seq<Seq<char>>, sep: char)
    requires
        pieces.len() > 0,
    ensures
        pieces[0].len() <= join(pieces, sep).len(),
        forall|k: int| 0 <= k < pieces[0].len() ==> join(pieces, sep)[k] == pieces[0][k],
        pieces.len() == 1 ==> join(pieces, sep).len() == pieces[0].len(),
        pieces.len() > 1 ==> {
            &&& join(pieces, sep).len() > pieces[0].len()
            &&& join(pieces, sep)[pieces[0].len() as int] == sep
        },
    decreases pieces.len(),
{
    if pieces.len() > 1 {
        lemma_join_starts(pieces.drop_last(), sep);
    }
}

/// What stands before the other components of a path with these pieces behind its prefix.
spec fn lead_of(style: PathStyle, absent: bool, pieces: Seq<Seq<char>>) -> Seq<char> {
    if pieces.len() > 1 && pieces[0].len() == 0 {
        seq![style.separator()]
    } else if absent && pieces[0] == seq!['.'] {
        seq!['.']
    } else {
        Seq::empty()
    }
}

spec fn without(pieces: Seq<Seq<char>>, sep: char) -> bool {
    forall|k: int| 0 <= k < pieces.len() ==> !(#[trigger] pieces[k]).contains(sep)
}

proof fn lemma_lead(style: PathStyle, p: Seq<char>, pieces: Seq<Seq<char>>)
    requires
        pieces.len() > 0,
        without(pieces, style.separator()),
        below_prefix(style, p) == join(pieces, style.separator()),
    ensures
        lead(style, p) == lead_of(style, prefix(style, p) == Prefix::Absent, pieces),
        split(below_prefix(style, p), style.separator()) == pieces,
{
    let sep = style.separator();
    let rest = below_prefix(style, p);
    let first = pieces[0];
    lemma_join_starts(pieces, sep);
    law_split_undoes_join(pieces, sep);
    assert(!first.contains(sep));
    if first.len() > 0 {
        assert(first.contains(first[0]));
        assert(rest[0] == first[0]);
        if first.len() > 1 {
            assert(first.contains(first[1]));
            assert(rest[1] == first[1]);
            assert(first != seq!['.']);
        } else if first[0] == '.' {
            assert(first =~= seq!['.']);
        } else {
            assert(first != seq!['.']) by {
                assert(seq!['.'][0] == '.');
            }
        }
    }
}

/// Whether pieces begin as those of a path do: neither a prefix nor the root comes or goes if they take
/// their place.
spec fn begin_alike(style: PathStyle, p: Seq<char>, others: Seq<Seq<char>>) -> bool {
    let pieces = split(below_prefix(style, p), style.separator());
    let absent = prefix(style, p) == Prefix::Absent;
    &&& 0 < others.len() <= pieces.len()
    &&& without(others, style.separator())
    &&& lead_of(style, absent, others) == lead_of(style, absent, pieces)
    &&& others[0] == pieces[0] || (others[0].len() > 0 && pieces[0].len() > 0 && (absent ==> is_settled(
        style,
        others[0],
    ) && prefix(style, others[0]) == Prefix::Absent))
    &&& others[0].len() == 0 ==> others.len() > 1 && (others[1].len() > 0 || others[1] == pieces[1])
}

/// A path made of the prefix of a settled path and other pieces that begin as its pieces do has the
/// same prefix.
proof fn lemma_other_prefix(style: PathStyle, p: Seq<char>, others: Seq<Seq<char>>)
    requires
        is_settled(style, p),
        begin_alike(style, p, others),
    ensures
        ({
            let q = prefix_text(style, p) + join(others, style.separator());
            &&& prefix(style, q) == prefix(style, p)
            &&& prefix_text(style, q) == prefix_text(style, p)
            &&& prefix_component(style, q) == prefix_component(style, p)
            &&& has_verbatim_prefix(style, q) == has_verbatim_prefix(style, p)
            &&& below_prefix(style, q) == join(others, style.separator())
        }),
{
    let sep = style.separator();
    let new = join(others, sep);
    let q = prefix_text(style, p) + new;
    let n = prefix_len(style, p);
    lemma_prefix(style, p);
    assert(q.take(n) =~= prefix_text(style, p));
    if prefix(style, p) == Prefix::Absent {
        assert(q =~= new);
        if style == PathStyle::Windows {
            law_join_undoes_split(p, sep);
            lemma_other_start(style, p, split(p, sep), others);
        }
    } else if prefix(style, p) != Prefix::Drive {
        lemma_other_root(style, p, others);
        assert(q[n] == new[0]);
    }
    lemma_same_prefix(style, p, q);
    assert(below_prefix(style, q) =~= new);
}

proof fn lemma_other_root(style: PathStyle, p: Seq<char>, others: Seq<Seq<char>>)
    requires
        begin_alike(style, p, others),
        below_prefix(style, p).len() > 0 ==> is_rooted(style, below_prefix(style, p)),
    ensures
        is_rooted(style, join(others, style.separator())),
{
    let sep = style.separator();
    let rest = below_prefix(style, p);
    let pieces = split(rest, sep);
    law_join_undoes_split(rest, sep);
    lemma_join_starts(others, sep);
    lemma_join_starts(pieces, sep);
    assert(!pieces[0].contains(sep));
    if pieces[0].len() > 0 {
        assert(rest[0] == pieces[0][0]);
        assert(pieces[0].contains(pieces[0][0]));
    }
}

/// A path made of the prefix of a settled path and other pieces that begin as its pieces do.
proof fn lemma_other_pieces(style: PathStyle, p: Seq<char>, others: Seq<Seq<char>>)
    requires
        is_settled(style, p),
        begin_alike(style, p, others),
    ensures
        ({
            let q = prefix_text(style, p) + join(others, style.separator());
            &&& prefix_text(style, q) == prefix_text(style, p)
            &&& has_verbatim_prefix(style, q) == has_verbatim_prefix(style, p)
            &&& split(below_prefix(style, q), style.separator()) == others
            &&& lead(style, q) == lead(style, p)
            &&& components(style, q) == prefix_component(style, p) + lead_component(style, p) + components_among(
                has_verbatim_prefix(style, p),
                others,
            )
        }),
{
    let rest = below_prefix(style, p);
    let q = prefix_text(style, p) + join(others, style.separator());
    law_join_undoes_split(rest, style.separator());
    lemma_other_prefix(style, p, others);
    lemma_lead(style, p, split(rest, style.separator()));
    lemma_lead(style, q, others);
}

proof fn lemma_other_start(style: PathStyle, p: Seq<char>, pieces: Seq<Seq<char>>, others: Seq<Seq<char>>)
    requires
        style == PathStyle::Windows,
        prefix(style, p) == Prefix::Absent,
        is_settled(style, p),
        0 < others.len() <= pieces.len(),
        p == join(pieces, style.separator()),
        without(pieces, style.separator()),
        without(others, style.separator()),
        others[0] == pieces[0] || (others[0].len() > 0 && pieces[0].len() > 0 && is_settled(style, others[0])
            && prefix(style, others[0]) == Prefix::Absent),
        others[0].len() == 0 ==> others.len() > 1 && (others[1].len() > 0 || others[1] == pieces[1]),
    ensures
        !may_become_share(join(others, style.separator())),
        !drive_at(join(others, style.separator()), 0),
{
    let sep = style.separator();
    let q = join(others, sep);
    reveal(prefix);
    lemma_join_starts(others, sep);
    lemma_join_starts(pieces, sep);
    let first = others[0];
    assert(!first.contains(sep));
    if first.len() == 0 {
        lemma_join_second(others, sep);
        assert(!others[1].contains(sep));
        if others[1].len() > 0 {
            assert(others[1].contains(others[1][0]));
        } else {
            lemma_join_second(pieces, sep);
        }
    } else {
        assert(first.contains(first[0]));
        assert(q[0] == first[0]);
        if first.len() > 1 {
            assert(first.contains(first[1]));
            assert(q[1] == first[1]);
            if first == pieces[0] {
                assert(p[0] == first[0] && p[1] == first[1]);
            }
        } else if first == pieces[0] {
            assert(p[0] == first[0]);
        }
    }
}

/// A join whose first piece is empty begins with a separator and then its second piece.
proof fn lemma_join_second(pieces: Seq<Seq<char>>, sep: char)
    requires
        pieces.len() > 1,
        pieces[0].len() == 0,
    ensures
        join(pieces, sep).len() > 0,
        join(pieces, sep)[0] == sep,
        pieces[1].len() > 0 ==> join(pieces, sep).len() > 1 && join(pieces, sep)[1] == pieces[1][0],
        pieces[1].len() == 0 && pieces.len() == 2 ==> join(pieces, sep).len() == 1,
        pieces[1].len() == 0 && pieces.len() > 2 ==> join(pieces, sep).len() > 1 && join(pieces, sep)[1] == sep,
    decreases pieces.len(),
{
    let before = pieces.drop_last();
    if pieces.len() > 2 {
        lemma_join_second(before, sep);
        assert(before[0] == pieces[0] && before[1] == pieces[1]);
    } else {
        lemma_join_starts(before, sep);
        assert(before[0] == pieces[0]);
        assert(join(before, sep) =~= Seq::empty());
    }
    assert(join(pieces, sep) =~= join(before, sep).push(sep) + pieces.last());
}

proof fn lemma_components_end(verbatim: bool, pieces: Seq<Seq<char>>, n: int)
    requires
        0 <= n <= pieces.len(),
    ensures
        components_among(verbatim, pieces.take(n)) == components_among(
            verbatim,
            pieces.take(last_component(verbatim, pieces, n) + 1),
        ),
    decreases n,
{
    lemma_last_component(verbatim, pieces, n);
    if n > 0 && !is_component(verbatim, pieces[n - 1]) {
        assert(pieces.take(n).drop_last() =~= pieces.take(n - 1));
        lemma_components_end(verbatim, pieces, n - 1);
    }
}

/// The components among the pieces of a path are those before the last and the last.
proof fn lemma_last_of_pieces(verbatim: bool, pieces: Seq<Seq<char>>)
    ensures
        ({
            let i = last_component(verbatim, pieces, pieces.len() as int);
            let j = last_component(verbatim, pieces, i);
            &&& -1 <= i < pieces.len()
            &&& i < 0 ==> components_among(verbatim, pieces) == Seq::<Seq<char>>::empty()
            &&& i >= 0 ==> {
                &&& -1 <= j < i
                &&& is_component(verbatim, pieces[i])
                &&& components_among(verbatim, pieces) == components_among(verbatim, pieces.take(i)).push(pieces[i])
                &&& components_among(verbatim, pieces.take(i)) == components_among(verbatim, pieces.take(j + 1))
            }
        }),
{
    let i = last_component(verbatim, pieces, pieces.len() as int);
    lemma_last_component(verbatim, pieces, pieces.len() as int);
    lemma_components_end(verbatim, pieces, pieces.len() as int);
    assert(pieces.take(pieces.len() as int) =~= pieces);
    if i >= 0 {
        lemma_last_component(verbatim, pieces, i);
        lemma_components_end(verbatim, pieces, i);
        assert(pieces.take(i + 1).drop_last() =~= pieces.take(i));
    } else {
        assert(pieces.take(0) =~= Seq::empty());
    }
}

/// The parent of a path has the components of the path but the last. Only a path without other
/// components than its prefix and the root has none.
pub proof fn law_parent_drops_the_last_component(style: PathStyle, p: Seq<char>)
    requires
        is_settled(style, p),
    ensures
        match parent(style, p) {
            Some(dir) => components(style, p).len() > 0 && components(style, dir) == components(
                style,
                p,
            ).drop_last(),
            None => body(style, p).len() == 0 && lead(style, p) != seq!['.'],
        },
{
    let sep = style.separator();
    let v = has_verbatim_prefix(style, p);
    let rest = below_prefix(style, p);
    let pieces = split(rest, sep);
    law_join_undoes_split(rest, sep);
    lemma_last_of_pieces(v, pieces);
    lemma_prefix(style, p);
    let i = last_component(v, pieces, pieces.len() as int);
    let j = last_component(v, pieces, i);
    if i >= 0 && j >= 0 {
        let upper = pieces.take(j + 1);
        lemma_last_component(v, pieces, i);
        assert forall|k: int| 0 <= k < upper.len() implies !(#[trigger] upper[k]).contains(sep) by {
            assert(upper[k] == pieces[k]);
        }
        assert(upper[0] == pieces[0]);
        assert(upper[j] == pieces[j]);
        assert(begin_alike(style, p, upper)) by {
            if j >= 1 {
                assert(upper[1] == pieces[1]);
            }
        }
        lemma_other_pieces(style, p, upper);
        assert(components(style, parent(style, p)->0) =~= components(style, p).drop_last());
    } else if i >= 0 {
        lemma_components_of_lead(style, p);
        assert(pieces.take(0) =~= Seq::empty());
        assert(components(style, parent(style, p)->0) =~= components(style, p).drop_last());
    } else if lead(style, p) == seq!['.'] {
        let none = Seq::<char>::empty();
        lemma_no_prefix(style, none);
        lemma_nothing_has_no_components(false, sep);
        assert(components(style, none) =~= Seq::empty());
        assert(seq![sep][0] == sep && seq!['.'][0] == '.');
        assert(components(style, p) =~= seq![seq!['.']]);
        assert(components(style, none) =~= components(style, p).drop_last());
    }
}

/// The prefix of a settled path and what stands before the other components are a path.
proof fn lemma_components_of_lead(style: PathStyle, p: Seq<char>)
    requires
        is_settled(style, p),
    ensures
        components(style, prefix_text(style, p) + lead(style, p)) == prefix_component(style, p) + lead_component(
            style,
            p,
        ),
{
    let sep = style.separator();
    let top = lead(style, p);
    let q = prefix_text(style, p) + top;
    let n = prefix_len(style, p);
    let pieces = split(top, sep);
    lemma_prefix(style, p);
    assert(q.take(n) =~= prefix_text(style, p));
    if top.len() > 0 {
        assert(q[n] == top[0]);
    }
    if prefix(style, p) == Prefix::Absent {
        assert(q =~= top);
    }
    lemma_same_prefix(style, p, q);
    assert(below_prefix(style, q) =~= top);
    reveal_with_fuel(components_among, 3);
    reveal_with_fuel(split, 2);
    if top.len() == 0 {
        lemma_nothing_has_no_components(has_verbatim_prefix(style, p), sep);
        assert(top =~= Seq::empty());
    } else {
        assert(top.drop_last() =~= Seq::empty());
        if top == seq![sep] {
            assert(pieces =~= seq![Seq::<char>::empty(), Seq::<char>::empty()]);
        } else {
            assert(pieces =~= seq![seq!['.']]);
        }
        assert(components_among(has_verbatim_prefix(style, p), pieces) =~= Seq::empty());
    }
    assert(components(style, q) =~= prefix_component(style, p) + lead_component(style, p));
}

proof fn lemma_last_component_agrees(verbatim: bool, a: Seq<Seq<char>>, b: Seq<Seq<char>>, n: int)
    requires
        0 <= n <= a.len(),
        n <= b.len(),
        forall|k: int| 0 <= k < n ==> a[k] == b[k],
    ensures
        last_component(verbatim, a, n) == last_component(verbatim, b, n),
    decreases n,
{
    if n > 0 {
        lemma_last_component_agrees(verbatim, a, b, n - 1);
    }
}

/// What the copy of a file is called.
spec fn copy_name(style: PathStyle, p: Seq<char>) -> Seq<char> {
    if has_no_backup(style, p) {
        seq!['.', '.']
    } else {
        backup_name(file_name(style, p)->0)
    }
}

proof fn lemma_backup_name(style: PathStyle, name: Seq<char>)
    requires
        is_component(false, name),
        !name.contains(style.separator()),
    ensures
        is_component(false, backup_name(name)),
        !backup_name(name).contains(style.separator()),
        !name.contains('/') ==> !backup_name(name).contains('/'),
        backup_name(name) != seq!['.', '.'],
        backup_name(name) != name,
        backup_name(name).len() >= 4,
        backup_name(name)[0] == name[0],
        drive_at(backup_name(name), 0) <==> drive_at(name, 0),
        style == PathStyle::Windows ==> !begins_with_two(backup_name(name)),
{
    reveal_strlit("bak");
    reveal_strlit(".bak");
    let copy = backup_name(name);
    assert forall|k: int| 0 <= k < copy.len() implies copy[k] != style.separator() by {
        if k < name.len() {
            assert(copy[k] == name[k]);
            assert(name.contains(name[k]));
        }
    }
    assert forall|k: int| !name.contains('/') && 0 <= k < copy.len() implies copy[k] != '/' by {
        if k < name.len() {
            assert(copy[k] == name[k]);
            assert(name.contains(name[k]));
        }
    }
    assert(copy.len() > name.len());
    if name.len() >= 2 {
        assert(copy[0] == name[0] && copy[1] == name[1]);
    } else {
        assert(copy[1] != ':');
    }
}

/// A name of a copy, in the place of the first piece of a path without a prefix, is settled.
proof fn lemma_copy_is_settled(style: PathStyle, p: Seq<char>, name: Seq<char>, copy: Seq<char>)
    requires
        is_settled(style, p),
        prefix(style, p) == Prefix::Absent,
        is_component(false, name),
        !name.contains(style.separator()),
        p.len() >= name.len(),
        forall|k: int| 0 <= k < name.len() ==> p[k] == name[k],
        copy == seq!['.', '.'] || copy == backup_name(name),
    ensures
        is_settled(style, copy),
        prefix(style, copy) == Prefix::Absent,
{
    lemma_backup_name(style, name);
    assert(p[0] == name[0]);
    if name.len() > 1 {
        assert(p[1] == name[1]);
    }
    let dots = seq!['.', '.'];
    assert(dots.len() == 2 && dots[0] == '.' && dots[1] == '.');
    if style == PathStyle::Windows {
        assert(!drive_at(p, 0)) by {
            reveal(prefix);
        }
    }
    lemma_no_prefix(style, copy);
}

/// The path of a copy begins as the path of its file does.
proof fn lemma_renamed_begins_alike(style: PathStyle, p: Seq<char>)
    requires
        is_settled(style, p),
        file_name(style, p) is Some,
    ensures
        ({
            let pieces = split(below_prefix(style, p), style.separator());
            let i = last_component(has_verbatim_prefix(style, p), pieces, pieces.len() as int);
            begin_alike(style, p, pieces.take(i).push(copy_name(style, p)))
        }),
{
    let sep = style.separator();
    let rest = below_prefix(style, p);
    let v = has_verbatim_prefix(style, p);
    let pieces = split(rest, sep);
    law_join_undoes_split(rest, sep);
    lemma_last_of_pieces(v, pieces);
    let i = last_component(v, pieces, pieces.len() as int);
    let name = pieces[i];
    assert(!name.contains(sep));
    lemma_backup_name(style, name);
    let copy = copy_name(style, p);
    let dots = seq!['.', '.'];
    assert(dots.len() == 2 && dots[0] == '.' && dots[1] == '.');
    assert(seq!['.'].len() == 1);
    let renamed = pieces.take(i).push(copy);
    assert(without(renamed, sep)) by {
        assert forall|k: int| 0 <= k < renamed.len() implies !(#[trigger] renamed[k]).contains(sep) by {
            if k < i {
                assert(renamed[k] == pieces[k]);
            }
        }
    }
    if i == 0 {
        assert(renamed[0] == copy);
        lemma_join_starts(pieces, sep);
        lemma_prefix(style, p);
        if prefix(style, p) == Prefix::Absent {
            lemma_copy_is_settled(style, p, name, copy);
        }
    } else {
        assert(renamed[0] == pieces[0]);
        if i > 1 {
            assert(renamed[1] == pieces[1]);
        }
    }
}

/// The backup of a file stands beside it, under another name, where there is a place for it.
pub proof fn law_backup_stands_beside_its_file(style: PathStyle, p: Seq<char>)
    requires
        is_settled(style, p),
        file_name(style, p) is Some,
    ensures
        parent(style, backup_path(style, p)) == parent(style, p),
        !has_no_backup(style, p) ==> {
            let name = backup_name(file_name(style, p)->0);
            &&& file_name(style, backup_path(style, p)) == Some(name)
            &&& file_name(style, backup_path(style, p)) != file_name(style, p)
            &&& components(style, backup_path(style, p)) == components(style, p).drop_last().push(name)
        },
        has_no_backup(style, p) ==> components(style, backup_path(style, p)) == components(
            style,
            p,
        ).drop_last().push(seq!['.', '.']),
        backup_path(style, p) != p,
{
    let sep = style.separator();
    let rest = below_prefix(style, p);
    let v = has_verbatim_prefix(style, p);
    let pieces = split(rest, sep);
    law_join_undoes_split(rest, sep);
    lemma_last_of_pieces(v, pieces);
    lemma_renamed_begins_alike(style, p);
    let i = last_component(v, pieces, pieces.len() as int);
    let j = last_component(v, pieces, i);
    let name = pieces[i];
    assert(!name.contains(sep));
    lemma_backup_name(style, name);
    let copy = copy_name(style, p);
    let dots = seq!['.', '.'];
    assert(dots.len() == 2 && dots[0] == '.' && dots[1] == '.');
    let renamed = pieces.take(i).push(copy);
    lemma_other_pieces(style, p, renamed);
    assert(renamed[i] == copy);
    lemma_last_component_agrees(v, pieces, renamed, i);
    assert(renamed.take(j + 1) =~= pieces.take(j + 1));
    assert(renamed.drop_last() =~= pieces.take(i));
    let q = backup_path(style, p);
    assert(last_component(v, renamed, renamed.len() as int) == i);
    assert(components(style, q) =~= components(style, p).drop_last().push(copy));
    assert(copy != name) by {
        if has_no_backup(style, p) {
            assert(pieces[pieces.len() - 1] == name) by {
                assert(pieces.last()[0] == '.' && pieces.last().len() > 2);
                assert(is_component(v, pieces.last()));
            }
        }
    }
    if q == p {
        assert(renamed == pieces);
        assert(renamed[i] == pieces[i]);
    }
}

proof fn lemma_join_of_two(x: Seq<Seq<char>>, y: Seq<Seq<char>>, sep: char)
    requires
        x.len() > 0,
        y.len() > 0,
    ensures
        join(x + y, sep) == join(x, sep).push(sep) + join(y, sep),
    decreases y.len(),
{
    assert((x + y).drop_last() =~= x + y.drop_last());
    if y.len() == 1 {
        assert(x + y.drop_last() =~= x);
    } else {
        lemma_join_of_two(x, y.drop_last(), sep);
        assert(join(x + y, sep) =~= join(x, sep).push(sep) + join(y, sep));
    }
}

proof fn lemma_nth_component(verbatim: bool, x: Seq<Seq<char>>, y: Seq<Seq<char>>, i: int)
    requires
        0 <= i <= x.len(),
        y.len() > 0,
        is_component(verbatim, y[0]),
    ensures
        nth_component(verbatim, x + y, components_among(verbatim, x.skip(i)).len() as int, i) == x.len(),
    decreases x.len() - i,
{
    if i < x.len() {
        let one = seq![x[i]];
        lemma_components_of_two(verbatim, one, x.skip(i + 1));
        assert(one + x.skip(i + 1) =~= x.skip(i));
        assert(one.drop_last() =~= Seq::empty());
        reveal_with_fuel(components_among, 2);
        lemma_nth_component(verbatim, x, y, i + 1);
    } else {
        assert(x.skip(i) =~= Seq::empty());
        assert((x + y)[i] == y[0]);
    }
}

proof fn lemma_nth_past_the_end(verbatim: bool, pieces: Seq<Seq<char>>, m: int, i: int)
    requires
        0 <= i <= pieces.len(),
        m >= components_among(verbatim, pieces.skip(i)).len(),
    ensures
        nth_component(verbatim, pieces, m, i) == pieces.len(),
    decreases pieces.len() - i,
{
    if i < pieces.len() {
        let one = seq![pieces[i]];
        lemma_components_of_two(verbatim, one, pieces.skip(i + 1));
        assert(one + pieces.skip(i + 1) =~= pieces.skip(i));
        assert(one.drop_last() =~= Seq::empty());
        reveal_with_fuel(components_among, 2);
        lemma_nth_past_the_end(
            verbatim,
            pieces,
            if is_component(verbatim, pieces[i]) {
                m - 1
            } else {
                m
            },
            i + 1,
        );
    }
}

/// Whether a path leads to a directory and can stand before names: it is settled, does not end with a
/// separator, and is more than a drive or a verbatim prefix.
pub open spec fn is_base(style: PathStyle, base: Seq<char>) -> bool {
    &&& base.len() > 0
    &&& base.last() != style.separator()
    &&& is_settled(style, base)
    &&& components(style, base).len() > 0
    &&& below_prefix(style, base).len() > 0 || prefix(style, base) == Prefix::Share || prefix(style, base)
        == Prefix::Device
}

/// The pieces of a base, as they stand before the names that are joined to it.
spec fn pieces_of(style: PathStyle, base: Seq<char>) -> Seq<Seq<char>> {
    if has_verbatim_prefix(style, base) {
        seq![Seq::<char>::empty()] + body(style, base)
    } else {
        split(below_prefix(style, base), style.separator())
    }
}

proof fn lemma_pieces_of(style: PathStyle, base: Seq<char>)
    ensures
        components_among(has_verbatim_prefix(style, base), pieces_of(style, base)) == body(style, base),
        pieces_of(style, base).len() > 0,
{
    let sep = style.separator();
    law_join_undoes_split(below_prefix(style, base), sep);
    if has_verbatim_prefix(style, base) {
        let one = seq![Seq::<char>::empty()];
        let all = body(style, base);
        lemma_components_of_two(true, one, all);
        assert(one.drop_last() =~= Seq::empty());
        reveal_with_fuel(components_among, 2);
        lemma_components_are_pieces(true, split(below_prefix(style, base), sep));
        lemma_all_components(true, all);
        assert(components_among(true, one) + all =~= all);
    }
}

/// Names joined to a base stand behind its pieces.
proof fn lemma_pieces_below(style: PathStyle, base: Seq<char>, parts: Seq<Seq<char>>)
    requires
        is_base(style, base),
        leads_down(style, parts),
        parts.len() > 0,
    ensures
        ({
            let sep = style.separator();
            let q = join_path(style, base, join(parts, sep));
            let pieces = pieces_of(style, base) + parts;
            &&& joins(style, base, join(parts, sep))
            &&& split(below_prefix(style, q), sep) == pieces
            &&& q == prefix_text(style, base) + join(pieces, sep)
        }),
{
    let sep = style.separator();
    let relative = join(parts, sep);
    let rest = below_prefix(style, base);
    let x = pieces_of(style, base);
    let r = joined_rest(style, base, relative);
    law_names_are_components(style, parts);
    lemma_pieces_of(style, base);
    lemma_prefix(style, base);
    lemma_join_keeps_prefix(style, base, relative);
    lemma_join_text(style, base, relative);
    if rest.len() > 0 {
        assert(rest.last() == base.last());
    }
    if has_verbatim_prefix(style, base) {
        let all = body(style, base) + parts;
        let one = seq![Seq::<char>::empty()];
        assert forall|k: int| 0 <= k < parts.len() implies is_component(false, #[trigger] parts[k])
            && !parts[k].contains(sep) by {
            assert(is_name(style, parts[k]));
        }
        lemma_verbatim_body(style, base, parts);
        lemma_components_behind(true, join(all, sep), sep);
        assert(one + all =~= x + parts);
        lemma_join_of_two(one, all, sep);
        assert(join(one, sep).push(sep) + join(all, sep) =~= r);
    } else {
        law_split_of_two_texts(rest, relative, sep);
        law_join_undoes_split(rest, sep);
        lemma_join_of_two(x, parts, sep);
    }
}

/// A path made of a base and names has as much before its other components as the base.
proof fn lemma_before_names(style: PathStyle, base: Seq<char>, parts: Seq<Seq<char>>)
    requires
        is_base(style, base),
        leads_down(style, parts),
    ensures
        ({
            let p = join_path(style, base, join(parts, style.separator()));
            &&& prefix_component(style, p) == prefix_component(style, base)
            &&& lead_component(style, p) == lead_component(style, base)
            &&& has_verbatim_prefix(style, p) == has_verbatim_prefix(style, base)
            &&& body(style, p) == body(style, base) + parts
            &&& starts_with(style, p, base)
        }),
{
    let relative = join(parts, style.separator());
    let p = join_path(style, base, relative);
    law_names_are_components(style, parts);
    lemma_prefix(style, base);
    law_join_appends_components(style, base, relative);
    lemma_join_keeps_prefix(style, base, relative);
    lemma_join_keeps_lead(style, base, relative);
    lemma_join_appends(style, base, relative);
    assert(components(style, base) =~= components(style, p).subrange(
        0,
        components(style, base).len() as int,
    ));
}

/// The path from a base to what stands below it is the path that was joined to the base.
pub proof fn law_strip_undoes_join(style: PathStyle, base: Seq<char>, parts: Seq<Seq<char>>)
    requires
        is_base(style, base),
        leads_down(style, parts),
    ensures
        strip_prefix(style, join_path(style, base, join(parts, style.separator())), base) == Some(
            join(parts, style.separator()),
        ),
{
    let sep = style.separator();
    let v = has_verbatim_prefix(style, base);
    let p = join_path(style, base, join(parts, sep));
    let x = pieces_of(style, base);
    let pieces = split(below_prefix(style, p), sep);
    let m = body(style, base).len() as int;
    lemma_before_names(style, base, parts);
    if parts.len() > 0 {
        lemma_pieces_below(style, base, parts);
        lemma_pieces_of(style, base);
        assert(x.skip(0) =~= x);
        assert(is_name(style, parts[0]) && is_name(style, parts[parts.len() - 1]));
        lemma_nth_component(v, x, parts, 0);
        assert(pieces.last() == parts.last());
        assert(last_component(v, pieces, pieces.len() as int) == pieces.len() - 1);
        assert(pieces.subrange(x.len() as int, pieces.len() as int) =~= parts);
    } else {
        assert(pieces.skip(0) =~= pieces);
        lemma_nth_past_the_end(v, pieces, m, 0);
        lemma_last_component(v, pieces, pieces.len() as int);
    }
}

/// What the last of these names becomes in the path of a backup.
spec fn renamed(parts: Seq<Seq<char>>) -> Seq<Seq<char>> {
    parts.drop_last().push(
        if is_dots_and_extension(parts.last()) {
            seq!['.', '.']
        } else {
            backup_name(parts.last())
        },
    )
}

/// The backup of a path whose pieces end with a name.
proof fn lemma_backup_of_pieces(style: PathStyle, p: Seq<char>, x: Seq<Seq<char>>, parts: Seq<Seq<char>>)
    requires
        parts.len() > 0,
        is_name(style, parts.last()),
        split(below_prefix(style, p), style.separator()) == x + parts,
    ensures
        has_no_backup(style, p) == is_dots_and_extension(parts.last()),
        file_name(style, p) == Some(parts.last()),
        backup_path(style, p) == prefix_text(style, p) + join(x + renamed(parts), style.separator()),
{
    let v = has_verbatim_prefix(style, p);
    let pieces = x + parts;
    assert(pieces.last() == parts.last());
    assert(pieces[pieces.len() - 1] == parts.last());
    assert(last_component(v, pieces, pieces.len() as int) == pieces.len() - 1);
    assert(pieces.take(pieces.len() - 1).push(renamed(parts).last()) =~= x + renamed(parts));
}

/// The names of the backup of a file with names that lead down do so too.
proof fn lemma_renamed(style: PathStyle, parts: Seq<Seq<char>>)
    requires
        leads_down(style, parts),
        parts.len() > 0,
    ensures
        leads_down(style, parts.drop_last().push(backup_name(parts.last()))),
{
    let name = parts.last();
    assert(parts[parts.len() - 1] == name);
    assert(is_name(style, name));
    lemma_backup_name(style, name);
    let copy = parts.drop_last().push(backup_name(name));
    assert(prefix(style, backup_name(name)) == Prefix::Absent) by {
        assert(name.contains(name[0]));
        if style == PathStyle::Windows {
            assert(!drive_at(name, 0)) by {
                reveal(prefix);
                if name.len() > 1 {
                    assert(name.contains(name[1]));
                }
            }
        }
        lemma_no_prefix(style, backup_name(name));
    }
    assert forall|k: int| 0 <= k < copy.len() implies is_name(style, #[trigger] copy[k]) by {
        if k < parts.len() - 1 {
            assert(copy[k] == parts[k]);
        }
    }
}

/// The backup of a file below a base is named below the base as the file is.
pub proof fn law_backup_below_a_base(style: PathStyle, base: Seq<char>, parts: Seq<Seq<char>>)
    requires
        is_base(style, base),
        leads_down(style, parts),
        parts.len() > 0,
    ensures
        ({
            let relative = join(parts, style.separator());
            let p = join_path(style, base, relative);
            let copy = parts.drop_last().push(backup_name(parts.last()));
            &&& has_no_backup(style, relative) == is_dots_and_extension(parts.last())
            &&& has_no_backup(style, p) == is_dots_and_extension(parts.last())
            &&& file_name(style, relative) == Some(parts.last())
            &&& file_name(style, p) == Some(parts.last())
            &&& leads_down(style, copy)
            &&& !is_dots_and_extension(parts.last()) ==> {
                &&& backup_path(style, relative) == join(copy, style.separator())
                &&& backup_path(style, p) == join_path(style, base, backup_path(style, relative))
            }
        }),
{
    let sep = style.separator();
    let relative = join(parts, sep);
    let p = join_path(style, base, relative);
    let x = pieces_of(style, base);
    let copy = parts.drop_last().push(backup_name(parts.last()));
    assert(is_name(style, parts[parts.len() - 1]));
    law_names_are_components(style, parts);
    lemma_prefix(style, relative);
    lemma_renamed(style, parts);
    let none = Seq::<Seq<char>>::empty();
    assert(none + parts =~= parts);
    assert(none + renamed(parts) =~= renamed(parts));
    lemma_backup_of_pieces(style, relative, none, parts);
    assert(Seq::<char>::empty() + join(renamed(parts), sep) =~= join(renamed(parts), sep));
    lemma_pieces_below(style, base, parts);
    lemma_join_keeps_prefix(style, base, relative);
    lemma_backup_of_pieces(style, p, x, parts);
    lemma_pieces_below(style, base, copy);
}

/// A path that has components besides its prefix and what stands before the others ends with the last
/// of them, and has a parent.
pub proof fn lemma_last_name(style: PathStyle, p: Seq<char>)
    requires
        body(style, p).len() > 0,
    ensures
        parent(style, p) is Some,
        components(style, p).len() > 0,
        components(style, p).last() != seq!['.', '.'] && components(style, p).last() != seq!['.'] ==> file_name(
            style,
            p,
        ) == Some(components(style, p).last()),
        is_component(has_verbatim_prefix(style, p), components(style, p).last()),
        !components(style, p).last().contains(style.separator()),
{
    let rest = below_prefix(style, p);
    let pieces = split(rest, style.separator());
    let v = has_verbatim_prefix(style, p);
    let i = last_component(v, pieces, pieces.len() as int);
    law_join_undoes_split(rest, style.separator());
    lemma_last_of_pieces(v, pieces);
    assert(!pieces[i].contains(style.separator()));
}

/// Whether a text is a single name that leads down from every settled path.
pub open spec fn is_single_name(style: PathStyle, name: Seq<char>) -> bool {
    &&& is_component(false, name)
    &&& !name.contains(style.separator())
    &&& name != seq!['.', '.']
    &&& prefix(style, name) == Prefix::Absent
    &&& is_settled(style, name)
}

proof fn lemma_single_name(style: PathStyle, name: Seq<char>)
    requires
        is_single_name(style, name),
    ensures
        components_among(false, split(name, style.separator())) == seq![name],
        !is_rooted(style, name),
{
    let sep = style.separator();
    assert(name.contains(name[0]));
    lemma_split_of_one_piece(name, sep);
    reveal_with_fuel(components_among, 2);
    assert(seq![name].drop_last() =~= Seq::empty());
    assert(components_among(false, seq![name]) =~= seq![name]);
}

/// A name, joined to a settled path, leads to a base. So every path on Unix has bases below it, and
/// every path on Windows that does not end before its prefix is complete.
pub proof fn law_name_below_settled_path_is_base(style: PathStyle, root: Seq<char>, name: Seq<char>)
    requires
        is_settled(style, root),
        is_single_name(style, name),
    ensures
        is_base(style, join_path(style, root, name)),
        root.len() > 0 ==> joins(style, root, name) && body(style, join_path(style, root, name)) == body(
            style,
            root,
        ).push(name),
{
    let sep = style.separator();
    let q = join_path(style, root, name);
    lemma_single_name(style, name);
    assert(name.contains(name.last()));
    lemma_prefix(style, name);
    if root.len() == 0 {
        lemma_no_prefix(style, root);
        assert(q =~= name);
        assert(body(style, q) == seq![name]);
    } else {
        let names = seq![name];
        if names.contains(seq!['.', '.']) {
            assert(names[0] == seq!['.', '.']);
        }
        lemma_join_keeps_prefix(style, root, name);
        lemma_join_text(style, root, name);
        lemma_join_appends(style, root, name);
        assert(body(style, root) + names =~= body(style, root).push(name));
        let r = joined_rest(style, root, name);
        assert(r.len() > 0 && r.last() == name.last()) by {
            let all = body(style, root) + names;
            assert(all.drop_last() =~= body(style, root));
            assert(all.last() == name);
        }
        assert(q.last() == r.last());
    }
    assert(components(style, q).len() > 0);
}

/// A name, joined to a base.
pub proof fn lemma_name_below_base(style: PathStyle, base: Seq<char>, name: Seq<char>)
    requires
        is_base(style, base),
        is_single_name(style, name),
    ensures
        is_base(style, join_path(style, base, name)),
        components(style, join_path(style, base, name)) == components(style, base).push(name),
{
    lemma_single_name(style, name);
    lemma_prefix(style, base);
    law_name_below_settled_path_is_base(style, base, name);
    law_join_appends_components(style, base, name);
    assert(components(style, base) + seq![name] =~= components(style, base).push(name));
}

/// The component of a drive is like no other first component.
pub proof fn lemma_drive_component(style: PathStyle, p: Seq<char>, q: Seq<char>)
    requires
        prefix(style, p) == Prefix::Drive,
        components(style, q).len() > 0,
        components(style, q)[0] == components(style, p)[0],
    ensures
        prefix(style, q) == Prefix::Drive,
{
    reveal(prefix_key);
    lemma_prefix(style, p);
    let key = components(style, p)[0];
    assert(key == prefix_key(style, p));
    assert(key.len() == 3 && key[0] == '\\' && key[1] == 'd');
    if prefix(style, q) == Prefix::Absent {
        let pieces = split(below_prefix(style, q), style.separator());
        if lead_component(style, q).len() == 0 {
            lemma_components_are_pieces(has_verbatim_prefix(style, q), pieces);
            law_join_undoes_split(below_prefix(style, q), style.separator());
            assert(body(style, q)[0] == key);
            let m = choose|m: int| 0 <= m < pieces.len() && pieces[m] == key;
            assert(!pieces[m].contains(style.separator()));
            assert(key.contains(key[0]));
        }
    } else {
        assert(components(style, q)[0] == prefix_key(style, q));
        assert(prefix_key(style, q)[1] == 'd');
    }
}

/// The canonical path of a text that begins with no slash has none on Windows, unless it has a prefix or
/// starts at the root.
pub proof fn lemma_canonical_holds_no_slash(style: PathStyle, s: Seq<char>)
    requires
        style == PathStyle::Windows,
        s.len() > 0 ==> s[0] != '/',
        prefix(style, canonical(style, s)) == Prefix::Absent,
        !is_rooted(style, canonical(style, s)),
    ensures
        !canonical(style, s).contains('/'),
{
    let p = canonical(style, s);
    let q = replace(s, '/', '\\');
    reveal(prefix);
    if is_verbatim(s) {
        assert(is_rooted(style, p));
    } else if is_verbatim(q) {
        if q.len() > 4 && q[4] != '\\' {
            reveal_with_fuel(next_backslash, 2);
            assert(next_backslash(p, 2) == 3);
            lemma_next_backslash(p, 5);
            assert(names_share(p));
        } else {
            assert(is_rooted(style, p));
        }
    } else {
        assert forall|i: int| 0 <= i < p.len() implies p[i] != '/' by {}
    }
}

/// Making a canonical path canonical changes nothing.
pub proof fn law_canonical_again_changes_nothing(style: PathStyle, p: Seq<char>)
    ensures
        canonical(style, canonical(style, p)) == canonical(style, p),
{
    if style == PathStyle::Windows {
        let c = canonical(style, p);
        let q = replace(p, '/', '\\');
        if is_verbatim(p) {
            assert(is_verbatim(c));
            assert(canonical_verbatim(c) =~= c);
        } else if is_bare_question(p) {
            assert(is_bare_question(c));
            assert(replace(c, '/', '\\').update(0, '/') =~= c);
        } else if !is_verbatim(q) {
            assert(replace(c, '/', '\\') =~= c);
        } else if q.len() > 4 && q[4] != '\\' {
            assert(replace(c, '/', '\\') =~= q);
        } else {
            assert(c[1] == q[2]);
            assert(replace(c, '/', '\\') =~= c);
        }
    }
}

/// What a name makes of a canonical path is canonical.
pub proof fn law_name_below_canonical_path_is_canonical(style: PathStyle, a: Seq<char>, name: Seq<char>)
    requires
        canonical(style, a) == a,
        is_name(style, name),
    ensures
        canonical(style, join_path(style, a, name)) == join_path(style, a, name),
{
    let q = join_path(style, a, name);
    assert(name.contains(name[0]));
    lemma_prefix(style, a);
    if style == PathStyle::Windows && is_verbatim(a) {
        lemma_name_below_canonical_verbatim(style, a, name);
    } else if style == PathStyle::Windows {
        let other = replace(a, '/', '\\');
        assert forall|i: int| 0 <= i < name.len() implies name[i] != '/' && name[i] != '\\' by {
            assert(name.contains(name[i]));
        }
        assert(a != other.skip(1) || other.len() == 0);
        assert(q.take(a.len() as int) =~= a);
        assert forall|k: int| 0 <= k < a.len() implies q[k] == a[k] by {
            assert(q.take(a.len() as int)[k] == a[k]);
        }
        assert forall|k: int| a.len() <= k < q.len() implies q[k] != '/' by {}
        if is_bare_question(a) {
            assert(q =~= a.push('\\') + name);
            assert(replace(q, '/', '\\').update(0, '/') =~= q);
        } else if is_verbatim(other) {
            assert(a =~= other.update(0, '/'));
            assert(replace(q, '/', '\\').update(0, '/') =~= q);
        } else {
            assert forall|k: int| 0 <= k < a.len() implies a[k] != '/' by {
                assert(other[k] == a[k]);
            }
            assert(replace(q, '/', '\\') =~= q);
        }
    }
}

proof fn lemma_name_below_canonical_verbatim(style: PathStyle, a: Seq<char>, name: Seq<char>)
    requires
        style == PathStyle::Windows,
        is_verbatim(a),
        canonical(style, a) == a,
        is_name(style, name),
    ensures
        canonical(style, join_path(style, a, name)) == join_path(style, a, name),
{
    let q = join_path(style, a, name);
    let n = prefix_len(style, a);
    let names = body(style, a).push(name);
    lemma_prefix(style, a);
    assert(name.contains(name[0]));
    lemma_single_name(style, name);
    let one = seq![name];
    if one.contains(seq!['.', '.']) {
        assert(one[0] == seq!['.', '.']);
    }
    lemma_walk(body(style, a), one);
    assert(body(style, a) + one =~= names);
    assert(q == prefix_text(style, a) + seq!['\\'] + join(names, '\\'));
    assert(forall|k: int| 0 <= k < n ==> q[k] == a[k]);
    assert(q[n] == '\\');
    assert(n >= 4 && (prefix(style, a) == Prefix::VerbatimShare ==> n >= 8)) by {
        reveal(prefix);
        reveal(prefix_len);
        lemma_next_backslash(a, 4);
        lemma_next_backslash(a, 8);
        lemma_next_backslash(a, next_backslash(a, 8) + 1);
    }
    assert(unc_at_four(q) ==> q[7] != '/') by {
        if unc_at_four(q) && n > 7 {
            assert(q[7] == a[7] && q[4] == a[4] && q[5] == a[5] && q[6] == a[6]);
            assert(a != a.update(7, '\\') || a[7] == '\\') by {
                assert(a.update(7, '\\')[7] == '\\');
            }
        }
    }
    assert(drive_at(q, 4) && q.len() > 6 ==> q[6] != '/') by {
        if drive_at(q, 4) && n > 6 {
            assert(q[6] == a[6] && q[4] == a[4] && q[5] == a[5]);
            assert(a != a.update(6, '\\') || a[6] == '\\') by {
                assert(a.update(6, '\\')[6] == '\\');
            }
        }
    }
}

/// A text that is not empty has a component.
pub proof fn lemma_has_components(style: PathStyle, p: Seq<char>)
    requires
        p.len() > 0,
    ensures
        components(style, p).len() > 0,
{
    if prefix(style, p) == Prefix::Absent {
        lemma_plain_path_has_components(style, p);
    }
}

proof fn lemma_plain_path_has_components(style: PathStyle, p: Seq<char>)
    requires
        p.len() > 0,
        prefix(style, p) == Prefix::Absent,
    ensures
        components(style, p).len() > 0,
{
    let sep = style.separator();
    lemma_prefix(style, p);
    let pieces = split(p, sep);
    law_join_undoes_split(p, sep);
    lemma_lead(style, p, pieces);
    if lead(style, p).len() == 0 {
        lemma_join_starts(pieces, sep);
        let one = seq![pieces[0]];
        assert(one + pieces.skip(1) =~= pieces);
        lemma_components_of_two(false, one, pieces.skip(1));
        assert(one.drop_last() =~= Seq::empty());
        reveal_with_fuel(components_among, 2);
        assert(components_among(false, one).len() == 1);
    }
}

/// The first component of a path with a prefix is the first of no path without one.
proof fn lemma_prefix_component(style: PathStyle, p: Seq<char>, q: Seq<char>)
    requires
        p.len() > 0,
        prefix(style, p) == Prefix::Absent,
        prefix(style, q) != Prefix::Absent,
    ensures
        components(style, p).len() > 0,
        components(style, p)[0] != components(style, q)[0],
{
    reveal(prefix_key);
    lemma_prefix(style, p);
    lemma_prefix(style, q);
    lemma_has_components(style, p);
    let key = components(style, q)[0];
    assert(key == prefix_key(style, q));
    assert(key.len() >= 2 && key[0] == '\\');
    if lead_component(style, p).len() == 0 && components(style, p)[0] == key {
        let pieces = split(below_prefix(style, p), style.separator());
        lemma_components_are_pieces(has_verbatim_prefix(style, p), pieces);
        law_join_undoes_split(below_prefix(style, p), style.separator());
        assert(body(style, p)[0] == key);
        let m = choose|m: int| 0 <= m < pieces.len() && pieces[m] == key;
        assert(!pieces[m].contains(style.separator()));
        assert(key.contains(key[0]));
    }
}

/// Names that lead down, joined to a path, never climb: where the result begins with the components of
/// the path, no `..` comes behind them, and the last of the names comes last.
pub proof fn law_names_never_climb(style: PathStyle, base: Seq<char>, parts: Seq<Seq<char>>)
    requires
        base.len() > 0,
        base.last() != style.separator(),
        leads_down(style, parts),
        starts_with(style, join_path(style, base, join(parts, style.separator())), base),
    ensures
        ({
            let q = join_path(style, base, join(parts, style.separator()));
            forall|k: int|
                components(style, base).len() <= k < components(style, q).len() ==> #[trigger] components(
                    style,
                    q,
                )[k] != seq!['.', '.']
        }),
        parts.len() > 0 ==> {
            let all = body(style, join_path(style, base, join(parts, style.separator())));
            all.len() > 0 && all.last() == parts.last()
        },
{
    let sep = style.separator();
    let relative = join(parts, sep);
    let q = join_path(style, base, relative);
    law_names_are_components(style, parts);
    lemma_prefix(style, base);
    let dots = seq!['.', '.'];
    assert(dots.len() == 2 && seq![sep].len() == 1);
    assert forall|k: int| 0 <= k < parts.len() implies #[trigger] parts[k] != dots by {
        assert(is_name(style, parts[k]));
    }
    if joins(style, base, relative) {
        lemma_join_keeps_prefix(style, base, relative);
        lemma_join_appends(style, base, relative);
        if has_verbatim_prefix(style, base) && below_prefix(style, base).len() == 0 {
            lemma_nothing_has_no_components(true, sep);
            assert(below_prefix(style, base) =~= Seq::empty());
            assert(body(style, q) =~= parts);
        } else {
            lemma_join_keeps_lead(style, base, relative);
            law_join_appends_components(style, base, relative);
        }
    } else if is_settled(style, base) {
        lemma_separator_behind(style, base);
    } else if prefix(style, base) == Prefix::Absent {
        lemma_names_behind_open_path(style, base, parts);
    } else if prefix(style, base) == Prefix::VerbatimShare {
        lemma_names_behind_server(style, base, parts);
    } else {
        lemma_names_behind_open_prefix(style, base, parts);
    }
}

/// A separator behind a verbatim prefix.
proof fn lemma_separator_behind(style: PathStyle, base: Seq<char>)
    requires
        is_settled(style, base),
        has_verbatim_prefix(style, base),
        below_prefix(style, base).len() == 0,
        base.len() > 0,
        base.last() != style.separator(),
    ensures
        components(style, join_path(style, base, Seq::empty())).len() == 2,
        components(style, join_path(style, base, Seq::empty()))[1] == seq![style.separator()],
{
    let sep = style.separator();
    let none = Seq::<char>::empty();
    let q = join_path(style, base, none);
    lemma_prefix(style, base);
    lemma_no_prefix(style, none);
    assert(q =~= base.push(sep));
    assert(q.take(prefix_len(style, base)) =~= prefix_text(style, base));
    lemma_same_prefix(style, base, q);
    assert(below_prefix(style, q) =~= seq![sep]);
    lemma_root_alone(style, q);
}

/// A path that is nothing but its prefix and the root.
proof fn lemma_root_alone(style: PathStyle, q: Seq<char>)
    requires
        prefix(style, q) != Prefix::Absent,
        below_prefix(style, q) == seq![style.separator()],
    ensures
        components(style, q).len() == 2,
        components(style, q)[1] == seq![style.separator()],
{
    let sep = style.separator();
    let v = has_verbatim_prefix(style, q);
    lemma_components_behind(v, Seq::empty(), sep);
    lemma_nothing_has_no_components(v, sep);
    assert(seq![sep] + Seq::<char>::empty() =~= seq![sep]);
    assert(body(style, q) =~= Seq::empty());
}

/// Names joined to a path without a prefix, which may have one then.
proof fn lemma_names_behind_open_path(style: PathStyle, base: Seq<char>, parts: Seq<Seq<char>>)
    requires
        prefix(style, base) == Prefix::Absent,
        base.len() > 0,
        base.last() != style.separator(),
        leads_down(style, parts),
        starts_with(style, join_path(style, base, join(parts, style.separator())), base),
    ensures
        components(style, join_path(style, base, join(parts, style.separator()))) == components(style, base)
            + parts,
        body(style, join_path(style, base, join(parts, style.separator()))) == body(style, base) + parts,
{
    let sep = style.separator();
    let relative = join(parts, sep);
    let q = join_path(style, base, relative);
    let head = components(style, base);
    law_names_are_components(style, parts);
    lemma_prefix(style, base);
    lemma_prefix(style, q);
    assert(q =~= base.push(sep) + relative);
    if prefix(style, q) != Prefix::Absent {
        lemma_prefix_component(style, base, q);
        assert(head == components(style, q).subrange(0, head.len() as int));
        assert(head[0] == components(style, q)[0]);
    }
    lemma_components_of_text(false, base, relative, sep);
    assert(q[0] == base[0]);
    if base.len() > 1 {
        assert(q[1] == base[1]);
    } else {
        assert(q[1] == sep);
    }
    assert(components(style, q) =~= head + parts);
}

/// Names joined to a path that is a server without a share.
proof fn lemma_names_behind_server(style: PathStyle, base: Seq<char>, parts: Seq<Seq<char>>)
    requires
        prefix(style, base) == Prefix::VerbatimShare,
        !is_settled(style, base),
        base.last() != style.separator(),
        leads_down(style, parts),
        starts_with(style, join_path(style, base, join(parts, style.separator())), base),
    ensures
        ({
            let q = join_path(style, base, join(parts, style.separator()));
            &&& parts.len() == 0
            &&& components(style, q).len() <= components(style, base).len() || (components(style, q).len() == 2
                && components(style, q)[1] == seq![style.separator()])
        }),
{
    let sep = style.separator();
    let relative = join(parts, sep);
    let q = join_path(style, base, relative);
    let n = prefix_len(style, base);
    let rest = below_prefix(style, base);
    law_names_are_components(style, parts);
    lemma_prefix(style, base);
    assert(style == PathStyle::Windows && is_verbatim(base) && unc_at_four(base) && base[7] == '\\' && n >= 8 && n
        == next_backslash(base, 8) && next_backslash(base, n + 1) <= n + 1) by {
        reveal(prefix);
        reveal(prefix_len);
        lemma_next_backslash(base, 8);
        lemma_next_backslash(base, n + 1);
    }
    lemma_next_backslash(base, 8);
    lemma_next_backslash(base, n + 1);
    if parts.len() > 0 {
        let names = body(style, base) + parts;
        assert forall|k: int| 0 <= k < parts.len() implies is_component(false, #[trigger] parts[k])
            && !parts[k].contains(sep) by {
            assert(is_name(style, parts[k]));
        }
        lemma_verbatim_body(style, base, parts);
        lemma_walk(body(style, base), parts);
        let text = join(names, sep);
        assert(q =~= prefix_text(style, base) + seq![sep] + text);
        lemma_join_starts(names, sep);
        assert(is_component(true, names[0]) && !names[0].contains(sep));
        assert(names[0].contains(names[0][0]));
        assert(q[n] == sep && q[n + 1] == text[0] && text[0] == names[0][0]);
        assert(forall|k: int| 0 <= k < n ==> q[k] == base[k]);
        lemma_next_backslash_agrees(base, q, 8);
        lemma_next_backslash(q, n + 2);
        lemma_next_backslash(q, n + 1);
        assert(next_backslash(q, n + 1) > n + 1);
        lemma_longer_share(style, base, q);
        let head = components(style, base);
        assert(head == components(style, q).subrange(0, head.len() as int));
        assert(head[0] == components(style, q)[0]);
    } else {
        assert(q =~= base.push(sep));
        lemma_separator_behind_server(style, base, q);
    }
}

/// A share is not the server alone.
proof fn lemma_longer_share(style: PathStyle, base: Seq<char>, q: Seq<char>)
    requires
        style == PathStyle::Windows,
        prefix(style, base) == Prefix::VerbatimShare,
        is_verbatim(q),
        unc_at_four(q),
        q[7] == '\\',
        next_backslash(q, 8) == prefix_len(style, base),
        next_backslash(q, prefix_len(style, base) + 1) > prefix_len(style, base) + 1,
        8 <= prefix_len(style, base),
    ensures
        components(style, q)[0] != components(style, base)[0],
{
    reveal(prefix);
    reveal(prefix_len);
    reveal(prefix_key);
    let n = prefix_len(style, base);
    lemma_next_backslash(q, n + 1);
    lemma_prefix(style, base);
    assert(prefix(style, q) == Prefix::VerbatimShare);
    assert(prefix_len(style, q) > n);
    assert(components(style, q)[0] == prefix_key(style, q));
    assert(components(style, base)[0] == prefix_key(style, base));
    assert(prefix_key(style, q).len() == 2 + prefix_len(style, q) - 8);
    assert(prefix_key(style, base).len() == 2 + n - 8);
}

/// A separator behind a server without a share.
proof fn lemma_separator_behind_server(style: PathStyle, base: Seq<char>, q: Seq<char>)
    requires
        style == PathStyle::Windows,
        prefix(style, base) == Prefix::VerbatimShare,
        is_verbatim(base),
        unc_at_four(base),
        base[7] == '\\',
        8 <= prefix_len(style, base) == next_backslash(base, 8),
        next_backslash(base, prefix_len(style, base) + 1) <= prefix_len(style, base) + 1,
        base.last() != '\\',
        q == base.push('\\'),
    ensures
        components(style, q).len() <= components(style, base).len() || (components(style, q).len() == 2
            && components(style, q)[1] == seq!['\\']),
{
    let n = prefix_len(style, base);
    let rest = below_prefix(style, base);
    lemma_prefix(style, base);
    lemma_next_backslash(base, 8);
    lemma_next_backslash(base, n + 1);
    assert(forall|k: int| 0 <= k < base.len() ==> q[k] == base[k]);
    lemma_next_backslash_agrees(base, q, 8);
    assert(next_backslash(q, n + 1) <= n + 1);
    assert(prefix(style, q) == Prefix::VerbatimShare && prefix_len(style, q) == n) by {
        reveal(prefix);
        reveal(prefix_len);
    }
    assert(below_prefix(style, q) =~= rest.push('\\'));
    if rest.len() == 0 {
        assert(below_prefix(style, q) =~= seq!['\\']);
        lemma_root_alone(style, q);
    } else {
        let none = Seq::<char>::empty();
        assert(rest.last() == base.last());
        assert(rest.push('\\') + none =~= rest.push('\\'));
        lemma_components_of_text(true, rest, none, '\\');
        lemma_nothing_has_no_components(true, '\\');
        assert(below_prefix(style, q)[0] == rest[0]);
        assert(body(style, q) =~= body(style, base));
    }
}

/// What is joined to another prefix that is not complete gives it another kind.
proof fn lemma_names_behind_open_prefix(style: PathStyle, base: Seq<char>, parts: Seq<Seq<char>>)
    requires
        !is_settled(style, base),
        prefix(style, base) != Prefix::Absent,
        prefix(style, base) != Prefix::VerbatimShare,
        base.last() != style.separator(),
        leads_down(style, parts),
    ensures
        !starts_with(style, join_path(style, base, join(parts, style.separator())), base),
{
    let relative = join(parts, style.separator());
    let q = join_path(style, base, relative);
    let n = prefix_len(style, base);
    lemma_prefix(style, base);
    assert(prefix(style, base) == Prefix::Verbatim && n == 7 && base.len() == 7 && base[4] == 'U' && base[5] == 'N'
        && base[6] == 'C') by {
        reveal(prefix);
        reveal(prefix_len);
        lemma_next_backslash(base, 4);
    }
    assert(base =~= prefix_text(style, base));
    law_names_are_components(style, parts);
    lemma_walk(body(style, base), parts);
    assert(q.len() >= 8 && q[7] == '\\' && forall|k: int| 0 <= k < 7 ==> q[k] == base[k]);
    let head = components(style, base);
    let all = components(style, q);
    assert(prefix(style, q) == Prefix::VerbatimShare && prefix_key(style, q)[1] == 'x' && prefix_key(style, base)[1]
        == 'v') by {
        reveal(prefix);
        reveal(prefix_key);
    }
    if starts_with(style, q, base) {
        assert(head == all.subrange(0, head.len() as int));
        assert(head[0] == all[0]);
        assert(head[0] == prefix_key(style, base) && all[0] == prefix_key(style, q));
    }
}

/// A path to which a name is joined ends with the name.
pub proof fn lemma_join_ends(style: PathStyle, a: Seq<char>, name: Seq<char>)
    requires
        is_single_name(style, name),
    ensures
        join_path(style, a, name).len() > 0,
        join_path(style, a, name).last() != style.separator(),
{
    let sep = style.separator();
    let q = join_path(style, a, name);
    lemma_single_name(style, name);
    assert(name.contains(name.last()));
    if has_verbatim_prefix(style, a) {
        let one = seq![name];
        if one.contains(seq!['.', '.']) {
            assert(one[0] == seq!['.', '.']);
        }
        lemma_walk(body(style, a), one);
        let all = body(style, a) + one;
        assert(all.drop_last() =~= body(style, a));
        assert(all.last() == name);
        assert(join(all, sep).last() == name.last());
        assert(q.last() == join(all, sep).last());
    } else {
        assert(q.last() == name.last());
    }
}

// ----- What holds of paths, character by character -----

/// The components among pieces are those that are not empty and, but for verbatim paths, not a dot.
pub proof fn law_components_are_the_pieces_with_a_name(verbatim: bool, pieces: Seq<Seq<char>>)
    ensures
        components_among(verbatim, pieces) == pieces.filter(
            |p: Seq<char>| p.len() > 0 && (verbatim || p != seq!['.']),
        ),
    decreases pieces.len(),
{
    reveal(Seq::filter);
    if pieces.len() > 0 {
        law_components_are_the_pieces_with_a_name(verbatim, pieces.drop_last());
    }
}

/// The components of a path on Unix: the root or a dot, if the path begins with one, and then what stands
/// between the slashes and is neither empty nor a dot.
pub proof fn law_unix_components(p: Seq<char>)
    ensures
        components(PathStyle::Unix, p) == (if p.len() > 0 && p[0] == '/' {
            seq![seq!['/']]
        } else if p == seq!['.'] || (p.len() > 1 && p[0] == '.' && p[1] == '/') {
            seq![seq!['.']]
        } else {
            Seq::<Seq<char>>::empty()
        }) + split(p, '/').filter(|x: Seq<char>| x.len() > 0 && x != seq!['.']),
{
    lemma_no_prefix(PathStyle::Unix, p);
    lemma_plain_components(split(p, '/'));
    let first = lead_component(PathStyle::Unix, p);
    assert(prefix_component(PathStyle::Unix, p) + first =~= first);
    if p.len() == 1 && p[0] == '.' {
        assert(p =~= seq!['.']);
    }
    if p == seq!['.'] {
        assert(p[0] == '.' && p.len() == 1);
    }
}

/// Components that stand for themselves are what is neither empty nor a dot.
pub proof fn lemma_plain_components(pieces: Seq<Seq<char>>)
    ensures
        components_among(false, pieces) == pieces.filter(|x: Seq<char>| x.len() > 0 && x != seq!['.']),
    decreases pieces.len(),
{
    reveal(Seq::filter);
    if pieces.len() > 0 {
        lemma_plain_components(pieces.drop_last());
    }
}

/// How paths are joined on Unix: a path from the root replaces the other, and a slash stands between the
/// two where there is none.
pub proof fn law_unix_join(a: Seq<char>, b: Seq<char>)
    ensures
        b.len() > 0 && b[0] == '/' ==> join_path(PathStyle::Unix, a, b) == b,
        !(b.len() > 0 && b[0] == '/') && a.len() == 0 ==> join_path(PathStyle::Unix, a, b) == b,
        !(b.len() > 0 && b[0] == '/') && a.len() > 0 && a.last() == '/' ==> join_path(PathStyle::Unix, a, b) == a + b,
        !(b.len() > 0 && b[0] == '/') && a.len() > 0 && a.last() != '/' ==> join_path(PathStyle::Unix, a, b) == a + seq![
            '/',
        ] + b,
{
    lemma_no_prefix(PathStyle::Unix, a);
    lemma_no_prefix(PathStyle::Unix, b);
    assert(Seq::<char>::empty() + b =~= b);
    if a.len() == 0 {
        assert(a + b =~= b);
    }
    assert(a.push('/') =~= a + seq!['/']);
}

/// A path on Unix is canonical as it is. On Windows a path that does not begin with a separator becomes
/// canonical by making its slashes backslashes.
pub proof fn law_canonical_changes_slashes_only(p: Seq<char>)
    ensures
        canonical(PathStyle::Unix, p) == p,
        p.len() > 0 && p[0] != '/' && p[0] != '\\' ==> {
            let c = canonical(PathStyle::Windows, p);
            c.len() == p.len() && forall|i: int|
                0 <= i < p.len() ==> #[trigger] c[i] == (if p[i] == '/' {
                    '\\'
                } else {
                    p[i]
                })
        },
{
}

/// A path lies in another exactly if its components begin with those of the other.
pub proof fn law_path_lies_in_another_by_components(style: PathStyle, p: Seq<char>, base: Seq<char>)
    ensures
        starts_with(style, p, base) <==> components(style, base).len() <= components(style, p).len() && components(
            style,
            p,
        ).take(components(style, base).len() as int) == components(style, base),
        strip_prefix(style, p, base) is Some <==> starts_with(style, p, base),
{
    let n = components(style, base).len() as int;
    if n <= components(style, p).len() {
        assert(components(style, p).take(n) =~= components(style, p).subrange(0, n));
    }
}

/// The name of a file is the last component of its path, unless that is no name.
pub proof fn law_file_name_is_the_last_component(style: PathStyle, p: Seq<char>)
    ensures
        body(style, p).len() == 0 ==> file_name(style, p) is None,
        body(style, p).len() > 0 ==> {
            let last = components(style, p).last();
            &&& last == body(style, p).last()
            &&& last == seq!['.', '.'] || last == seq!['.'] ==> file_name(style, p) is None
            &&& last != seq!['.', '.'] && last != seq!['.'] ==> file_name(style, p) == Some(last)
        },
{
    let pieces = split(below_prefix(style, p), style.separator());
    lemma_last_of_pieces(has_verbatim_prefix(style, p), pieces);
    if body(style, p).len() > 0 {
        lemma_last_name(style, p);
    }
}

/// The backup of a file is called as the file, with `.bak` behind it; where the name ends with a dot already,
/// no second one is added.
pub proof fn law_backup_is_named_after_its_file(name: Seq<char>, other: Seq<char>)
    requires
        name.len() > 0,
        other.len() > 0,
    ensures
        name.last() != '.' ==> backup_name(name) == name + seq!['.', 'b', 'a', 'k'],
        name.last() == '.' ==> backup_name(name) == name + seq!['b', 'a', 'k'],
        name.last() != '.' && other.last() != '.' && backup_name(name) == backup_name(other) ==> name == other,
{
    reveal_strlit("bak");
    reveal_strlit(".bak");
    assert("bak"@ =~= seq!['b', 'a', 'k']);
    assert(".bak"@ =~= seq!['.', 'b', 'a', 'k']);
    if name.last() != '.' && other.last() != '.' && backup_name(name) == backup_name(other) {
        assert(name =~= backup_name(name).take(name.len() as int));
        assert(other =~= backup_name(other).take(other.len() as int));
        assert(backup_name(name).len() == name.len() + 4 && backup_name(other).len() == other.len() + 4);
    }
}

/// A name has no place for a backup exactly if it is two dots and then more, with no further dot.
pub proof fn law_no_place_beside_dots_and_an_extension(name: Seq<char>)
    ensures
        is_dots_and_extension(name) <==> name.len() > 2 && name[0] == '.' && name[1] == '.' && (forall|k: int|
            2 <= k < name.len() ==> #[trigger] name[k] != '.'),
{
    let rest = name.skip(2);
    if name.len() > 2 {
        if !rest.contains('.') {
            assert forall|k: int| 2 <= k < name.len() implies #[trigger] name[k] != '.' by {
                assert(rest[k - 2] == name[k]);
                assert(rest.contains(rest[k - 2]));
            }
        } else {
            let k = choose|k: int| 0 <= k < rest.len() && rest[k] == '.';
            assert(name[k + 2] == '.');
        }
    }
}

/// What is left of a path on Unix behind a base has the components that come behind those of the base.
pub proof fn law_unix_strip_leaves_the_rest(p: Seq<char>, base: Seq<char>)
    requires
        starts_with(PathStyle::Unix, p, base),
    ensures
        strip_prefix(PathStyle::Unix, p, base) matches Some(rest) && components(PathStyle::Unix, rest) == components(
            PathStyle::Unix,
            p,
        ).skip(components(PathStyle::Unix, base).len() as int),
{
    let style = PathStyle::Unix;
    let n = components(style, base).len() as int;
    assert(components(style, base) == components(style, p).subrange(0, n));
    if n == 0 {
        lemma_unix_trimmed(p);
        assert(components(style, p).skip(0) =~= components(style, p));
    } else {
        lemma_unix_without_first(p, n);
    }
}

/// A path on Unix without what has no meaning at its end has the same components.
proof fn lemma_unix_trimmed(p: Seq<char>)
    ensures
        components(PathStyle::Unix, without_first(PathStyle::Unix, p, 0)) == components(PathStyle::Unix, p),
{
    let style = PathStyle::Unix;
    lemma_no_prefix(style, p);
    let pieces = split(p, '/');
    law_join_undoes_split(p, '/');
    lemma_last_of_pieces(false, pieces);
    lemma_components_end(false, pieces, pieces.len() as int);
    assert(pieces.take(pieces.len() as int) =~= pieces);
    let to = last_component(false, pieces, pieces.len() as int) + 1;
    if to == 0 {
        lemma_components_of_lead(style, p);
        assert(Seq::<char>::empty() + lead(style, p) =~= lead(style, p));
        assert(components(style, p) =~= prefix_component(style, p) + lead_component(style, p));
    } else {
        let kept = pieces.take(to);
        assert forall|k: int| 0 <= k < kept.len() implies !(#[trigger] kept[k]).contains('/') by {
            assert(kept[k] == pieces[k]);
        }
        lemma_lead(style, p, pieces);
        let q = join(kept, '/');
        assert(Seq::<char>::empty() + q =~= q);
        lemma_no_prefix(style, q);
        lemma_lead(style, q, kept);
        assert(kept[0] == pieces[0]);
        assert(kept[to - 1] == pieces[to - 1]);
        assert(components(style, q) =~= components(style, p));
    }
}

proof fn lemma_unix_without_first(p: Seq<char>, n: int)
    requires
        0 < n <= components(PathStyle::Unix, p).len(),
    ensures
        components(PathStyle::Unix, without_first(PathStyle::Unix, p, n)) == components(PathStyle::Unix, p).skip(n),
{
    let style = PathStyle::Unix;
    let all = components(style, p);
    lemma_no_prefix(style, p);
    let pieces = split(p, '/');
    law_join_undoes_split(p, '/');
    lemma_last_of_pieces(false, pieces);
    lemma_components_end(false, pieces, pieces.len() as int);
    assert(pieces.take(pieces.len() as int) =~= pieces);
    let to = last_component(false, pieces, pieces.len() as int) + 1;
    let m = n - lead_component(style, p).len();
    let from = nth_component(false, pieces, m, 0);
    lemma_nth_splits(pieces, m, 0);
    if from < to {
        let kept = pieces.subrange(from, to);
        lemma_unix_kept(pieces, from, to);
        lemma_components_of_two(false, pieces.take(from), kept);
        assert(pieces.take(from) + kept =~= pieces.take(to));
        assert(components_among(false, kept) =~= all.skip(n));
    } else {
        let q = Seq::<char>::empty();
        lemma_no_prefix(style, q);
        lemma_nothing_has_no_components(false, '/');
        assert(components(style, q) =~= Seq::empty());
        lemma_components_of_two(false, pieces.take(to), pieces.subrange(to, from));
        assert(pieces.take(to) + pieces.subrange(to, from) =~= pieces.take(from));
        assert(all.skip(n) =~= Seq::empty());
    }
}

proof fn lemma_unix_kept(pieces: Seq<Seq<char>>, from: int, to: int)
    requires
        0 <= from < to <= pieces.len(),
        is_component(false, pieces[from]),
        forall|k: int| 0 <= k < pieces.len() ==> !(#[trigger] pieces[k]).contains('/'),
    ensures
        components(PathStyle::Unix, join(pieces.subrange(from, to), '/')) == components_among(
            false,
            pieces.subrange(from, to),
        ),
{
    let style = PathStyle::Unix;
    let kept = pieces.subrange(from, to);
    let q = join(kept, '/');
    assert forall|k: int| 0 <= k < kept.len() implies !(#[trigger] kept[k]).contains('/') by {
        assert(kept[k] == pieces[k + from]);
    }
    lemma_no_prefix(style, q);
    lemma_lead(style, q, kept);
    assert(kept[0] == pieces[from]);
    assert(components(style, q) =~= components_among(false, kept));
}

/// Before the component that has `m` components before it there are as many, or all there are.
proof fn lemma_nth_splits(pieces: Seq<Seq<char>>, m: int, i: int)
    requires
        0 <= i <= pieces.len(),
        m >= 0,
    ensures
        ({
            let from = nth_component(false, pieces, m, i);
            &&& i <= from <= pieces.len()
            &&& from < pieces.len() ==> is_component(false, pieces[from]) && components_among(
                false,
                pieces.subrange(i, from),
            ).len() == m
            &&& from == pieces.len() ==> components_among(false, pieces.subrange(i, from)).len() <= m
            &&& i == 0 ==> pieces.subrange(i, from) == pieces.take(from)
        }),
    decreases pieces.len() - i,
{
    let from = nth_component(false, pieces, m, i);
    if i >= pieces.len() {
        assert(pieces.subrange(i, from) =~= Seq::empty());
    } else if is_component(false, pieces[i]) && m == 0 {
        assert(pieces.subrange(i, from) =~= Seq::empty());
    } else {
        let one = seq![pieces[i]];
        lemma_nth_splits(
            pieces,
            if is_component(false, pieces[i]) {
                m - 1
            } else {
                m
            },
            i + 1,
        );
        lemma_components_of_two(false, one, pieces.subrange(i + 1, from));
        assert(one + pieces.subrange(i + 1, from) =~= pieces.subrange(i, from));
        assert(one.drop_last() =~= Seq::empty());
        reveal_with_fuel(components_among, 2);
    }
    assert(i == 0 ==> pieces.subrange(i, from) =~= pieces.take(from));
}

// ----- What holds of prefixes on Windows -----

proof fn lemma_next_backslash_is(p: Seq<char>, from: int, at: int)
    requires
        0 <= from <= at <= p.len(),
        forall|k: int| from <= k < at ==> p[k] != '\\',
        at < p.len() ==> p[at] == '\\',
    ensures
        next_backslash(p, from) == at,
    decreases at - from,
{
    if from < at {
        lemma_next_backslash_is(p, from + 1, at);
    }
}

/// Whether a text can follow a prefix: it is empty or begins with a backslash.
pub open spec fn may_follow(tail: Seq<char>) -> bool {
    tail.len() > 0 ==> tail[0] == '\\'
}

/// Whether a text can name a server, a share or a device: it is not empty and has no backslash in it.
pub open spec fn is_plain_name(name: Seq<char>) -> bool {
    name.len() > 0 && forall|k: int| 0 <= k < name.len() ==> #[trigger] name[k] != '\\'
}

/// Exactly the letters of the alphabet, capital or small, name drives.
pub proof fn law_letters_name_drives(c: char)
    ensures
        is_letter(c) <==> "abcdefghijklmnopqrstuvwxyzABCDEFGHIJKLMNOPQRSTUVWXYZ"@.contains(c),
{
    reveal_strlit("abcdefghijklmnopqrstuvwxyzABCDEFGHIJKLMNOPQRSTUVWXYZ");
    let all = "abcdefghijklmnopqrstuvwxyzABCDEFGHIJKLMNOPQRSTUVWXYZ"@;
    assert(all.len() == 52);
    assert forall|k: int| 0 <= k < 52 implies #[trigger] all[k] as u32 == (if k < 26 {
        97 + k
    } else {
        65 + k - 26
    }) by {}
    if is_letter(c) {
        if 'A' <= c <= 'Z' {
            assert(all[c as u32 - 65 + 26] == c);
        } else {
            assert(all[c as u32 - 97] == c);
        }
    }
    if all.contains(c) {
        let k = choose|k: int| 0 <= k < all.len() && all[k] == c;
        assert(all[k] as u32 == c as u32);
        if k >= 26 {
            assert(ascii_lower(c) as u32 == c as u32 + 32);
        }
    }
}

/// A letter and a colon are a drive, whatever follows. Drives are the same if their letters are, capital or
/// small.
pub proof fn law_windows_drive(c: char, d: char, rest: Seq<char>, other: Seq<char>)
    requires
        is_letter(c),
        is_letter(d),
    ensures
        prefix(PathStyle::Windows, seq![c, ':'] + rest) == Prefix::Drive,
        prefix_text(PathStyle::Windows, seq![c, ':'] + rest) == seq![c, ':'],
        below_prefix(PathStyle::Windows, seq![c, ':'] + rest) == rest,
        prefix_component(PathStyle::Windows, seq![c, ':'] + rest) == prefix_component(
            PathStyle::Windows,
            seq![d, ':'] + other,
        ) <==> ascii_lower(c) == ascii_lower(d),
{
    reveal(prefix);
    reveal(prefix_len);
    reveal(prefix_key);
    let p = seq![c, ':'] + rest;
    let q = seq![d, ':'] + other;
    assert(p[0] == c && p[1] == ':' && q[0] == d && q[1] == ':');
    assert(prefix_text(PathStyle::Windows, p) =~= seq![c, ':']);
    assert(below_prefix(PathStyle::Windows, p) =~= rest);
    let a = prefix_component(PathStyle::Windows, p);
    let b = prefix_component(PathStyle::Windows, q);
    assert(a[0][2] == ascii_lower(c) && b[0][2] == ascii_lower(d));
    if ascii_lower(c) == ascii_lower(d) {
        assert(a[0] =~= b[0]);
        assert(a =~= b);
    }
}

/// The start of the path of a share.
pub open spec fn share_text(server: Seq<char>, share: Seq<char>) -> Seq<char> {
    seq!['\\', '\\'] + server + seq!['\\'] + share
}

proof fn lemma_share(server: Seq<char>, share: Seq<char>, tail: Seq<char>)
    requires
        is_plain_name(server),
        is_plain_name(share),
        server != seq!['.'],
        server != seq!['?'],
        may_follow(tail),
    ensures
        ({
            let p = share_text(server, share) + tail;
            let n = 3 + server.len() + share.len();
            &&& prefix(PathStyle::Windows, p) == Prefix::Share
            &&& prefix_len(PathStyle::Windows, p) == n
            &&& p.subrange(2, n as int) == server + seq!['\\'] + share
        }),
{
    reveal(prefix);
    reveal(prefix_len);
    let p = share_text(server, share) + tail;
    let e = 2 + server.len() as int;
    let n = e + 1 + share.len();
    assert forall|k: int| 2 <= k < e implies p[k] != '\\' by {
        assert(p[k] == server[k - 2]);
    }
    assert(p[e] == '\\');
    assert forall|k: int| e + 1 <= k < n implies p[k] != '\\' by {
        assert(p[k] == share[k - e - 1]);
    }
    if n < p.len() {
        assert(p[n] == tail[0]);
    }
    lemma_next_backslash_is(p, 2, e);
    lemma_next_backslash_is(p, e + 1, n);
    assert(p[0] == '\\' && p[1] == '\\');
    assert(p[2] == server[0]);
    if server.len() == 1 {
        if server[0] == '.' {
            assert(server =~= seq!['.']);
        }
        if server[0] == '?' {
            assert(server =~= seq!['?']);
        }
    } else {
        assert(p[3] == server[1]);
    }
    assert(p.subrange(2, n) =~= server + seq!['\\'] + share);
}

/// Two backslashes, a server, a backslash and a share are a share, whatever follows. Shares are the same if
/// their servers and shares are, letter by letter.
pub proof fn law_windows_share(
    server: Seq<char>,
    share: Seq<char>,
    tail: Seq<char>,
    server2: Seq<char>,
    share2: Seq<char>,
    tail2: Seq<char>,
)
    requires
        is_plain_name(server),
        is_plain_name(share),
        is_plain_name(server2),
        is_plain_name(share2),
        server != seq!['.'] && server != seq!['?'] && server2 != seq!['.'] && server2 != seq!['?'],
        may_follow(tail),
        may_follow(tail2),
    ensures
        prefix(PathStyle::Windows, share_text(server, share) + tail) == Prefix::Share,
        prefix_text(PathStyle::Windows, share_text(server, share) + tail) == share_text(server, share),
        below_prefix(PathStyle::Windows, share_text(server, share) + tail) == tail,
        prefix_component(PathStyle::Windows, share_text(server, share) + tail) == prefix_component(
            PathStyle::Windows,
            share_text(server2, share2) + tail2,
        ) <==> server == server2 && share == share2,
{
    lemma_share(server, share, tail);
    lemma_share(server2, share2, tail2);
    reveal(prefix_key);
    let p = share_text(server, share) + tail;
    let q = share_text(server2, share2) + tail2;
    assert(prefix_text(PathStyle::Windows, p) =~= share_text(server, share));
    assert(below_prefix(PathStyle::Windows, p) =~= tail);
    let x = server + seq!['\\'] + share;
    let y = server2 + seq!['\\'] + share2;
    let a = prefix_component(PathStyle::Windows, p);
    let b = prefix_component(PathStyle::Windows, q);
    assert(a[0] == seq!['\\', 's'] + x && b[0] == seq!['\\', 's'] + y);
    if a == b {
        assert(x =~= a[0].skip(2));
        assert(y =~= b[0].skip(2));
        lemma_names_between(server, share, server2, share2);
    }
    if server == server2 && share == share2 {
        assert(a =~= b);
    }
}

proof fn lemma_names_between(a: Seq<char>, b: Seq<char>, c: Seq<char>, d: Seq<char>)
    requires
        is_plain_name(a),
        is_plain_name(c),
        a + seq!['\\'] + b == c + seq!['\\'] + d,
    ensures
        a == c,
        b == d,
{
    let x = a + seq!['\\'] + b;
    let y = c + seq!['\\'] + d;
    assert(x[a.len() as int] == '\\' && y[c.len() as int] == '\\');
    if a.len() < c.len() {
        assert(y[a.len() as int] == c[a.len() as int]);
    }
    if c.len() < a.len() {
        assert(x[c.len() as int] == a[c.len() as int]);
    }
    assert(a =~= x.take(a.len() as int));
    assert(c =~= y.take(a.len() as int));
    assert(b =~= x.skip(a.len() as int + 1));
    assert(d =~= y.skip(a.len() as int + 1));
}

/// The start of a path with four characters before a name.
spec fn behind_four(mark: char, name: Seq<char>) -> Seq<char> {
    seq!['\\', '\\', mark, '\\'] + name
}

/// Two backslashes, a dot, a backslash and a name are a device.
pub proof fn law_windows_device(name: Seq<char>, tail: Seq<char>, name2: Seq<char>, tail2: Seq<char>)
    requires
        is_plain_name(name),
        is_plain_name(name2),
        may_follow(tail),
        may_follow(tail2),
    ensures
        ({
            let p = seq!['\\', '\\', '.', '\\'] + name + tail;
            let q = seq!['\\', '\\', '.', '\\'] + name2 + tail2;
            &&& prefix(PathStyle::Windows, p) == Prefix::Device
            &&& prefix_text(PathStyle::Windows, p) == seq!['\\', '\\', '.', '\\'] + name
            &&& below_prefix(PathStyle::Windows, p) == tail
            &&& prefix_component(PathStyle::Windows, p) == prefix_component(PathStyle::Windows, q) <==> name == name2
        }),
{
    lemma_behind_four('.', name, tail);
    lemma_behind_four('.', name2, tail2);
    reveal(prefix);
    reveal(prefix_len);
    reveal(prefix_key);
    let p = behind_four('.', name) + tail;
    let q = behind_four('.', name2) + tail2;
    assert(prefix_text(PathStyle::Windows, p) =~= behind_four('.', name));
    assert(below_prefix(PathStyle::Windows, p) =~= tail);
    let a = prefix_component(PathStyle::Windows, p);
    let b = prefix_component(PathStyle::Windows, q);
    assert(a[0] == seq!['\\', 'n'] + name && b[0] == seq!['\\', 'n'] + name2);
    if a == b {
        assert(name =~= a[0].skip(2));
        assert(name2 =~= b[0].skip(2));
    }
    if name == name2 {
        assert(a =~= b);
    }
}

proof fn lemma_behind_four(mark: char, name: Seq<char>, tail: Seq<char>)
    requires
        is_plain_name(name),
        may_follow(tail),
    ensures
        ({
            let p = behind_four(mark, name) + tail;
            let n = 4 + name.len() as int;
            &&& p.len() >= n && p[0] == '\\' && p[1] == '\\' && p[2] == mark && p[3] == '\\'
            &&& next_backslash(p, 4) == n
            &&& p.subrange(4, n) == name
            &&& p.take(n) == behind_four(mark, name)
            &&& p.skip(n) == tail
            &&& forall|k: int| 0 <= k < name.len() ==> p[4 + k] == #[trigger] name[k]
            &&& n < p.len() ==> p[n] == '\\'
        }),
{
    let p = behind_four(mark, name) + tail;
    let n = 4 + name.len() as int;
    assert forall|k: int| 4 <= k < n implies p[k] != '\\' by {
        assert(p[k] == name[k - 4]);
    }
    if n < p.len() {
        assert(p[n] == tail[0]);
    }
    lemma_next_backslash_is(p, 4, n);
    assert(p.subrange(4, n) =~= name);
    assert(p.take(n) =~= behind_four(mark, name));
    assert(p.skip(n) =~= tail);
}

/// A verbatim path with a drive: its drive is the same in capital and small letters.
pub proof fn law_windows_verbatim_drive(c: char, d: char, tail: Seq<char>, tail2: Seq<char>)
    requires
        is_letter(c),
        is_letter(d),
        may_follow(tail),
        may_follow(tail2),
    ensures
        ({
            let p = seq!['\\', '\\', '?', '\\'] + seq![c, ':'] + tail;
            let q = seq!['\\', '\\', '?', '\\'] + seq![d, ':'] + tail2;
            &&& prefix(PathStyle::Windows, p) == Prefix::VerbatimDrive
            &&& prefix_text(PathStyle::Windows, p) == seq!['\\', '\\', '?', '\\'] + seq![c, ':']
            &&& below_prefix(PathStyle::Windows, p) == tail
            &&& prefix_component(PathStyle::Windows, p) == prefix_component(PathStyle::Windows, q) <==> ascii_lower(c)
                == ascii_lower(d)
        }),
{
    let name = seq![c, ':'];
    let name2 = seq![d, ':'];
    lemma_letter_is_plain(c);
    lemma_letter_is_plain(d);
    lemma_behind_four('?', name, tail);
    lemma_behind_four('?', name2, tail2);
    reveal(prefix);
    reveal(prefix_len);
    reveal(prefix_key);
    let p = behind_four('?', name) + tail;
    let q = behind_four('?', name2) + tail2;
    assert(name[0] == c && name[1] == ':' && name2[0] == d && name2[1] == ':');
    assert(p[4] == c && p[5] == ':' && q[4] == d && q[5] == ':');
    let a = prefix_component(PathStyle::Windows, p);
    let b = prefix_component(PathStyle::Windows, q);
    assert(a[0][2] == ascii_lower(c) && b[0][2] == ascii_lower(d));
    if ascii_lower(c) == ascii_lower(d) {
        assert(a[0] =~= b[0]);
        assert(a =~= b);
    }
}

proof fn lemma_letter_is_plain(c: char)
    requires
        is_letter(c),
    ensures
        is_plain_name(seq![c, ':']),
{
    let name = seq![c, ':'];
    assert(ascii_lower('\\') == '\\');
    assert forall|k: int| 0 <= k < name.len() implies #[trigger] name[k] != '\\' by {}
}

/// A verbatim path with another name. Names are compared letter by letter.
pub proof fn law_windows_verbatim_name(name: Seq<char>, tail: Seq<char>, name2: Seq<char>, tail2: Seq<char>)
    requires
        is_plain_name(name),
        is_plain_name(name2),
        !(name.len() == 2 && is_letter(name[0]) && name[1] == ':'),
        !(name2.len() == 2 && is_letter(name2[0]) && name2[1] == ':'),
        name != seq!['U', 'N', 'C'],
        name2 != seq!['U', 'N', 'C'],
        may_follow(tail),
        may_follow(tail2),
    ensures
        ({
            let p = seq!['\\', '\\', '?', '\\'] + name + tail;
            let q = seq!['\\', '\\', '?', '\\'] + name2 + tail2;
            &&& prefix(PathStyle::Windows, p) == Prefix::Verbatim
            &&& prefix_text(PathStyle::Windows, p) == seq!['\\', '\\', '?', '\\'] + name
            &&& below_prefix(PathStyle::Windows, p) == tail
            &&& prefix_component(PathStyle::Windows, p) == prefix_component(PathStyle::Windows, q) <==> name == name2
        }),
{
    lemma_verbatim_name(name, tail);
    lemma_verbatim_name(name2, tail2);
    lemma_behind_four('?', name, tail);
    lemma_behind_four('?', name2, tail2);
    reveal(prefix_key);
    let p = behind_four('?', name) + tail;
    let q = behind_four('?', name2) + tail2;
    let a = prefix_component(PathStyle::Windows, p);
    let b = prefix_component(PathStyle::Windows, q);
    assert(a[0] == seq!['\\', 'v'] + name && b[0] == seq!['\\', 'v'] + name2);
    if a == b {
        assert(name =~= a[0].skip(2));
        assert(name2 =~= b[0].skip(2));
    }
    if name == name2 {
        assert(a =~= b);
    }
}

proof fn lemma_verbatim_name(name: Seq<char>, tail: Seq<char>)
    requires
        is_plain_name(name),
        !(name.len() == 2 && is_letter(name[0]) && name[1] == ':'),
        name != seq!['U', 'N', 'C'],
        may_follow(tail),
    ensures
        prefix(PathStyle::Windows, behind_four('?', name) + tail) == Prefix::Verbatim,
        prefix_len(PathStyle::Windows, behind_four('?', name) + tail) == 4 + name.len(),
{
    reveal(prefix);
    reveal(prefix_len);
    let p = behind_four('?', name) + tail;
    lemma_behind_four('?', name, tail);
    assert(p[4] == name[0]);
    if name.len() > 1 {
        assert(p[5] == name[1]);
    }
    if name.len() > 2 {
        assert(p[6] == name[2]);
    }
    if name.len() > 3 {
        assert(p[7] == name[3]);
    }
    if unc_at_four(p) && p[7] == '\\' {
        assert(ascii_lower('\\') == '\\');
        assert(name.len() == 3);
        assert(name =~= seq!['U', 'N', 'C']);
    }
    if drive_at(p, 4) && (p.len() > 6 ==> p[6] == '\\') {
        assert(ascii_lower('\\') == '\\');
        assert(name.len() == 2);
    }
}

/// A verbatim path with a server and a share.
pub proof fn law_windows_verbatim_share(
    server: Seq<char>,
    share: Seq<char>,
    tail: Seq<char>,
    server2: Seq<char>,
    share2: Seq<char>,
    tail2: Seq<char>,
)
    requires
        is_plain_name(server),
        is_plain_name(share),
        is_plain_name(server2),
        is_plain_name(share2),
        may_follow(tail),
        may_follow(tail2),
    ensures
        ({
            let mark = seq!['\\', '\\', '?', '\\', 'U', 'N', 'C', '\\'];
            let p = mark + (server + seq!['\\'] + share) + tail;
            let q = mark + (server2 + seq!['\\'] + share2) + tail2;
            &&& prefix(PathStyle::Windows, p) == Prefix::VerbatimShare
            &&& prefix_text(PathStyle::Windows, p) == mark + (server + seq!['\\'] + share)
            &&& below_prefix(PathStyle::Windows, p) == tail
            &&& prefix_component(PathStyle::Windows, p) == prefix_component(PathStyle::Windows, q) <==> server == server2
                && share == share2
        }),
{
    lemma_verbatim_share(server, share, tail);
    lemma_verbatim_share(server2, share2, tail2);
    reveal(prefix_key);
    let mark = seq!['\\', '\\', '?', '\\', 'U', 'N', 'C', '\\'];
    let x = server + seq!['\\'] + share;
    let y = server2 + seq!['\\'] + share2;
    let p = mark + x + tail;
    let q = mark + y + tail2;
    assert(prefix_text(PathStyle::Windows, p) =~= mark + x);
    assert(below_prefix(PathStyle::Windows, p) =~= tail);
    let a = prefix_component(PathStyle::Windows, p);
    let b = prefix_component(PathStyle::Windows, q);
    assert(a[0] == seq!['\\', 'x'] + x && b[0] == seq!['\\', 'x'] + y);
    if a == b {
        assert(x =~= a[0].skip(2));
        assert(y =~= b[0].skip(2));
        lemma_names_between(server, share, server2, share2);
    }
    if server == server2 && share == share2 {
        assert(a =~= b);
    }
}

proof fn lemma_verbatim_share(server: Seq<char>, share: Seq<char>, tail: Seq<char>)
    requires
        is_plain_name(server),
        is_plain_name(share),
        may_follow(tail),
    ensures
        ({
            let x = server + seq!['\\'] + share;
            let p = seq!['\\', '\\', '?', '\\', 'U', 'N', 'C', '\\'] + x + tail;
            &&& prefix(PathStyle::Windows, p) == Prefix::VerbatimShare
            &&& prefix_len(PathStyle::Windows, p) == 8 + x.len()
            &&& p.subrange(8, 8 + x.len() as int) == x
        }),
{
    reveal(prefix);
    reveal(prefix_len);
    let mark = seq!['\\', '\\', '?', '\\', 'U', 'N', 'C', '\\'];
    let x = server + seq!['\\'] + share;
    let p = mark + x + tail;
    let e = 8 + server.len() as int;
    let n = 8 + x.len() as int;
    assert(p[0] == '\\' && p[1] == '\\' && p[2] == '?' && p[3] == '\\' && p[4] == 'U' && p[5] == 'N' && p[6] == 'C'
        && p[7] == '\\');
    assert forall|k: int| 8 <= k < e implies p[k] != '\\' by {
        assert(p[k] == server[k - 8]);
    }
    assert(p[e] == '\\');
    assert forall|k: int| e + 1 <= k < n implies p[k] != '\\' by {
        assert(p[k] == share[k - e - 1]);
    }
    if n < p.len() {
        assert(p[n] == tail[0]);
    }
    lemma_next_backslash_is(p, 8, e);
    lemma_next_backslash_is(p, e + 1, n);
    assert(p.subrange(8, n) =~= x);
}

/// Prefixes of different kinds are never the same.
pub proof fn law_kinds_of_prefixes_are_told_apart(p: Seq<char>, q: Seq<char>)
    requires
        prefix(PathStyle::Windows, p) != Prefix::Absent,
        prefix(PathStyle::Windows, q) != Prefix::Absent,
        prefix_component(PathStyle::Windows, p) == prefix_component(PathStyle::Windows, q),
    ensures
        prefix(PathStyle::Windows, p) == prefix(PathStyle::Windows, q),
{
    lemma_kind(p);
    lemma_kind(q);
    let a = prefix_component(PathStyle::Windows, p)[0];
    let b = prefix_component(PathStyle::Windows, q)[0];
    assert(a == prefix_key(PathStyle::Windows, p) && b == prefix_key(PathStyle::Windows, q));
    assert(a[1] == b[1]);
}

proof fn lemma_kind(p: Seq<char>)
    requires
        prefix(PathStyle::Windows, p) != Prefix::Absent,
    ensures
        prefix_key(PathStyle::Windows, p)[1] == (match prefix(PathStyle::Windows, p) {
            Prefix::Drive => 'd',
            Prefix::Share => 's',
            Prefix::Device => 'n',
            Prefix::Verbatim => 'v',
            Prefix::VerbatimDrive => 'w',
            _ => 'x',
        }),
{
    reveal(prefix_key);
}

/// There is no prefix on Unix. On Windows a path without one begins neither with a letter and a colon nor,
/// unless a server or a share is missing, with two separators.
pub proof fn law_other_paths_have_no_prefix(p: Seq<char>)
    ensures
        prefix(PathStyle::Unix, p) == Prefix::Absent,
        p.len() >= 2 && is_letter(p[0]) && p[1] == ':' ==> prefix(PathStyle::Windows, p) == Prefix::Drive,
        p.len() < 2 || (p[1] != ':' && p[1] != '\\') ==> prefix(PathStyle::Windows, p) == Prefix::Absent,
        p.len() >= 2 && !is_letter(p[0]) && p[0] != '\\' && p[0] != '/' ==> prefix(PathStyle::Windows, p)
            == Prefix::Absent,
{
    reveal(prefix);
    assert(ascii_lower('\\') == '\\' && ascii_lower('/') == '/');
}

/// Names that are walked are walked one after the other, and two dots lead back from a name to where it was
/// walked from. From nothing, from a dot and from two dots they lead nowhere.
pub proof fn law_two_dots_lead_back_from_a_name(at: Seq<Seq<char>>, names: Seq<Seq<char>>, name: Seq<char>)
    ensures
        walk(at, Seq::empty()) == at,
        name != seq!['.', '.'] ==> walk(at, names.push(name)) == walk(at, names).push(name),
        name != seq!['.', '.'] && name != seq!['.'] ==> walk(at, names.push(name).push(seq!['.', '.'])) == walk(
            at,
            names,
        ),
        walk(at, names).len() == 0 ==> walk(at, names.push(seq!['.', '.'])) == walk(at, names),
        walk(at, names.push(seq!['.']).push(seq!['.', '.'])) == walk(at, names).push(seq!['.']),
        walk(at.push(seq!['.', '.']), seq![seq!['.', '.']]) == at.push(seq!['.', '.']),
{
    let dots = seq!['.', '.'];
    let dot = seq!['.'];
    assert(dots.len() == 2 && dot.len() == 1);
    assert(names.push(name).drop_last() =~= names);
    assert(names.push(name).push(dots).drop_last() =~= names.push(name));
    assert(names.push(dots).drop_last() =~= names);
    assert(names.push(dot).drop_last() =~= names);
    assert(names.push(dot).push(dots).drop_last() =~= names.push(dot));
    assert(walk(at, names).push(name).drop_last() =~= walk(at, names));
    if name != dots && name != dot {
        let here = walk(at, names.push(name));
        assert(here == walk(at, names).push(name));
        assert(here.last() == name);
        let path = names.push(name).push(dots);
        assert(path.last() == dots);
        assert(walk(at, path) == here.drop_last());
    }
    assert(walk(at, names.push(dot)) == walk(at, names).push(dot));
    let one = seq![dots];
    assert(one.drop_last() =~= Seq::empty());
    assert(walk(at.push(dots), one.drop_last()) == at.push(dots));
}

} // verus!
