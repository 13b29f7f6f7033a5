//! What holds of the workspace: where requests lead, how listings are ordered, and what a write does to
//! the disk.

use vstd::prelude::*;

use crate::handlers::ReplyView;
use crate::path::{
    PathStyle, Prefix, backup_path, below_prefix, body, canonical, components, components_among,
    file_name, has_no_backup, is_component, is_letter, is_rooted, is_verbatim, join_path,
    lead_component, parent, prefix, prefix_text, starts_with,
};
use crate::path_laws::{
    is_base, is_name, is_settled, is_single_name, joins, law_backup_below_a_base,
    law_backup_stands_beside_its_file, law_join_appends_components, law_name_below_settled_path_is_base,
    law_names_are_components, law_names_never_climb, law_parent_drops_the_last_component,
    law_path_lies_in_another_by_components, law_strip_undoes_join, law_unix_join, leads_down,
    lemma_canonical_holds_no_slash, lemma_components_are_pieces, lemma_drive_component,
    lemma_has_components, lemma_join_appends, lemma_join_ends, lemma_join_keeps_lead,
    lemma_join_keeps_prefix, lemma_last_name, lemma_name_below_base, lemma_no_prefix,
    lemma_plain_components, lemma_prefix,
};
use crate::text::{
    decimal, is_digit, is_white_space, join, law_join_undoes_split, law_split_of_two_texts,
    lemma_decimal, lemma_join_holds_no_more, lemma_pieces_hold_no_more, lemma_split_of_one_piece,
    lemma_text_le_total, lemma_text_le_transitive, opt_text, replace, split, text_le, trim,
};
use crate::workspace::{
    DeleteJob, DeleteNextView, DiskAction, DiskEntry, EntryView, FileEntry, FileReadResponse,
    FileWriteResponse, IoErrorKind, IoFailure, ReadView, Target, TargetView, WorkspaceError, WriteJob,
    WriteJobView, WriteNextView, WriteStage, WrittenView, bad, delete_begins, delete_next, denied,
    entry_le, history_directory, history_name, in_order, io_refusal, is_root_name, leads_away, listed,
    listing, named_target_of, normalized, path_of, put_in_order, read_answer, requested_parts,
    requested_path, resolved, skip_slashes, target_of, web_path, web_path_below, workspace_root,
    write_begins,
};

verus! {

// ----- What holds of paths in the workspace -----

/// Whether a name in a request's path begins with a drive. This can be on Windows only, where such
/// a name is seen as it is from everywhere.
pub open spec fn names_a_drive(style: PathStyle, path: Seq<char>) -> bool {
    exists|k: int|
        0 <= k < requested_parts(style, path).len() && prefix(
            style,
            #[trigger] requested_parts(style, path)[k],
        ) == Prefix::Drive
}

/// Whether names are components without a separator, other than `..`.
spec fn are_plain(style: PathStyle, parts: Seq<Seq<char>>) -> bool {
    forall|k: int| 0 <= k < parts.len() ==> is_plain(style, #[trigger] parts[k])
}

spec fn is_plain(style: PathStyle, name: Seq<char>) -> bool {
    is_component(false, name) && !name.contains('/') && !name.contains(style.separator()) && name != seq!['.', '.']
}

/// A plain name can begin with nothing but a drive.
proof fn lemma_plain_prefix(style: PathStyle, name: Seq<char>)
    requires
        is_plain(style, name),
    ensures
        prefix(style, name) == Prefix::Absent || prefix(style, name) == Prefix::Drive,
        prefix(style, name) == Prefix::Absent ==> is_single_name(style, name),
{
    assert(name.contains(name[0]));
    if name.len() > 1 {
        assert(name.contains(name[1]));
    }
    reveal(prefix);
}

proof fn lemma_no_slash_before(s: Seq<char>)
    ensures
        skip_slashes(s).len() > 0 ==> skip_slashes(s)[0] != '/',
    decreases s.len(),
{
    if s.len() > 0 && s[0] == '/' {
        lemma_no_slash_before(s.drop_first());
    }
}

proof fn lemma_requested_parts(style: PathStyle, path: Seq<char>)
    requires
        !leads_away(style, path),
    ensures
        are_plain(style, requested_parts(style, path)),
        !names_a_drive(style, path) ==> leads_down(style, requested_parts(style, path)),
{
    let rest = requested_path(style, path);
    let sep = style.separator();
    let pieces = split(rest, sep);
    let parts = requested_parts(style, path);
    lemma_components_are_pieces(false, pieces);
    law_join_undoes_split(rest, sep);
    if style == PathStyle::Windows {
        lemma_no_slash_before(trim(path));
        lemma_canonical_holds_no_slash(style, skip_slashes(trim(path)));
        lemma_pieces_hold_no_more(rest, sep, '/');
    }
    assert forall|k: int| 0 <= k < parts.len() implies is_plain(style, #[trigger] parts[k]) by {
        assert(parts.contains(parts[k]));
        let m = choose|m: int| 0 <= m < pieces.len() && pieces[m] == parts[k];
        assert(!pieces[m].contains(sep));
    }
    if !names_a_drive(style, path) {
        assert forall|k: int| 0 <= k < parts.len() implies is_name(style, #[trigger] parts[k]) by {
            assert(is_plain(style, parts[k]));
            lemma_plain_prefix(style, parts[k]);
        }
    }
}

proof fn lemma_plain_name(style: PathStyle, name: Seq<char>)
    requires
        is_plain(style, name),
    ensures
        !is_rooted(style, name),
        components_among(false, split(name, style.separator())) == seq![name],
        prefix(style, name) == Prefix::Drive ==> components(style, name).len() <= 2 && lead_component(
            style,
            name,
        ).len() == 0,
{
    let sep = style.separator();
    assert(name.contains(name[0]));
    lemma_split_of_one_piece(name, sep);
    reveal_with_fuel(components_among, 2);
    assert(seq![name].drop_last() =~= Seq::empty());
    assert(components_among(false, split(name, sep)) =~= seq![name]);
    if prefix(style, name) == Prefix::Drive {
        let rest = below_prefix(style, name);
        lemma_prefix(style, name);
        assert(!rest.contains(sep)) by {
            assert forall|i: int| 0 <= i < rest.len() implies rest[i] != sep by {
                assert(rest[i] == name[i + 2]);
                assert(name.contains(name[i + 2]));
            }
        }
        lemma_split_of_one_piece(rest, sep);
        assert(seq![rest].drop_last() =~= Seq::empty());
        if rest.len() > 0 {
            assert(rest.contains(rest[0]));
        }
    }
}

/// The path that plain names make.
proof fn lemma_path_of(style: PathStyle, parts: Seq<Seq<char>>)
    requires
        are_plain(style, parts),
    ensures
        leads_down(style, parts) ==> path_of(style, parts) == join(parts, style.separator()),
        path_of(style, parts).len() == 0 <==> parts.len() == 0,
        !is_rooted(style, path_of(style, parts)),
        prefix(style, path_of(style, parts)) == Prefix::Absent ==> leads_down(style, parts),
        prefix(style, path_of(style, parts)) == Prefix::Absent || prefix(style, path_of(style, parts))
            == Prefix::Drive,
        prefix(style, path_of(style, parts)) == Prefix::Drive ==> {
            let all = components(style, path_of(style, parts));
            &&& lead_component(style, path_of(style, parts)).len() == 0
            &&& forall|k: int| 2 <= k < all.len() ==> #[trigger] all[k] != seq!['.', '.']
        },
    decreases parts.len(),
{
    if parts.len() > 0 {
        let rest = parts.drop_last();
        assert forall|k: int| 0 <= k < rest.len() implies is_plain(style, #[trigger] rest[k]) by {
            assert(rest[k] == parts[k]);
        }
        assert(is_plain(style, parts[parts.len() - 1]));
        lemma_path_of(style, rest);
        lemma_plain_name(style, parts.last());
        lemma_plain_prefix(style, parts.last());
        if prefix(style, parts.last()) == Prefix::Drive {
            if leads_down(style, parts) {
                assert(is_name(style, parts[parts.len() - 1]));
            }
        } else if prefix(style, path_of(style, rest)) == Prefix::Absent {
            lemma_path_of_names(style, parts);
        } else {
            if leads_down(style, parts) {
                assert(leads_down(style, rest)) by {
                    assert forall|k: int| 0 <= k < rest.len() implies is_name(style, #[trigger] rest[k]) by {
                        assert(rest[k] == parts[k]);
                    }
                }
                law_names_are_components(style, rest);
            }
            lemma_path_behind_drive(style, path_of(style, rest), parts.last());
        }
    } else {
        lemma_no_prefix(style, path_of(style, parts));
    }
}

proof fn lemma_path_of_names(style: PathStyle, parts: Seq<Seq<char>>)
    requires
        parts.len() > 0,
        are_plain(style, parts),
        leads_down(style, parts.drop_last()),
        path_of(style, parts.drop_last()) == join(parts.drop_last(), style.separator()),
        prefix(style, parts.last()) == Prefix::Absent,
    ensures
        leads_down(style, parts),
        path_of(style, parts) == join(parts, style.separator()),
        path_of(style, parts).len() > 0,
        prefix(style, path_of(style, parts)) == Prefix::Absent,
        !is_rooted(style, path_of(style, parts)),
{
    let rest = parts.drop_last();
    let before = path_of(style, rest);
    assert(is_plain(style, parts[parts.len() - 1]));
    lemma_plain_name(style, parts.last());
    assert forall|k: int| 0 <= k < parts.len() implies is_name(style, #[trigger] parts[k]) by {
        if k < rest.len() {
            assert(is_name(style, rest[k]));
        }
    }
    law_names_are_components(style, rest);
    law_names_are_components(style, parts);
    lemma_prefix(style, before);
    assert(path_of(style, parts) =~= join(parts, style.separator()));
}

/// A name joined to a path with a drive.
proof fn lemma_path_behind_drive(style: PathStyle, before: Seq<char>, name: Seq<char>)
    requires
        prefix(style, before) == Prefix::Drive,
        !is_rooted(style, before),
        lead_component(style, before).len() == 0,
        forall|k: int|
            2 <= k < components(style, before).len() ==> #[trigger] components(style, before)[k] != seq!['.', '.'],
        is_plain(style, name),
        prefix(style, name) == Prefix::Absent,
    ensures
        ({
            let q = join_path(style, before, name);
            &&& prefix(style, q) == Prefix::Drive
            &&& q.len() > 0
            &&& !is_rooted(style, q)
            &&& lead_component(style, q).len() == 0
            &&& forall|k: int|
                2 <= k < components(style, q).len() ==> #[trigger] components(style, q)[k] != seq!['.', '.']
        }),
{
    let q = join_path(style, before, name);
    lemma_plain_name(style, name);
    lemma_prefix(style, before);
    lemma_join_keeps_prefix(style, before, name);
    lemma_join_keeps_lead(style, before, name);
    law_join_appends_components(style, before, name);
    lemma_prefix(style, q);
    let all = components(style, q);
    let some = components(style, before);
    assert(all == some.push(name)) by {
        assert(some + seq![name] =~= some.push(name));
    }
    assert forall|k: int| 2 <= k < all.len() implies #[trigger] all[k] != seq!['.', '.'] by {
        if k < some.len() {
            assert(all[k] == some[k]);
        }
    }
}

/// The path that a request's path means has only names that lead down, where no name begins with a
/// drive.
pub proof fn law_normalized_path_leads_down(style: PathStyle, path: Seq<char>)
    requires
        normalized(style, path) is Some,
        !names_a_drive(style, path),
    ensures
        leads_down(style, requested_parts(style, path)),
        normalized(style, path) == Some(join(requested_parts(style, path), style.separator())),
        components(style, normalized(style, path)->0) == requested_parts(style, path),
{
    lemma_requested_parts(style, path);
    lemma_path_of(style, requested_parts(style, path));
    law_names_are_components(style, requested_parts(style, path));
}

/// Whether a directory of the workspace can hold files: on Windows a root that ends before its prefix
/// is complete, such as `\\`, has none.
pub open spec fn holds_files(style: PathStyle, root: Seq<char>, root_name: Seq<char>) -> bool {
    is_root_name(root_name) ==> is_base(style, join_path(style, root, root_name))
}

proof fn lemma_root_name(style: PathStyle, root_name: Seq<char>)
    requires
        is_root_name(root_name),
    ensures
        is_single_name(style, root_name),
        root_name.len() >= 4,
{
    reveal_strlit("scripts");
    reveal_strlit("templates");
    reveal_strlit("logs");
    assert(root_name.len() >= 4 && root_name[0] != '.' && root_name[1] != ':' && !root_name.contains('/')
        && !root_name.contains('\\'));
    assert(root_name.contains(root_name[0]) && root_name.contains(root_name[1]));
    assert(seq!['.'][0] == '.' && seq!['.', '.'][0] == '.');
    lemma_no_prefix(style, root_name);
}

/// The directories of a workspace with a settled root can hold files.
pub proof fn law_settled_root_holds_files(style: PathStyle, root: Seq<char>, root_name: Seq<char>)
    requires
        is_settled(style, root),
    ensures
        holds_files(style, root, root_name),
{
    if is_root_name(root_name) {
        lemma_root_name(style, root_name);
        law_name_below_settled_path_is_base(style, root, root_name);
    }
}

/// A directory on a drive has its name besides the drive.
proof fn lemma_directory_on_drive(style: PathStyle, root: Seq<char>, root_name: Seq<char>)
    requires
        is_root_name(root_name),
        prefix(style, join_path(style, root, root_name)) == Prefix::Drive,
    ensures
        components(style, join_path(style, root, root_name)).len() >= 2,
{
    let base = join_path(style, root, root_name);
    lemma_root_name(style, root_name);
    assert(root_name.contains(root_name[0]) && root_name.contains(root_name[1]));
    lemma_prefix(style, root);
    lemma_prefix(style, base);
    reveal_strlit("scripts");
    reveal_strlit("templates");
    reveal_strlit("logs");
    assert(prefix(style, root) == Prefix::Drive) by {
        reveal(prefix);
        lemma_join_begins(style, root, root_name);
    }
    law_name_below_settled_path_is_base(style, root, root_name);
    lemma_join_keeps_prefix(style, root, root_name);
}

/// A joined path begins as the first path does, unless the second has a prefix.
proof fn lemma_join_begins(style: PathStyle, root: Seq<char>, root_name: Seq<char>)
    requires
        is_single_name(style, root_name),
    ensures
        ({
            let q = join_path(style, root, root_name);
            &&& root.len() == 0 ==> q == root_name
            &&& root.len() == 1 ==> q.len() > 1 && q[0] == root[0] && (root[0] == style.separator() || q[1]
                == style.separator())
            &&& root.len() >= 2 && style == PathStyle::Windows && !is_verbatim(root) ==> q.len() >= 2 && q[0]
                == root[0] && q[1] == root[1]
            &&& style == PathStyle::Windows && is_verbatim(root) ==> q.len() > 0 && q[0] == '\\'
        }),
{
    let q = join_path(style, root, root_name);
    assert(root_name.contains(root_name[0]));
    lemma_prefix(style, root);
    if root.len() == 0 {
        assert(q =~= root_name);
    } else if style == PathStyle::Windows && is_verbatim(root) {
        assert(prefix_text(style, root).len() > 0 && prefix_text(style, root)[0] == root[0]);
    }
}

/// Whether `p` is `base` or lies below it, without climbing behind it.
pub open spec fn lies_in(style: PathStyle, p: Seq<char>, base: Seq<char>) -> bool {
    &&& starts_with(style, p, base)
    &&& forall|k: int|
        components(style, base).len() <= k < components(style, p).len() ==> #[trigger] components(style, p)[k]
            != seq!['.', '.']
}

/// Whether `p` lies in `base` and is not `base`.
pub open spec fn lies_below(style: PathStyle, p: Seq<char>, base: Seq<char>) -> bool {
    lies_in(style, p, base) && components(style, p).len() > components(style, base).len()
}

/// A request leads to its directory or below it, and never climbs. Where no name in its path begins with
/// a drive and the directory can hold files, it is refused exactly if it names no directory of the
/// workspace or leads away; otherwise it leads to what has the names of its path, one below the other, in
/// the directory.
pub proof fn law_request_leads_into_its_directory(
    style: PathStyle,
    root: Seq<char>,
    root_name: Seq<char>,
    path: Seq<char>,
)
    ensures
        target_of(style, root, root_name, path) matches Ok(target) ==> {
            let base = join_path(style, root, root_name);
            &&& is_root_name(root_name) && !leads_away(style, path)
            &&& lies_in(style, target.path, base)
            &&& target.root_name == root_name
            &&& normalized(style, path) == Some(target.relative)
            &&& target.path == join_path(style, base, target.relative)
        },
        holds_files(style, root, root_name) && !names_a_drive(style, path) ==> {
            let base = join_path(style, root, root_name);
            let parts = requested_parts(style, path);
            &&& target_of(style, root, root_name, path) is Ok <==> is_root_name(root_name) && !leads_away(
                style,
                path,
            )
            &&& target_of(style, root, root_name, path) matches Ok(target) ==> {
                &&& components(style, target.path) == components(style, base) + parts
                &&& target.relative == join(parts, style.separator())
            }
        },
{
    if is_root_name(root_name) && normalized(style, path) is Some {
        let base = join_path(style, root, root_name);
        let parts = requested_parts(style, path);
        let relative = normalized(style, path)->0;
        let full = join_path(style, base, relative);
        lemma_requested_parts(style, path);
        lemma_path_of(style, parts);
        let all = components(style, full);
        let head = components(style, base);
        lemma_root_name(style, root_name);
        lemma_join_ends(style, root, root_name);
        lemma_has_components(style, base);
        if prefix(style, relative) == Prefix::Absent {
            if holds_files(style, root, root_name) {
                lemma_names_below(style, base, parts);
                assert(head =~= all.subrange(0, head.len() as int));
            }
            if starts_with(style, full, base) {
                law_names_never_climb(style, base, parts);
            }
        } else {
            if starts_with(style, full, base) {
                assert(head == all.subrange(0, head.len() as int));
                assert(head[0] == all[0]);
                lemma_drive_component(style, full, base);
                lemma_directory_on_drive(style, root, root_name);
            }
            if !names_a_drive(style, path) {
                law_names_are_components(style, parts);
            }
        }
    }
}

/// Names that lead down from a base.
proof fn lemma_names_below(style: PathStyle, base: Seq<char>, parts: Seq<Seq<char>>)
    requires
        is_base(style, base),
        leads_down(style, parts),
    ensures
        ({
            let q = join_path(style, base, join(parts, style.separator()));
            &&& components(style, q) == components(style, base) + parts
            &&& body(style, q) == body(style, base) + parts
            &&& is_settled(style, q)
        }),
{
    let relative = join(parts, style.separator());
    law_names_are_components(style, parts);
    lemma_prefix(style, base);
    assert(joins(style, base, relative));
    law_join_appends_components(style, base, relative);
    lemma_join_appends(style, base, relative);
    lemma_join_keeps_prefix(style, base, relative);
}

/// The directories of the workspace themselves can be neither written nor deleted, where no name in
/// the request's path begins with a drive and they can hold files: what is named lies below its
/// directory.
pub proof fn law_directories_are_kept(
    style: PathStyle,
    root: Seq<char>,
    root_name: Seq<char>,
    path: Seq<char>,
    missing: Seq<char>,
)
    ensures
        named_target_of(style, root, root_name, path, missing) matches Ok(target) ==> {
            &&& target_of(style, root, root_name, path) == Ok::<TargetView, ReplyView>(target)
            &&& requested_parts(style, path).len() > 0
            &&& holds_files(style, root, root_name) && !names_a_drive(style, path) ==> lies_below(
                style,
                target.path,
                join_path(style, root, root_name),
            )
        },
        is_root_name(root_name) && !leads_away(style, path) && requested_parts(style, path).len() == 0
            ==> named_target_of(style, root, root_name, path, missing) == Err::<TargetView, ReplyView>(
            bad(missing),
        ),
{
    law_request_leads_into_its_directory(style, root, root_name, path);
    let parts = requested_parts(style, path);
    if normalized(style, path) is Some {
        lemma_requested_parts(style, path);
        lemma_path_of(style, parts);
        if parts.len() == 0 {
            assert(path_of(style, parts) =~= Seq::<char>::empty());
        }
    }
}

proof fn lemma_nothing_to_trim(s: Seq<char>)
    requires
        s.len() > 0 ==> !is_white_space(s[0]) && !is_white_space(s.last()),
    ensures
        trim(s) == s,
{
}

/// A path that names which lead down make is canonical, and has no slash before it.
proof fn lemma_joined_names(style: PathStyle, parts: Seq<Seq<char>>)
    requires
        leads_down(style, parts),
    ensures
        ({
            let p = join(parts, style.separator());
            &&& canonical(style, p) == p
            &&& skip_slashes(p) == p
            &&& style == PathStyle::Windows ==> !p.contains('/')
            &&& p.len() > 0 ==> p[0] != '/' && p[0] != style.separator()
        }),
{
    let sep = style.separator();
    let p = join(parts, sep);
    law_names_are_components(style, parts);
    if style == PathStyle::Windows {
        assert forall|k: int| 0 <= k < parts.len() implies !(#[trigger] parts[k]).contains('/') by {
            assert(is_name(style, parts[k]));
        }
        lemma_join_holds_no_more(parts, sep, '/');
        assert forall|i: int| 0 <= i < p.len() implies p[i] != '/' by {
            assert(p.contains(p[i]));
        }
        assert(replace(p, '/', '\\') =~= p);
    }
}

/// A path that a request's path means, means itself, unless it begins or ends with white space or a
/// name in it begins with a drive.
pub proof fn law_normalizing_again_changes_nothing(style: PathStyle, path: Seq<char>)
    requires
        normalized(style, path) matches Some(relative) && (relative.len() > 0 ==> !is_white_space(
            relative[0],
        ) && !is_white_space(relative.last())),
        !names_a_drive(style, path),
    ensures
        normalized(style, normalized(style, path)->0) == normalized(style, path),
{
    let parts = requested_parts(style, path);
    let relative = normalized(style, path)->0;
    law_normalized_path_leads_down(style, path);
    law_names_are_components(style, parts);
    lemma_joined_names(style, parts);
    lemma_nothing_to_trim(relative);
    assert(requested_parts(style, relative) == parts);
}

/// A path as a browser sees it leads back to what it was made of, unless that ends with white space
/// or, on Unix, has a backslash in it.
pub proof fn law_web_path_leads_back(style: PathStyle, parts: Seq<Seq<char>>)
    requires
        leads_down(style, parts),
        style == PathStyle::Unix ==> !join(parts, style.separator()).contains('\\'),
        parts.len() > 0 ==> !is_white_space(join(parts, style.separator()).last()),
    ensures
        requested_parts(style, web_path(join(parts, style.separator()))) == parts,
        normalized(style, web_path(join(parts, style.separator()))) == Some(
            join(parts, style.separator()),
        ),
{
    let sep = style.separator();
    let relative = join(parts, sep);
    let web = web_path(relative);
    let shown = replace(relative, '\\', '/');
    law_names_are_components(style, parts);
    lemma_joined_names(style, parts);
    assert forall|i: int| 0 <= i < relative.len() implies (style == PathStyle::Unix ==> relative[i] != '\\')
        && (style == PathStyle::Windows ==> relative[i] != '/') by {
        assert(relative.contains(relative[i]));
    }
    assert(web =~= seq!['/'] + shown);
    assert(!is_white_space('/') && !is_white_space('\\'));
    lemma_nothing_to_trim(web);
    assert(web.drop_first() =~= shown);
    assert(skip_slashes(web) == skip_slashes(shown));
    assert(skip_slashes(shown) == shown);
    assert(canonical(style, shown) =~= relative);
    assert(requested_path(style, web) == relative);
    if parts.contains(seq!['.', '.']) {
        let k = choose|k: int| 0 <= k < parts.len() && parts[k] == seq!['.', '.'];
        assert(is_name(style, parts[k]));
    }
    assert forall|k: int| 0 <= k < parts.len() implies is_plain(style, #[trigger] parts[k]) by {
        assert(is_name(style, parts[k]));
    }
    lemma_path_of(style, parts);
}

proof fn lemma_one_more_name(style: PathStyle, parts: Seq<Seq<char>>, name: Seq<char>)
    requires
        leads_down(style, parts),
        is_name(style, name),
    ensures
        join_path(style, join(parts, style.separator()), name) == join(parts.push(name), style.separator()),
{
    let before = join(parts, style.separator());
    law_names_are_components(style, parts);
    lemma_prefix(style, before);
    assert(name.contains(name[0]));
    assert(parts.push(name).drop_last() =~= parts);
    assert(join_path(style, before, name) =~= join(parts.push(name), style.separator()));
}

/// The path of an entry of a listing leads to the entry, unless its name ends with white space or,
/// on Unix, the path has a backslash in it.
pub proof fn law_listed_path_leads_to_its_entry(style: PathStyle, parts: Seq<Seq<char>>, e: DiskEntry)
    requires
        leads_down(style, parts.push(e.name@)),
        style == PathStyle::Unix ==> !join(parts.push(e.name@), style.separator()).contains('\\'),
        !is_white_space(e.name@.last()),
    ensures
        ({
            let shown = listed(style, join(parts, style.separator()), e).path;
            &&& normalized(style, shown) == Some(join(parts.push(e.name@), style.separator()))
            &&& requested_parts(style, shown) == parts.push(e.name@)
        }),
{
    let sep = style.separator();
    let name = e.name@;
    let all = parts.push(name);
    let one = seq![name];
    assert(all[parts.len() as int] == name);
    assert(is_name(style, name));
    assert forall|k: int| 0 <= k < parts.len() implies is_name(style, #[trigger] parts[k]) by {
        assert(all[k] == parts[k]);
    }
    assert(leads_down(style, one));
    law_names_are_components(style, one);
    lemma_joined_names(style, one);
    assert(join(one, sep) == name);
    law_names_are_components(style, parts);
    law_names_are_components(style, all);
    lemma_one_more_name(style, parts, name);
    assert(join(all, sep).last() == name.last());
    law_web_path_leads_back(style, all);
}

// ----- What holds of listings -----

proof fn lemma_entry_le(a: EntryView, b: EntryView, c: EntryView)
    ensures
        entry_le(a, a),
        entry_le(a, b) || entry_le(b, a),
        entry_le(a, b) && entry_le(b, c) ==> entry_le(a, c),
{
    lemma_text_le_total(a.name, a.name);
    lemma_text_le_total(a.name, b.name);
    lemma_text_le_total(a.kind, b.kind);
    lemma_text_le_total(b.kind, c.kind);
    lemma_text_le_total(a.kind, c.kind);
    if entry_le(a, b) && entry_le(b, c) {
        if text_le(a.name, b.name) && text_le(b.name, c.name) {
            lemma_text_le_transitive(a.name, b.name, c.name);
        }
        if text_le(a.kind, b.kind) && text_le(b.kind, c.kind) {
            lemma_text_le_transitive(a.kind, b.kind, c.kind);
        }
    }
}

/// Whether entries stand in the order of a listing.
pub open spec fn is_ordered(s: Seq<EntryView>) -> bool {
    forall|i: int, j: int| 0 <= i <= j < s.len() ==> entry_le(#[trigger] s[i], #[trigger] s[j])
}

proof fn lemma_put_keeps_order(s: Seq<EntryView>, e: EntryView)
    requires
        is_ordered(s),
    ensures
        is_ordered(put_in_order(s, e)),
        put_in_order(s, e).to_multiset() == s.to_multiset().insert(e),
        put_in_order(s, e).len() == s.len() + 1,
        forall|k: int|
            0 <= k <= s.len() ==> #[trigger] put_in_order(s, e)[k] == e || s.contains(
                put_in_order(s, e)[k],
            ),
    decreases s.len(),
{
    broadcast use vstd::seq_lib::group_to_multiset_ensures;

    let out = put_in_order(s, e);
    lemma_entry_le(e, e, e);
    if s.len() == 0 || entry_le(s.last(), e) {
        assert forall|i: int, j: int| 0 <= i <= j < out.len() implies entry_le(
            #[trigger] out[i],
            #[trigger] out[j],
        ) by {
            if j == s.len() && i < s.len() {
                assert(entry_le(s[i], s[s.len() - 1]));
                lemma_entry_le(s[i], s.last(), e);
            }
        }
        assert forall|k: int| 0 <= k <= s.len() implies #[trigger] out[k] == e || s.contains(out[k]) by {
            if k < s.len() {
                assert(out[k] == s[k]);
            }
        }
    } else {
        let rest = s.drop_last();
        let last = s.last();
        assert(is_ordered(rest)) by {
            assert forall|i: int, j: int| 0 <= i <= j < rest.len() implies entry_le(
                #[trigger] rest[i],
                #[trigger] rest[j],
            ) by {
                assert(rest[i] == s[i] && rest[j] == s[j]);
            }
        }
        lemma_put_keeps_order(rest, e);
        let inner = put_in_order(rest, e);
        lemma_entry_le(e, last, last);
        lemma_entry_le(last, last, last);
        assert forall|k: int| 0 <= k < inner.len() implies entry_le(#[trigger] inner[k], last) && (inner[k]
            == e || s.contains(inner[k])) by {
            if inner[k] != e {
                let m = choose|m: int| 0 <= m < rest.len() && rest[m] == inner[k];
                assert(s[m] == inner[k]);
                assert(entry_le(s[m], s[s.len() - 1]));
            }
        }
        assert forall|i: int, j: int| 0 <= i <= j < out.len() implies entry_le(
            #[trigger] out[i],
            #[trigger] out[j],
        ) by {
            if i < inner.len() {
                assert(out[i] == inner[i]);
            }
            if j < inner.len() {
                assert(out[j] == inner[j]);
            }
        }
        assert forall|k: int| 0 <= k <= s.len() implies #[trigger] out[k] == e || s.contains(out[k]) by {
            if k < inner.len() {
                assert(out[k] == inner[k]);
            } else {
                assert(s[s.len() - 1] == out[k]);
            }
        }
        assert(s =~= rest.push(last));
        assert(out.to_multiset() =~= s.to_multiset().insert(e));
    }
}

proof fn lemma_in_order(s: Seq<EntryView>)
    ensures
        is_ordered(in_order(s)),
        in_order(s).to_multiset() == s.to_multiset(),
    decreases s.len(),
{
    broadcast use vstd::seq_lib::group_to_multiset_ensures;

    if s.len() > 0 {
        lemma_in_order(s.drop_last());
        lemma_put_keeps_order(in_order(s.drop_last()), s.last());
        assert(s =~= s.drop_last().push(s.last()));
    } else {
        assert(s =~= Seq::empty());
    }
}

/// A listing holds the entries of the directory, each as often as the disk gives it, ordered by
/// kind and then by name; so all directories come before all files.
pub proof fn law_listing_holds_the_entries_in_order(
    style: PathStyle,
    relative: Seq<char>,
    found: Seq<DiskEntry>,
)
    ensures
        is_ordered(listing(style, relative, found)),
        listing(style, relative, found).to_multiset() == found.map_values(
            |e: DiskEntry| listed(style, relative, e),
        ).to_multiset(),
        forall|i: int, j: int|
            0 <= i < j < listing(style, relative, found).len() && (#[trigger] listing(style, relative, found)[j]).kind
                == "directory"@ ==> (#[trigger] listing(style, relative, found)[i]).kind == "directory"@,
{
    let views = found.map_values(|e: DiskEntry| listed(style, relative, e));
    let all = listing(style, relative, found);
    lemma_in_order(views);
    assert forall|i: int, j: int|
        0 <= i < j < all.len() && (#[trigger] all[j]).kind == "directory"@ implies (#[trigger] all[i]).kind
        == "directory"@ by {
        broadcast use vstd::seq_lib::group_to_multiset_ensures;

        assert(entry_le(all[i], all[j]));
        assert(all.contains(all[i]));
        assert(views.to_multiset().count(all[i]) > 0);
        assert(views.contains(all[i]));
        let m = choose|m: int| 0 <= m < views.len() && views[m] == all[i];
        assert(views[m] == listed(style, relative, found[m]));
        reveal_strlit("directory");
        reveal_strlit("file");
        assert(!text_le("file"@, "directory"@));
    }
}

proof fn lemma_named_push(s: Seq<EntryView>, e: EntryView, kind: Seq<char>, name: Seq<char>)
    ensures
        named(s.push(e), kind, name) == (if e.kind == kind && e.name == name {
            named(s, kind, name).push(e)
        } else {
            named(s, kind, name)
        }),
{
    reveal(Seq::filter);
    assert(s.push(e).drop_last() =~= s);
}

proof fn lemma_put_keeps_equal_entries(s: Seq<EntryView>, e: EntryView, kind: Seq<char>, name: Seq<char>)
    ensures
        named(put_in_order(s, e), kind, name) == named(s.push(e), kind, name),
    decreases s.len(),
{
    if s.len() > 0 && !entry_le(s.last(), e) {
        let rest = s.drop_last();
        let last = s.last();
        lemma_put_keeps_equal_entries(rest, e, kind, name);
        lemma_named_push(put_in_order(rest, e), last, kind, name);
        lemma_named_push(rest, e, kind, name);
        lemma_named_push(rest, last, kind, name);
        lemma_named_push(s, e, kind, name);
        assert(s =~= rest.push(last));
        lemma_text_le_total(e.name, e.name);
    }
}

/// The entries of one kind and name.
pub open spec fn named(s: Seq<EntryView>, kind: Seq<char>, name: Seq<char>) -> Seq<EntryView> {
    s.filter(|x: EntryView| x.kind == kind && x.name == name)
}

/// Entries of the same kind and name stay in the order in which the disk gives them.
pub proof fn law_listing_keeps_equal_entries_in_place(
    style: PathStyle,
    relative: Seq<char>,
    found: Seq<DiskEntry>,
    kind: Seq<char>,
    name: Seq<char>,
)
    ensures
        named(listing(style, relative, found), kind, name) == named(
            found.map_values(|e: DiskEntry| listed(style, relative, e)),
            kind,
            name,
        ),
{
    lemma_order_keeps_equal_entries(found.map_values(|e: DiskEntry| listed(style, relative, e)), kind, name);
}

proof fn lemma_order_keeps_equal_entries(s: Seq<EntryView>, kind: Seq<char>, name: Seq<char>)
    ensures
        named(in_order(s), kind, name) == named(s, kind, name),
    decreases s.len(),
{
    if s.len() > 0 {
        let rest = s.drop_last();
        lemma_order_keeps_equal_entries(rest, kind, name);
        lemma_put_keeps_equal_entries(in_order(rest), s.last(), kind, name);
        lemma_named_push(in_order(rest), s.last(), kind, name);
        lemma_named_push(rest, s.last(), kind, name);
        assert(s =~= rest.push(s.last()));
    } else {
        assert(s =~= Seq::empty());
    }
}

// ----- What holds of writing and deleting -----

/// How a write stands after actions with these outcomes, in order.
pub open spec fn write_after(start: WriteNextView, outcomes: Seq<Result<u64, IoFailure>>) -> WriteNextView
    decreases outcomes.len(),
{
    if outcomes.len() == 0 {
        start
    } else {
        match write_after(start, outcomes.drop_last()) {
            WriteNextView::Do(job, _) => job.next(outcomes.last()),
            WriteNextView::Finished(r) => WriteNextView::Finished(r),
        }
    }
}

/// The time that a reading of the clock shows.
pub open spec fn seconds_read(outcome: Result<u64, IoFailure>) -> u64 {
    match outcome {
        Ok(seconds) => seconds,
        Err(_) => 0,
    }
}

/// Where the history copy of a file stands that was made at this time.
pub open spec fn history_path(
    style: PathStyle,
    root: Seq<char>,
    target: TargetView,
    seconds: u64,
) -> Seq<char> {
    join_path(
        style,
        history_directory(style, root, target.root_name),
        history_name(seconds, file_name(style, target.relative)->0),
    )
}

/// What a write has done and does, when it is at a stage.
spec fn progresses(
    start: WriteJobView,
    outcomes: Seq<Result<u64, IoFailure>>,
    job: WriteJobView,
    action: DiskAction<Seq<char>>,
) -> bool {
    let n = outcomes.len();
    let path = start.target.path;
    &&& job.style == start.style && job.root == start.root && job.target == start.target && job.content == start.content
    &&& n > 2 && job.stage != WriteStage::Content ==> outcomes[1] is Ok
    &&& n > 3 ==> outcomes[1] is Ok && outcomes[2] is Ok
    &&& match job.stage {
        WriteStage::Parent => n == 0 && Some(action) == (match parent(start.style, path) {
            Some(dir) => Some(DiskAction::CreateDirectories(dir)),
            None => None,
        }),
        WriteStage::Existing => n == 1 && action == DiskAction::Look(path),
        WriteStage::Backup => n == 2 && outcomes[1] is Ok && action == (DiskAction::Copy {
            from: path,
            to: backup_path(start.style, path),
        }),
        WriteStage::HistoryDirectory => n == 3 && outcomes[2] is Ok && action
            == DiskAction::CreateDirectories(history_directory(start.style, start.root, start.target.root_name)),
        WriteStage::Clock => n == 4 && action == DiskAction::<Seq<char>>::ReadClock,
        WriteStage::History => n == 5 && action == (DiskAction::Copy {
            from: path,
            to: history_path(start.style, start.root, start.target, seconds_read(outcomes[4])),
        }),
        WriteStage::Content => {
            &&& action == (DiskAction::Write { path, content: start.content })
            &&& n == 2 && outcomes[1] is Err || n == 6 && outcomes[5] is Ok
        },
    }
}

spec fn first_job(style: PathStyle, root: Seq<char>, target: TargetView, content: Seq<char>) -> WriteJobView {
    WriteJobView { style, stage: WriteStage::Parent, root, target, content, backup_path: None }
}

proof fn lemma_write_progress(start: WriteJobView, outcomes: Seq<Result<u64, IoFailure>>)
    requires
        start.stage == WriteStage::Parent,
        parent(start.style, start.target.path) is Some,
    ensures
        write_after(start.begin(), outcomes) matches WriteNextView::Do(job, action) ==> progresses(
            start,
            outcomes,
            job,
            action,
        ),
    decreases outcomes.len(),
{
    if outcomes.len() > 0 {
        let before = outcomes.drop_last();
        lemma_write_progress(start, before);
        assert forall|k: int| 0 <= k < before.len() implies outcomes[k] == before[k] by {}
    }
}

proof fn lemma_joined_below(style: PathStyle, base: Seq<char>, p: Seq<char>, name: Seq<char>)
    requires
        lies_in(style, p, base),
        is_base(style, p),
        is_single_name(style, name),
    ensures
        lies_in(style, join_path(style, p, name), base),
        is_base(style, join_path(style, p, name)),
        components(style, join_path(style, p, name)) == components(style, p).push(name),
{
    lemma_name_below_base(style, p, name);
    let head = components(style, base);
    let some = components(style, p);
    let all = components(style, join_path(style, p, name));
    assert(head == some.subrange(0, head.len() as int));
    assert(head =~= all.subrange(0, head.len() as int));
    assert forall|k: int| head.len() <= k < all.len() implies #[trigger] all[k] != seq!['.', '.'] by {
        if k < some.len() {
            assert(all[k] == some[k]);
        }
    }
}

/// Of two paths that lie in a base, one with another last component than the other.
proof fn lemma_sibling_below(style: PathStyle, base: Seq<char>, p: Seq<char>, q: Seq<char>, last: Seq<char>)
    requires
        lies_below(style, p, base),
        components(style, q) == components(style, p).drop_last().push(last),
    ensures
        starts_with(style, q, base),
        last != seq!['.', '.'] ==> lies_in(style, q, base),
{
    let head = components(style, base);
    let some = components(style, p);
    let all = components(style, q);
    assert(head == some.subrange(0, head.len() as int));
    assert forall|k: int| 0 <= k < head.len() implies all[k] == head[k] by {
        assert(all[k] == some[k]);
        assert(some.subrange(0, head.len() as int)[k] == some[k]);
    }
    assert(head =~= all.subrange(0, head.len() as int));
    if last != seq!['.', '.'] {
        assert forall|k: int| head.len() <= k < all.len() implies #[trigger] all[k] != seq!['.', '.'] by {
            if k < some.len() - 1 {
                assert(all[k] == some[k]);
            }
        }
    }
}

/// The name of a file that a request leads to, as the path on the disk and the one below the
/// directory tell it.
proof fn lemma_target_name(
    style: PathStyle,
    root: Seq<char>,
    root_name: Seq<char>,
    path: Seq<char>,
    missing: Seq<char>,
)
    requires
        named_target_of(style, root, root_name, path, missing) is Ok,
    ensures
        ({
            let base = join_path(style, root, root_name);
            let target = named_target_of(style, root, root_name, path, missing)->Ok_0;
            let name = components(style, target.path).last();
            &&& parent(style, target.path) is Some
            &&& holds_files(style, root, root_name) ==> is_base(style, base) && is_settled(style, target.path)
            &&& lies_below(style, target.path, base) ==> {
                &&& file_name(style, target.path) == Some(name)
                &&& file_name(style, target.relative) == Some(name)
                &&& is_component(false, name) && !name.contains(style.separator())
            }
        }),
{
    let base = join_path(style, root, root_name);
    let target = named_target_of(style, root, root_name, path, missing)->Ok_0;
    let parts = requested_parts(style, path);
    let all = components(style, target.path);
    let head = components(style, base);
    law_directories_are_kept(style, root, root_name, path, missing);
    law_request_leads_into_its_directory(style, root, root_name, path);
    lemma_requested_parts(style, path);
    lemma_path_of(style, parts);
    lemma_root_name(style, root_name);
    lemma_join_ends(style, root, root_name);
    lemma_has_components(style, base);
    if prefix(style, target.relative) == Prefix::Absent {
        law_names_never_climb(style, base, parts);
        lemma_last_name(style, target.path);
        assert(is_name(style, parts[parts.len() - 1]));
        assert(all.last() == parts.last());
        law_names_are_components(style, parts);
        lemma_prefix(style, target.relative);
        lemma_last_name(style, target.relative);
        if holds_files(style, root, root_name) {
            lemma_names_below(style, base, parts);
        }
    } else {
        assert(target.path == target.relative);
        assert(head == all.subrange(0, head.len() as int));
        assert(head[0] == all[0]);
        lemma_drive_component(style, target.path, base);
        lemma_directory_on_drive(style, root, root_name);
        lemma_prefix(style, target.path);
        assert(body(style, target.path).len() > 0);
        lemma_last_name(style, target.path);
        if lies_below(style, target.path, base) {
            assert(all[all.len() - 1] != seq!['.', '.']);
        }
    }
}

/// The directory of a file below a base lies in the base.
proof fn lemma_directory_of_file(style: PathStyle, base: Seq<char>, p: Seq<char>)
    requires
        lies_below(style, p, base),
        is_settled(style, p),
        parent(style, p) is Some,
    ensures
        lies_in(style, parent(style, p)->0, base),
{
    let all = components(style, p);
    let head = components(style, base);
    law_parent_drops_the_last_component(style, p);
    let upper = components(style, parent(style, p)->0);
    assert(head == all.subrange(0, head.len() as int));
    assert forall|k: int| 0 <= k < head.len() implies upper[k] == head[k] by {
        assert(all.subrange(0, head.len() as int)[k] == all[k]);
    }
    assert(head =~= upper.subrange(0, head.len() as int));
    assert forall|k: int| head.len() <= k < upper.len() implies #[trigger] upper[k] != seq!['.', '.'] by {
        assert(upper[k] == all[k]);
    }
}

/// The backup of a file below a base lies in the base, where it has a place.
proof fn lemma_backup_of_file(style: PathStyle, base: Seq<char>, p: Seq<char>)
    requires
        lies_below(style, p, base),
        is_settled(style, p),
        file_name(style, p) == Some(components(style, p).last()),
    ensures
        starts_with(style, backup_path(style, p), base),
        !has_no_backup(style, p) ==> lies_in(style, backup_path(style, p), base),
        backup_path(style, p) != p,
{
    let copy = backup_path(style, p);
    law_backup_stands_beside_its_file(style, p);
    let dots = seq!['.', '.'];
    let renamed = crate::path::backup_name(components(style, p).last());
    if has_no_backup(style, p) {
        lemma_sibling_below(style, base, p, copy, dots);
    } else {
        assert(renamed != dots) by {
            reveal_strlit("bak");
            reveal_strlit(".bak");
        }
        lemma_sibling_below(style, base, p, copy, renamed);
    }
}

/// How the backup of a file is shown, where no name in the request's path begins with a drive.
proof fn lemma_backup_is_shown(
    style: PathStyle,
    root: Seq<char>,
    root_name: Seq<char>,
    path: Seq<char>,
    missing: Seq<char>,
)
    requires
        holds_files(style, root, root_name),
        named_target_of(style, root, root_name, path, missing) is Ok,
        !names_a_drive(style, path),
        !has_no_backup(style, named_target_of(style, root, root_name, path, missing)->Ok_0.path),
    ensures
        ({
            let target = named_target_of(style, root, root_name, path, missing)->Ok_0;
            web_path_below(style, root_name, backup_path(style, target.path), root) == Ok::<
                Seq<char>,
                ReplyView,
            >(web_path(backup_path(style, target.relative)))
        }),
{
    let base = join_path(style, root, root_name);
    let parts = requested_parts(style, path);
    law_directories_are_kept(style, root, root_name, path, missing);
    law_normalized_path_leads_down(style, path);
    law_backup_below_a_base(style, base, parts);
    law_strip_undoes_join(style, base, parts.drop_last().push(crate::path::backup_name(parts.last())));
}

/// The surroundings of a file that a request leads to.
proof fn lemma_surroundings(
    style: PathStyle,
    root: Seq<char>,
    root_name: Seq<char>,
    path: Seq<char>,
    missing: Seq<char>,
)
    requires
        holds_files(style, root, root_name),
        named_target_of(style, root, root_name, path, missing) is Ok,
        lies_below(
            style,
            named_target_of(style, root, root_name, path, missing)->Ok_0.path,
            join_path(style, root, root_name),
        ),
    ensures
        ({
            let base = join_path(style, root, root_name);
            let target = named_target_of(style, root, root_name, path, missing)->Ok_0;
            let name = components(style, target.path).last();
            &&& parent(style, target.path) matches Some(dir) && lies_in(style, dir, base)
            &&& file_name(style, target.relative) == Some(name)
            &&& starts_with(style, backup_path(style, target.path), base)
            &&& !has_no_backup(style, target.path) ==> lies_in(style, backup_path(style, target.path), base)
            &&& backup_path(style, target.path) != target.path
            &&& lies_in(style, history_directory(style, root, root_name), base)
            &&& forall|seconds: u64|
                #![trigger history_path(style, root, target, seconds)]
                lies_in(style, history_path(style, root, target, seconds), base) && components(
                    style,
                    history_path(style, root, target, seconds),
                ).last() == history_name(seconds, name)
            &&& !names_a_drive(style, path) && !has_no_backup(style, target.path) ==> web_path_below(
                style,
                root_name,
                backup_path(style, target.path),
                root,
            ) == Ok::<Seq<char>, ReplyView>(web_path(backup_path(style, target.relative)))
        }),
{
    let base = join_path(style, root, root_name);
    let target = named_target_of(style, root, root_name, path, missing)->Ok_0;
    lemma_target_name(style, root, root_name, path, missing);
    lemma_directory_of_file(style, base, target.path);
    lemma_backup_of_file(style, base, target.path);
    if !names_a_drive(style, path) && !has_no_backup(style, target.path) {
        lemma_backup_is_shown(style, root, root_name, path, missing);
    }
    lemma_history(style, root, root_name, target);
}

proof fn lemma_history(style: PathStyle, root: Seq<char>, root_name: Seq<char>, target: TargetView)
    requires
        is_base(style, join_path(style, root, root_name)),
        target.root_name == root_name,
        file_name(style, target.relative) matches Some(name) && is_component(false, name) && !name.contains(
            style.separator(),
        ),
    ensures
        ({
            let base = join_path(style, root, root_name);
            &&& lies_in(style, history_directory(style, root, root_name), base)
            &&& forall|seconds: u64|
                #![trigger history_path(style, root, target, seconds)]
                lies_in(style, history_path(style, root, target, seconds), base) && components(
                    style,
                    history_path(style, root, target, seconds),
                ).last() == history_name(seconds, file_name(style, target.relative)->0)
        }),
{
    let base = join_path(style, root, root_name);
    let sep = style.separator();
    reveal_strlit("history");
    let dots = seq!['.', '.'];
    assert(dots[0] == '.' && seq!['.'][0] == '.');
    assert("history"@[0] == 'h' && "history"@[1] == 'i');
    assert(is_single_name(style, "history"@)) by {
        assert(forall|k: int| 0 <= k < "history"@.len() ==> "history"@[k] != '/' && "history"@[k] != '\\');
        lemma_no_prefix(style, "history"@);
    }
    let head = components(style, base);
    assert(head =~= head.subrange(0, head.len() as int));
    lemma_joined_below(style, base, base, "history"@);
    let directory = history_directory(style, root, root_name);
    let name = file_name(style, target.relative)->0;
    assert forall|seconds: u64|
        #![trigger history_path(style, root, target, seconds)]
        lies_in(style, history_path(style, root, target, seconds), base) && components(
            style,
            history_path(style, root, target, seconds),
        ).last() == history_name(seconds, name) by {
        let digits = decimal(seconds as nat);
        let full = history_name(seconds, name);
        lemma_decimal(seconds as nat);
        assert(is_digit(digits[0]));
        assert(full[0] == digits[0]);
        assert(!full.contains(sep)) by {
            assert forall|k: int| 0 <= k < full.len() implies full[k] != sep by {
                if k < digits.len() {
                    assert(is_digit(digits[k]));
                    assert(full[k] == digits[k]);
                } else if k > digits.len() {
                    assert(full[k] == name[k - digits.len() - 1]);
                    assert(name.contains(name[k - digits.len() - 1]));
                }
            }
        }
        assert(is_single_name(style, full)) by {
            assert(full.contains(full[0]));
            if full.len() > 1 {
                assert(full.contains(full[1]));
            }
            lemma_no_prefix(style, full);
        }
        lemma_joined_below(style, base, directory, full);
    }
}

/// Whether an action touches the disk only inside the directory `base`.
pub open spec fn stays_in(style: PathStyle, action: DiskAction<Seq<char>>, base: Seq<char>) -> bool {
    match action {
        DiskAction::CreateDirectories(p) => lies_in(style, p, base),
        DiskAction::Look(p) => lies_in(style, p, base),
        DiskAction::Copy { from, to } => lies_in(style, from, base) && lies_in(style, to, base),
        DiskAction::ReadClock => true,
        DiskAction::Write { path, content } => lies_in(style, path, base),
        DiskAction::RemoveDirectory(p) => lies_in(style, p, base),
        DiskAction::RemoveFile(p) => lies_in(style, p, base),
    }
}

/// Whatever its actions end with, a write touches the disk only inside the directory that the
/// request names, where the directory can hold files, the file lies below it and has a place for its
/// backup.
pub proof fn law_write_stays_in_its_directory(
    style: PathStyle,
    root: Seq<char>,
    root_name: Seq<char>,
    path: Seq<char>,
    content: Seq<char>,
    outcomes: Seq<Result<u64, IoFailure>>,
)
    requires
        holds_files(style, root, root_name),
        named_target_of(style, root, root_name, path, "file path is required"@) matches Ok(target) ==> {
            &&& lies_below(style, target.path, join_path(style, root, root_name))
            &&& !has_no_backup(style, target.path)
        },
    ensures
        write_after(write_begins(style, root, root_name, path, content), outcomes) matches WriteNextView::Do(
            _,
            action,
        ) ==> stays_in(style, action, join_path(style, root, root_name)),
{
    match named_target_of(style, root, root_name, path, "file path is required"@) {
        Ok(target) => {
            law_request_leads_into_its_directory(style, root, root_name, path);
            lemma_surroundings(style, root, root_name, path, "file path is required"@);
            lemma_write_progress(first_job(style, root, target, content), outcomes);
        },
        Err(e) => {
            lemma_finished_stays(Err(e), outcomes);
        },
    }
}

proof fn lemma_finished_stays(r: Result<WrittenView, ReplyView>, outcomes: Seq<Result<u64, IoFailure>>)
    ensures
        write_after(WriteNextView::Finished(r), outcomes) == WriteNextView::Finished(r),
    decreases outcomes.len(),
{
    if outcomes.len() > 0 {
        lemma_finished_stays(r, outcomes.drop_last());
    }
}

proof fn lemma_write_step(start: WriteNextView, outcomes: Seq<Result<u64, IoFailure>>, n: int)
    requires
        0 <= n < outcomes.len(),
    ensures
        write_after(start, outcomes.take(n + 1)) == (match write_after(start, outcomes.take(n)) {
            WriteNextView::Do(job, _) => job.next(outcomes[n]),
            WriteNextView::Finished(r) => WriteNextView::Finished(r),
        }),
{
    assert(outcomes.take(n + 1).drop_last() =~= outcomes.take(n));
}

/// Where a file has stood, its new content is written only after it has been copied to the backup
/// and to the history.
pub proof fn law_content_is_written_after_the_copies(
    style: PathStyle,
    root: Seq<char>,
    root_name: Seq<char>,
    path: Seq<char>,
    content: Seq<char>,
    outcomes: Seq<Result<u64, IoFailure>>,
)
    ensures
        ({
            let start = write_begins(style, root, root_name, path, content);
            let target = named_target_of(style, root, root_name, path, "file path is required"@)->Ok_0;
            let file = target.path;
            write_after(start, outcomes) matches WriteNextView::Do(
                _,
                DiskAction::Write { path: to, content: text },
            ) ==> {
                &&& to == file && text == content
                &&& write_after(start, outcomes.take(1)) matches WriteNextView::Do(_, look)
                &&& look == DiskAction::Look(file)
                &&& outcomes[1] is Ok ==> {
                    &&& outcomes.len() == 6
                    &&& write_after(start, outcomes.take(2)) matches WriteNextView::Do(_, first)
                    &&& first == (DiskAction::Copy { from: file, to: backup_path(style, file) })
                    &&& outcomes[2] is Ok
                    &&& write_after(start, outcomes.take(5)) matches WriteNextView::Do(_, second)
                    &&& second == (DiskAction::Copy {
                        from: file,
                        to: history_path(style, root, target, seconds_read(outcomes[4])),
                    })
                    &&& outcomes[5] is Ok
                }
                &&& outcomes[1] is Err ==> outcomes.len() == 2
            }
        }),
{
    let start = write_begins(style, root, root_name, path, content);
    match named_target_of(style, root, root_name, path, "file path is required"@) {
        Ok(target) => {
            lemma_target_name(style, root, root_name, path, "file path is required"@);
            let first = first_job(style, root, target, content);
            lemma_write_progress(first, outcomes);
            if write_after(start, outcomes) matches WriteNextView::Do(_, DiskAction::Write { .. }) {
                let n = outcomes.len() as int;
                assert(outcomes.take(n) =~= outcomes);
                lemma_write_step(start, outcomes, 1);
                lemma_write_progress(first, outcomes.take(1));
                if n == 6 {
                    lemma_write_step(start, outcomes, 2);
                    lemma_write_step(start, outcomes, 3);
                    lemma_write_step(start, outcomes, 4);
                    lemma_write_step(start, outcomes, 5);
                    lemma_write_progress(first, outcomes.take(2));
                    lemma_write_progress(first, outcomes.take(5));
                    assert(outcomes.take(5)[4] == outcomes[4]);
                }
            }
        },
        Err(e) => {
            lemma_finished_stays(Err(e), outcomes);
        },
    }
}

/// A write of a file that did not exist takes three actions and reports no backup.
pub proof fn law_new_file_is_written(
    style: PathStyle,
    root: Seq<char>,
    root_name: Seq<char>,
    path: Seq<char>,
    content: Seq<char>,
    outcomes: Seq<Result<u64, IoFailure>>,
)
    requires
        named_target_of(style, root, root_name, path, "file path is required"@) is Ok,
        outcomes.len() == 3,
        outcomes[0] is Ok,
        outcomes[1] is Err,
        outcomes[2] is Ok,
    ensures
        ({
            let start = write_begins(style, root, root_name, path, content);
            let target = named_target_of(style, root, root_name, path, "file path is required"@)->Ok_0;
            &&& start matches WriteNextView::Do(_, a) && parent(style, target.path) == Some(a->CreateDirectories_0)
            &&& write_after(start, outcomes.take(1)) matches WriteNextView::Do(_, b)
            &&& b == DiskAction::Look(target.path)
            &&& write_after(start, outcomes.take(2)) matches WriteNextView::Do(_, c)
            &&& c == (DiskAction::Write { path: target.path, content })
            &&& write_after(start, outcomes) == WriteNextView::Finished(
                Ok(WrittenView { ok: true, backup_path: None }),
            )
        }),
{
    let start = write_begins(style, root, root_name, path, content);
    lemma_target_name(style, root, root_name, path, "file path is required"@);
    assert(outcomes.take(0) =~= Seq::empty());
    assert(outcomes.take(3) =~= outcomes);
    lemma_write_step(start, outcomes, 0);
    lemma_write_step(start, outcomes, 1);
    lemma_write_step(start, outcomes, 2);
}

/// The run of a write of a file that existed, all of whose actions but the reading of the clock
/// succeed.
proof fn lemma_old_file(first: WriteJobView, outcomes: Seq<Result<u64, IoFailure>>)
    requires
        first.stage == WriteStage::Parent,
        parent(first.style, first.target.path) is Some,
        file_name(first.style, first.target.relative) is Some,
        web_path_below(
            first.style,
            first.target.root_name,
            backup_path(first.style, first.target.path),
            first.root,
        ) is Ok,
        outcomes.len() == 7,
        forall|k: int| 0 <= k < 7 && k != 4 ==> #[trigger] outcomes[k] is Ok,
    ensures
        ({
            let start = first.begin();
            let file = first.target.path;
            let backup = backup_path(first.style, file);
            let shown = web_path_below(first.style, first.target.root_name, backup, first.root)->Ok_0;
            &&& write_after(start, outcomes.take(0)) matches WriteNextView::Do(_, a)
            &&& a is CreateDirectories
            &&& write_after(start, outcomes.take(1)) matches WriteNextView::Do(_, b)
            &&& b == DiskAction::Look(file)
            &&& write_after(start, outcomes.take(2)) matches WriteNextView::Do(_, c)
            &&& c == (DiskAction::Copy { from: file, to: backup })
            &&& write_after(start, outcomes.take(3)) matches WriteNextView::Do(_, d)
            &&& d is CreateDirectories
            &&& write_after(start, outcomes.take(4)) matches WriteNextView::Do(_, e)
            &&& e is ReadClock
            &&& write_after(start, outcomes.take(5)) matches WriteNextView::Do(_, f)
            &&& f == (DiskAction::Copy {
                from: file,
                to: history_path(first.style, first.root, first.target, seconds_read(outcomes[4])),
            })
            &&& write_after(start, outcomes.take(6)) matches WriteNextView::Do(_, g)
            &&& g == (DiskAction::Write { path: file, content: first.content })
            &&& write_after(start, outcomes) == WriteNextView::Finished(
                Ok(WrittenView { ok: true, backup_path: Some(shown) }),
            )
        }),
{
    let start = first.begin();
    assert(outcomes.take(0) =~= Seq::empty());
    assert(outcomes.take(7) =~= outcomes);
    assert(outcomes[0] is Ok && outcomes[1] is Ok && outcomes[2] is Ok && outcomes[3] is Ok);
    assert(outcomes[5] is Ok && outcomes[6] is Ok);
    lemma_write_step(start, outcomes, 0);
    lemma_write_step(start, outcomes, 1);
    lemma_write_step(start, outcomes, 2);
    lemma_write_step(start, outcomes, 3);
    lemma_write_step(start, outcomes, 4);
    lemma_write_step(start, outcomes, 5);
    lemma_write_step(start, outcomes, 6);
}

/// What files hold after that run.
proof fn lemma_old_file_on_disk(
    first: WriteJobView,
    outcomes: Seq<Result<u64, IoFailure>>,
    disk: Map<Seq<char>, Seq<char>>,
    backup: Seq<char>,
    history: Seq<char>,
)
    requires
        first.stage == WriteStage::Parent,
        parent(first.style, first.target.path) is Some,
        file_name(first.style, first.target.relative) is Some,
        backup == backup_path(first.style, first.target.path),
        history == history_path(first.style, first.root, first.target, seconds_read(outcomes[4])),
        web_path_below(first.style, first.target.root_name, backup, first.root) is Ok,
        backup != first.target.path,
        history != first.target.path,
        outcomes.len() == 7,
        forall|k: int| 0 <= k < 7 && k != 4 ==> #[trigger] outcomes[k] is Ok,
    ensures
        ({
            let after = disk_written(first.begin(), outcomes, disk);
            let file = first.target.path;
            after == disk.insert(backup, disk[file]).insert(history, disk[file]).insert(file, first.content)
        }),
{
    let start = first.begin();
    lemma_old_file(first, outcomes);
    assert(outcomes.take(0) =~= Seq::empty());
    assert(outcomes.take(7) =~= outcomes);
    assert(outcomes[2] is Ok && outcomes[5] is Ok && outcomes[6] is Ok);
    lemma_disk_step(start, outcomes, disk, 0);
    lemma_disk_step(start, outcomes, disk, 1);
    lemma_disk_step(start, outcomes, disk, 2);
    lemma_disk_step(start, outcomes, disk, 3);
    lemma_disk_step(start, outcomes, disk, 4);
    lemma_disk_step(start, outcomes, disk, 5);
    lemma_disk_step(start, outcomes, disk, 6);
}

/// A write of a file that existed, all of whose actions succeed, reports the backup, which stands
/// beside the file where it has a place there. The file lies below a directory that can hold files.
pub proof fn law_old_file_is_kept_and_written(
    style: PathStyle,
    root: Seq<char>,
    root_name: Seq<char>,
    path: Seq<char>,
    content: Seq<char>,
    outcomes: Seq<Result<u64, IoFailure>>,
)
    requires
        holds_files(style, root, root_name),
        named_target_of(style, root, root_name, path, "file path is required"@) matches Ok(target)
            && lies_below(style, target.path, join_path(style, root, root_name)),
        outcomes.len() == 7,
        forall|k: int| 0 <= k < 7 && k != 4 ==> #[trigger] outcomes[k] is Ok,
    ensures
        ({
            let start = write_begins(style, root, root_name, path, content);
            let target = named_target_of(style, root, root_name, path, "file path is required"@)->Ok_0;
            let backup = backup_path(style, target.path);
            &&& write_after(start, outcomes.take(2)) matches WriteNextView::Do(_, a)
            &&& a == (DiskAction::Copy { from: target.path, to: backup })
            &&& write_after(start, outcomes.take(5)) matches WriteNextView::Do(_, b)
            &&& b == (DiskAction::Copy {
                from: target.path,
                to: history_path(style, root, target, seconds_read(outcomes[4])),
            })
            &&& write_after(start, outcomes.take(6)) matches WriteNextView::Do(_, c)
            &&& c == (DiskAction::Write { path: target.path, content })
            &&& web_path_below(style, root_name, backup, root) matches Ok(shown)
            &&& write_after(start, outcomes) == WriteNextView::Finished(
                Ok(WrittenView { ok: true, backup_path: Some(shown) }),
            )
            &&& !names_a_drive(style, path) && !has_no_backup(style, target.path) ==> shown == web_path(
                backup_path(style, target.relative),
            )
        }),
{
    let target = named_target_of(style, root, root_name, path, "file path is required"@)->Ok_0;
    let first = first_job(style, root, target, content);
    law_directories_are_kept(style, root, root_name, path, "file path is required"@);
    law_request_leads_into_its_directory(style, root, root_name, path);
    lemma_surroundings(style, root, root_name, path, "file path is required"@);
    assert(write_begins(style, root, root_name, path, content) == first.begin());
    lemma_old_file(first, outcomes);
}

/// What files hold after an action of a write that succeeded: a map from paths to contents.
pub open spec fn disk_after(
    disk: Map<Seq<char>, Seq<char>>,
    action: DiskAction<Seq<char>>,
) -> Map<Seq<char>, Seq<char>> {
    match action {
        DiskAction::Copy { from, to } => disk.insert(to, disk[from]),
        DiskAction::Write { path, content } => disk.insert(path, content),
        _ => disk,
    }
}

/// What files hold after those actions of a write that succeeded.
pub open spec fn disk_written(
    start: WriteNextView,
    outcomes: Seq<Result<u64, IoFailure>>,
    disk: Map<Seq<char>, Seq<char>>,
) -> Map<Seq<char>, Seq<char>>
    decreases outcomes.len(),
{
    if outcomes.len() == 0 {
        disk
    } else {
        let before = disk_written(start, outcomes.drop_last(), disk);
        match write_after(start, outcomes.drop_last()) {
            WriteNextView::Do(_, action) if outcomes.last() is Ok => disk_after(before, action),
            _ => before,
        }
    }
}

/// What a write keeps from its start, whatever its actions end with.
proof fn lemma_write_keeps_its_job(first: WriteJobView, outcomes: Seq<Result<u64, IoFailure>>)
    requires
        first.stage == WriteStage::Parent,
    ensures
        write_after(first.begin(), outcomes) matches WriteNextView::Do(job, action) ==> {
            &&& job.target == first.target && job.content == first.content
            &&& job.stage == WriteStage::Content ==> action == (DiskAction::Write {
                path: first.target.path,
                content: first.content,
            })
        },
    decreases outcomes.len(),
{
    if outcomes.len() > 0 {
        lemma_write_keeps_its_job(first, outcomes.drop_last());
    }
}

proof fn lemma_content_is_on_disk(
    first: WriteJobView,
    outcomes: Seq<Result<u64, IoFailure>>,
    disk: Map<Seq<char>, Seq<char>>,
)
    requires
        first.stage == WriteStage::Parent,
        write_after(first.begin(), outcomes) matches WriteNextView::Finished(Ok(_)),
    ensures
        disk_written(first.begin(), outcomes, disk).dom().contains(first.target.path),
        disk_written(first.begin(), outcomes, disk)[first.target.path] == first.content,
    decreases outcomes.len(),
{
    let start = first.begin();
    if outcomes.len() > 0 {
        let before = outcomes.drop_last();
        match write_after(start, before) {
            WriteNextView::Do(job, action) => {
                lemma_write_keeps_its_job(first, before);
                assert(job.stage == WriteStage::Content);
                assert(outcomes.last() is Ok);
            },
            WriteNextView::Finished(_) => {
                lemma_content_is_on_disk(first, before, disk);
            },
        }
    }
}

/// What is written is read back: after a write that was answered well, the file that a read with the
/// same directory and path leads to holds the content that was written, and the answer to the read
/// gives it.
pub proof fn law_written_content_is_read_back(
    style: PathStyle,
    root: Seq<char>,
    root_name: Seq<char>,
    path: Seq<char>,
    content: Seq<char>,
    outcomes: Seq<Result<u64, IoFailure>>,
    disk: Map<Seq<char>, Seq<char>>,
)
    requires
        write_after(write_begins(style, root, root_name, path, content), outcomes) matches WriteNextView::Finished(
            Ok(_),
        ),
    ensures
        target_of(style, root, root_name, path) matches Ok(target) && {
            let after = disk_written(
                write_begins(style, root, root_name, path, content),
                outcomes,
                disk,
            );
            &&& after.dom().contains(target.path)
            &&& read_answer(style, root, root_name, path, Ok(after[target.path])) == Ok::<
                ReadView,
                ReplyView,
            >(ReadView { root: root_name, path: web_path(target.relative), content })
        },
{
    match named_target_of(style, root, root_name, path, "file path is required"@) {
        Ok(target) => {
            lemma_content_is_on_disk(first_job(style, root, target, content), outcomes, disk);
        },
        Err(e) => {
            lemma_finished_stays(Err(e), outcomes);
        },
    }
}

/// What a file below a directory that can hold files held before a write is found afterwards in its
/// backup and in its history copy, the file holds the new content, and no other file has changed.
pub proof fn law_old_content_is_found_in_the_copies(
    style: PathStyle,
    root: Seq<char>,
    root_name: Seq<char>,
    path: Seq<char>,
    content: Seq<char>,
    outcomes: Seq<Result<u64, IoFailure>>,
    disk: Map<Seq<char>, Seq<char>>,
)
    requires
        holds_files(style, root, root_name),
        named_target_of(style, root, root_name, path, "file path is required"@) matches Ok(target)
            && lies_below(style, target.path, join_path(style, root, root_name)),
        outcomes.len() == 7,
        forall|k: int| 0 <= k < 7 && k != 4 ==> #[trigger] outcomes[k] is Ok,
    ensures
        ({
            let start = write_begins(style, root, root_name, path, content);
            let target = named_target_of(style, root, root_name, path, "file path is required"@)->Ok_0;
            let after = disk_written(start, outcomes, disk);
            let backup = backup_path(style, target.path);
            let history = history_path(style, root, target, seconds_read(outcomes[4]));
            &&& after == disk.insert(backup, disk[target.path]).insert(history, disk[target.path]).insert(
                target.path,
                content,
            )
            &&& after[backup] == disk[target.path]
            &&& after[history] == disk[target.path]
            &&& after[target.path] == content
        }),
{
    let target = named_target_of(style, root, root_name, path, "file path is required"@)->Ok_0;
    let first = first_job(style, root, target, content);
    let seconds = seconds_read(outcomes[4]);
    let backup = backup_path(style, target.path);
    let history = history_path(style, root, target, seconds);
    law_directories_are_kept(style, root, root_name, path, "file path is required"@);
    law_request_leads_into_its_directory(style, root, root_name, path);
    lemma_surroundings(style, root, root_name, path, "file path is required"@);
    assert(history != target.path) by {
        lemma_decimal(seconds as nat);
        let name = components(style, target.path).last();
        assert(history_name(seconds, name).len() > name.len());
    }
    assert(write_begins(style, root, root_name, path, content) == first.begin());
    lemma_old_file_on_disk(first, outcomes, disk, backup, history);
}

proof fn lemma_disk_step(
    start: WriteNextView,
    outcomes: Seq<Result<u64, IoFailure>>,
    disk: Map<Seq<char>, Seq<char>>,
    n: int,
)
    requires
        0 <= n < outcomes.len(),
    ensures
        disk_written(start, outcomes.take(n + 1), disk) == (match write_after(start, outcomes.take(n)) {
            WriteNextView::Do(_, action) if outcomes[n] is Ok => disk_after(
                disk_written(start, outcomes.take(n), disk),
                action,
            ),
            _ => disk_written(start, outcomes.take(n), disk),
        }),
{
    assert(outcomes.take(n + 1).drop_last() =~= outcomes.take(n));
}

/// A deletion removes exactly what is named, as a directory or as a file. That lies in the directory
/// that the request names, and below it where no name in the path begins with a drive and the directory
/// can hold files.
pub proof fn law_deletion_removes_what_is_named(
    style: PathStyle,
    root: Seq<char>,
    root_name: Seq<char>,
    path: Seq<char>,
    is_dir: bool,
)
    requires
        named_target_of(style, root, root_name, path, "path is required"@) is Ok,
    ensures
        ({
            let target = named_target_of(style, root, root_name, path, "path is required"@)->Ok_0;
            let base = join_path(style, root, root_name);
            &&& lies_in(style, target.path, base)
            &&& holds_files(style, root, root_name) && !names_a_drive(style, path) ==> lies_below(
                style,
                target.path,
                base,
            )
            &&& delete_begins(style, root, root_name, path) matches DeleteNextView::Do(first, a)
            &&& a == DiskAction::Look(target.path)
            &&& delete_next(first, Ok(is_dir)) matches DeleteNextView::Do(second, b)
            &&& b == (if is_dir {
                DiskAction::RemoveDirectory(target.path)
            } else {
                DiskAction::RemoveFile(target.path)
            })
            &&& forall|v: bool| #[trigger]
                delete_next(second, Ok(v)) == DeleteNextView::Finished(
                    Ok(WrittenView { ok: true, backup_path: None }),
                )
        }),
{
    law_directories_are_kept(style, root, root_name, path, "path is required"@);
    law_request_leads_into_its_directory(style, root, root_name, path);
}

// ----- What holds of requests and answers, field by field -----

/// The three directories of the workspace, and no others.
pub proof fn law_workspace_has_three_directories(name: Seq<char>)
    ensures
        is_root_name(name) <==> seq!["scripts"@, "templates"@, "logs"@].contains(name),
{
    let names = seq!["scripts"@, "templates"@, "logs"@];
    assert(names[0] == "scripts"@ && names[1] == "templates"@ && names[2] == "logs"@);
}

/// A failure on the disk is answered with its message, and with a status that tells its kind.
pub proof fn law_failure_is_answered_with_its_message(failure: IoFailure)
    ensures
        io_refusal(failure).message == failure.message@,
        io_refusal(failure).status == 404 <==> failure.kind == IoErrorKind::NotFound,
        io_refusal(failure).status == 403 <==> failure.kind == IoErrorKind::PermissionDenied,
        io_refusal(failure).status == 500 <==> failure.kind == IoErrorKind::Other,
{
}

/// The refusals that the workspace itself makes keep their message.
pub proof fn law_refusals_keep_their_message(message: Seq<char>)
    ensures
        bad(message).status == 400 && bad(message).message == message,
        denied(message).status == 403 && denied(message).message == message,
{
}

/// What values show are their own fields, and all of them.
pub proof fn law_values_show_every_field(
    entry: FileEntry,
    target: Target,
    written: FileWriteResponse,
    read: FileReadResponse,
    error: WorkspaceError,
    job: WriteJob,
)
    ensures
        entry@.name == entry.name@ && entry@.path == entry.path@ && entry@.kind == entry.kind@ && entry@.size
            == entry.size && entry@.modified_ms == entry.modified_ms,
        target@.root_name == target.root_name@ && target@.relative == target.relative@ && target@.path == target.path@,
        written@.ok == written.ok && written@.backup_path == opt_text(written.backup_path),
        read@.root == read.root@ && read@.path == read.path@ && read@.content == read.content@,
        error@.status == error.status && error@.message == error.message@,
        job@.root == job.root@ && job@.target == job.target@ && job@.content == job.content@ && job@.style == job.style
            && job@.stage == job.stage && job@.backup_path == opt_text(job.backup_path),
{
}

/// Whether an entry of a listing tells what the disk says of an entry: its name, its size, whether it is a
/// directory, and its time to the millisecond, 0 only where the disk does not know it.
pub open spec fn tells(shown: EntryView, e: DiskEntry) -> bool {
    &&& shown.name == e.name@
    &&& shown.size == e.size
    &&& e.is_dir ==> shown.kind == "directory"@
    &&& !e.is_dir ==> shown.kind == "file"@
    &&& e.modified_ms matches Some(ms) ==> shown.modified_ms == ms
    &&& e.modified_ms is None ==> shown.modified_ms == 0
}

/// Whether a listing tells of an entry.
pub open spec fn tells_of(all: Seq<EntryView>, e: DiskEntry) -> bool {
    exists|i: int| 0 <= i < all.len() && tells(#[trigger] all[i], e)
}

/// Whether what a listing tells is true of one of the disk's entries.
pub open spec fn is_true_of_one(shown: EntryView, found: Seq<DiskEntry>) -> bool {
    exists|k: int| 0 <= k < found.len() && tells(shown, #[trigger] found[k])
}

/// An entry is shown as the disk gives it.
pub proof fn law_entry_is_shown_as_it_is(style: PathStyle, relative: Seq<char>, e: DiskEntry)
    ensures
        tells(listed(style, relative, e), e),
{
}

/// From what is shown of two entries it can be told in what they differ.
pub proof fn law_entries_can_be_told_apart(style: PathStyle, relative: Seq<char>, a: DiskEntry, b: DiskEntry)
    requires
        a.modified_ms is Some,
        b.modified_ms is Some,
        listed(style, relative, a) == listed(style, relative, b),
    ensures
        a.name@ == b.name@,
        a.size == b.size,
        a.is_dir == b.is_dir,
        a.modified_ms == b.modified_ms,
{
    reveal_strlit("directory");
    reveal_strlit("file");
    assert("directory"@.len() != "file"@.len());
}

/// A listing tells of every entry that the disk gives, and of nothing else: it has as many entries, each of
/// the disk's stands in it, and each of its own is one of the disk's.
pub proof fn law_listing_tells_of_every_entry(style: PathStyle, relative: Seq<char>, found: Seq<DiskEntry>)
    ensures
        listing(style, relative, found).len() == found.len(),
        forall|k: int|
            0 <= k < found.len() ==> #[trigger] tells_of(listing(style, relative, found), found[k]),
        forall|i: int|
            0 <= i < listing(style, relative, found).len() ==> #[trigger] is_true_of_one(
                listing(style, relative, found)[i],
                found,
            ),
{
    broadcast use vstd::seq_lib::group_to_multiset_ensures;

    let views = found.map_values(|e: DiskEntry| listed(style, relative, e));
    let all = listing(style, relative, found);
    lemma_in_order(views);
    assert(all.to_multiset().len() == all.len());
    assert(views.to_multiset().len() == views.len());
    assert forall|k: int| 0 <= k < found.len() implies #[trigger] tells_of(all, found[k]) by {
        assert(views[k] == listed(style, relative, found[k]));
        assert(views.contains(views[k]));
        assert(all.to_multiset().count(views[k]) > 0);
        assert(all.contains(views[k]));
        let i = choose|i: int| 0 <= i < all.len() && all[i] == views[k];
        assert(tells(all[i], found[k]));
    }
    assert forall|i: int| 0 <= i < all.len() implies #[trigger] is_true_of_one(all[i], found) by {
        assert(all.contains(all[i]));
        assert(views.to_multiset().count(all[i]) > 0);
        assert(views.contains(all[i]));
        let k = choose|k: int| 0 <= k < views.len() && views[k] == all[i];
        assert(views[k] == listed(style, relative, found[k]));
        assert(tells(all[i], found[k]));
    }
}

/// In a listing all directories come before all files, and within a kind the names stand in the order of
/// texts.
pub proof fn law_listing_is_ordered_by_kind_and_name(
    style: PathStyle,
    relative: Seq<char>,
    found: Seq<DiskEntry>,
    i: int,
    j: int,
)
    requires
        0 <= i < j < listing(style, relative, found).len(),
    ensures
        ({
            let a = listing(style, relative, found)[i];
            let b = listing(style, relative, found)[j];
            &&& a.kind == b.kind ==> text_le(a.name, b.name)
            &&& a.kind != b.kind ==> a.kind == "directory"@ && b.kind == "file"@
        }),
{
    let all = listing(style, relative, found);
    assert(entry_le(all[i], all[j])) by {
        law_listing_holds_the_entries_in_order(style, relative, found);
    }
    lemma_kind_in_a_listing(style, relative, found, i);
    lemma_kind_in_a_listing(style, relative, found, j);
    assert(!text_le("file"@, "directory"@)) by {
        reveal_strlit("directory");
        reveal_strlit("file");
    }
}

proof fn lemma_kind_in_a_listing(style: PathStyle, relative: Seq<char>, found: Seq<DiskEntry>, i: int)
    requires
        0 <= i < listing(style, relative, found).len(),
    ensures
        listing(style, relative, found)[i].kind == "directory"@ || listing(style, relative, found)[i].kind == "file"@,
{
    law_listing_tells_of_every_entry(style, relative, found);
    assert(is_true_of_one(listing(style, relative, found)[i], found));
}

/// A path is shown with a slash before it and slashes for backslashes; nothing else is changed.
pub proof fn law_web_path_changes_separators_only(p: Seq<char>, i: int)
    ensures
        web_path(p).len() == p.len() + 1,
        web_path(p)[0] == '/',
        0 <= i < p.len() ==> web_path(p)[i + 1] == (if p[i] == '\\' {
            '/'
        } else {
            p[i]
        }),
{
}

/// What a read gives of a file is its content, whatever it is, under the names that were asked for; a
/// failure is passed on.
pub proof fn law_read_gives_the_content(
    style: PathStyle,
    root: Seq<char>,
    root_name: Seq<char>,
    path: Seq<char>,
    text: Seq<char>,
    failure: ReplyView,
)
    ensures
        match target_of(style, root, root_name, path) {
            Ok(target) => {
                &&& read_answer(style, root, root_name, path, Ok(text)) matches Ok(answer)
                &&& answer.content == text && answer.root == root_name && answer.path == web_path(target.relative)
                &&& read_answer(style, root, root_name, path, Err(failure)) == Err::<ReadView, ReplyView>(failure)
            },
            Err(e) => {
                &&& read_answer(style, root, root_name, path, Ok(text)) == Err::<ReadView, ReplyView>(e)
                &&& read_answer(style, root, root_name, path, Err(failure)) == Err::<ReadView, ReplyView>(e)
            },
        },
{
}

/// Why a request is refused, and how: it names no directory of the workspace, or its path leads away, or
/// what it leads to lies elsewhere.
pub proof fn law_request_is_refused_with_its_reason(
    style: PathStyle,
    root: Seq<char>,
    root_name: Seq<char>,
    path: Seq<char>,
)
    ensures
        !seq!["scripts"@, "templates"@, "logs"@].contains(root_name) ==> (target_of(style, root, root_name, path) matches Err(
            e,
        ) && e.status == 400 && e.message == "root must be scripts, templates, or logs"@),
        seq!["scripts"@, "templates"@, "logs"@].contains(root_name) && leads_away(style, path) ==> (target_of(
            style,
            root,
            root_name,
            path,
        ) matches Err(e) && e.status == 403 && e.message == "path traversal is not allowed"@),
        seq!["scripts"@, "templates"@, "logs"@].contains(root_name) && !leads_away(style, path) ==> match target_of(
            style,
            root,
            root_name,
            path,
        ) {
            Ok(target) => target.root_name == root_name,
            Err(e) => e.status == 403 && e.message == "path escapes workspace"@,
        },
{
    law_workspace_has_three_directories(root_name);
}

proof fn lemma_slashes_before(s: Seq<char>)
    ensures
        skip_slashes(s).len() <= s.len(),
        skip_slashes(s) == s.skip(s.len() - skip_slashes(s).len()),
        forall|k: int| 0 <= k < s.len() - skip_slashes(s).len() ==> s[k] == '/',
    decreases s.len(),
{
    if s.len() > 0 && s[0] == '/' {
        let rest = s.drop_first();
        lemma_slashes_before(rest);
        let n = rest.len() - skip_slashes(rest).len();
        assert(rest.skip(n) =~= s.skip(n + 1));
        assert forall|k: int| 0 <= k < n + 1 implies s[k] == '/' by {
            if k > 0 {
                assert(rest[k - 1] == s[k]);
            }
        }
    } else {
        assert(s.skip(0) =~= s);
    }
}

/// Separators before a text add only empty pieces.
proof fn lemma_pieces_behind_separators(s: Seq<char>, n: int, sep: char)
    requires
        0 <= n <= s.len(),
        forall|k: int| 0 <= k < n ==> s[k] == sep,
    ensures
        split(s, sep).filter(|x: Seq<char>| x.len() > 0 && x != seq!['.']) == split(s.skip(n), sep).filter(
            |x: Seq<char>| x.len() > 0 && x != seq!['.'],
        ),
        split(s, sep).contains(seq!['.', '.']) <==> split(s.skip(n), sep).contains(seq!['.', '.']),
    decreases n,
{
    if n == 0 {
        assert(s.skip(0) =~= s);
    } else {
        let keep = |x: Seq<char>| x.len() > 0 && x != seq!['.'];
        let rest = s.drop_first();
        let none = Seq::<char>::empty();
        assert(s =~= none.push(sep) + rest);
        law_split_of_two_texts(none, rest, sep);
        assert forall|k: int| 0 <= k < n - 1 implies rest[k] == sep by {
            assert(rest[k] == s[k + 1]);
        }
        lemma_pieces_behind_separators(rest, n - 1, sep);
        assert(rest.skip(n - 1) =~= s.skip(n));
        let one = split(none, sep);
        let more = split(rest, sep);
        assert(one =~= seq![none]);
        Seq::filter_distributes_over_add(one, more, keep);
        assert(one.filter(keep) =~= Seq::empty()) by {
            reveal(Seq::filter);
            assert(!keep(one.last()));
            assert(one.drop_last().filter(keep) =~= Seq::empty());
        }
        assert((one + more).filter(keep) =~= more.filter(keep));
        let dots = seq!['.', '.'];
        if more.contains(dots) {
            let k = choose|k: int| 0 <= k < more.len() && more[k] == dots;
            assert((one + more)[k + 1] == dots);
        }
        if (one + more).contains(dots) {
            let k = choose|k: int| 0 <= k < (one + more).len() && (one + more)[k] == dots;
            assert(dots.len() == 2);
            assert(k > 0);
            assert(more[k - 1] == dots);
        }
    }
}

proof fn lemma_filter_keeps_dots(pieces: Seq<Seq<char>>)
    ensures
        pieces.filter(|x: Seq<char>| x.len() > 0 && x != seq!['.']).contains(seq!['.', '.']) <==> pieces.contains(
            seq!['.', '.'],
        ),
{
    let keep = |x: Seq<char>| x.len() > 0 && x != seq!['.'];
    let dots = seq!['.', '.'];
    assert(dots.len() == 2 && seq!['.'].len() == 1);
    assert(keep(dots));
    broadcast use vstd::seq_lib::group_filter_ensures;

    if pieces.contains(dots) {
        let k = choose|k: int| 0 <= k < pieces.len() && pieces[k] == dots;
        assert(pieces.filter(keep).contains(pieces[k]));
    }
    if pieces.filter(keep).contains(dots) {
        pieces.lemma_filter_contains_rev(keep, dots);
    }
}

/// What a request's path means on Unix: what stands between its slashes, without the white space round the
/// path, and is neither empty nor a dot. It leads away exactly if two dots stand between slashes.
pub proof fn law_unix_request_means_what_stands_between_slashes(path: Seq<char>)
    ensures
        ({
            let pieces = split(trim(path), '/');
            let names = pieces.filter(|x: Seq<char>| x.len() > 0 && x != seq!['.']);
            &&& requested_parts(PathStyle::Unix, path) == names
            &&& leads_away(PathStyle::Unix, path) <==> pieces.contains(seq!['.', '.'])
            &&& normalized(PathStyle::Unix, path) == (if pieces.contains(seq!['.', '.']) {
                None
            } else {
                Some(join(names, '/'))
            })
        }),
{
    let style = PathStyle::Unix;
    let t = trim(path);
    let s = skip_slashes(t);
    let n = t.len() - s.len();
    lemma_slashes_before(t);
    lemma_no_slash_before(t);
    lemma_no_prefix(style, s);
    lemma_plain_components(split(s, '/'));
    lemma_pieces_behind_separators(t, n, '/');
    lemma_filter_keeps_dots(split(s, '/'));
    if !leads_away(style, path) {
        assert(!names_a_drive(style, path)) by {
            if names_a_drive(style, path) {
                let k = choose|k: int|
                    0 <= k < requested_parts(style, path).len() && prefix(
                        style,
                        #[trigger] requested_parts(style, path)[k],
                    ) == Prefix::Drive;
                lemma_prefix(style, requested_parts(style, path)[k]);
            }
        }
        law_normalized_path_leads_down(style, path);
    }
}

/// What a request's path means on Windows: as on Unix, with slashes and backslashes alike. It leads away if
/// two dots stand between separators, if a backslash stands before everything else, or a letter with a
/// colon does.
pub proof fn law_windows_request_means_what_stands_between_separators(path: Seq<char>)
    ensures
        ({
            let style = PathStyle::Windows;
            let s = skip_slashes(trim(path));
            let pieces = split(replace(trim(path), '/', '\\'), '\\');
            let names = pieces.filter(|x: Seq<char>| x.len() > 0 && x != seq!['.']);
            &&& leads_away(style, path) <==> pieces.contains(seq!['.', '.']) || (s.len() > 0 && s[0] == '\\') || (s.len()
                >= 2 && is_letter(s[0]) && s[1] == ':')
            &&& !leads_away(style, path) ==> requested_parts(style, path) == names
        }),
{
    let style = PathStyle::Windows;
    let t = trim(path);
    let s = skip_slashes(t);
    let n = t.len() - s.len();
    lemma_slashes_before(t);
    lemma_no_slash_before(t);
    let q = replace(t, '/', '\\');
    assert forall|k: int| 0 <= k < n implies q[k] == '\\' by {
        assert(t[k] == '/');
    }
    assert(q.skip(n) =~= replace(s, '/', '\\'));
    lemma_pieces_behind_separators(q, n, '\\');
    let c = canonical(style, s);
    if s.len() > 0 && s[0] == '\\' {
        lemma_backslash_leads_away(s);
    } else {
        assert(c =~= replace(s, '/', '\\'));
        lemma_plain_components(split(c, '\\'));
        lemma_filter_keeps_dots(split(c, '\\'));
        assert(prefix(style, c) != Prefix::Absent <==> s.len() >= 2 && is_letter(s[0]) && s[1] == ':') by {
            reveal(prefix);
            if s.len() > 0 {
                assert(c[0] == s[0]);
            }
            if s.len() > 1 {
                assert(s[1] != '/' ==> c[1] == s[1]);
                assert(s[1] == '/' ==> c[1] == '\\');
            }
        }
    }
}

proof fn lemma_backslash_leads_away(s: Seq<char>)
    requires
        s.len() > 0,
        s[0] == '\\',
    ensures
        prefix(PathStyle::Windows, canonical(PathStyle::Windows, s)) != Prefix::Absent || is_rooted(
            PathStyle::Windows,
            canonical(PathStyle::Windows, s),
        ),
{
    let style = PathStyle::Windows;
    let c = canonical(style, s);
    let q = replace(s, '/', '\\');
    if is_verbatim(s) {
        assert(is_rooted(style, c));
    } else if is_verbatim(q) {
        if q.len() > 4 && q[4] != '\\' {
            reveal(prefix);
            reveal_with_fuel(crate::path::next_backslash, 2);
            assert(crate::path::next_backslash(c, 2) == 3);
            crate::path::lemma_next_backslash(c, 5);
            assert(crate::path::names_share(c));
        } else {
            assert(c[0] == q[1]);
        }
    } else {
        assert(c[0] == q[0]);
    }
}

/// Where a request leads on Unix, letter by letter: to the root, a slash where there is none, the name of the
/// directory, and then a slash and each name of the path.
pub proof fn law_unix_request_leads_to_its_names(root: Seq<char>, root_name: Seq<char>, path: Seq<char>)
    requires
        root.len() > 0,
        seq!["scripts"@, "templates"@, "logs"@].contains(root_name),
        !split(trim(path), '/').contains(seq!['.', '.']),
    ensures
        ({
            let names = split(trim(path), '/').filter(|x: Seq<char>| x.len() > 0 && x != seq!['.']);
            let base = (if root.last() == '/' {
                root
            } else {
                root + seq!['/']
            }) + root_name;
            &&& target_of(PathStyle::Unix, root, root_name, path) matches Ok(target)
            &&& target.relative == join(names, '/')
            &&& target.path == base + seq!['/'] + join(names, '/')
            &&& target.root_name == root_name
        }),
{
    let style = PathStyle::Unix;
    let names = split(trim(path), '/').filter(|x: Seq<char>| x.len() > 0 && x != seq!['.']);
    law_workspace_has_three_directories(root_name);
    law_unix_request_means_what_stands_between_slashes(path);
    lemma_no_prefix(style, root);
    law_settled_root_holds_files(style, root, root_name);
    assert(!names_a_drive(style, path)) by {
        if names_a_drive(style, path) {
            let k = choose|k: int|
                0 <= k < requested_parts(style, path).len() && prefix(
                    style,
                    #[trigger] requested_parts(style, path)[k],
                ) == Prefix::Drive;
            lemma_prefix(style, requested_parts(style, path)[k]);
        }
    }
    law_request_leads_into_its_directory(style, root, root_name, path);
    lemma_root_name(style, root_name);
    assert(root_name.contains(root_name[0]) && root_name.contains(root_name.last()));
    let base = join_path(style, root, root_name);
    law_unix_join(root, root_name);
    lemma_requested_parts(style, path);
    law_names_are_components(style, names);
    law_unix_join(base, join(names, '/'));
    assert(base.last() == root_name.last());
}

/// A write that fails in one of its actions, other than looking for the file and reading the clock, ends
/// with that failure.
pub proof fn law_failed_write_is_answered_with_the_failure(job: WriteJobView, failure: IoFailure)
    ensures
        job.stage != WriteStage::Existing && job.stage != WriteStage::Clock ==> (job.next(
            Err(failure),
        ) matches WriteNextView::Finished(Err(e)) && e.message == failure.message@ && (e.status == 404 <==> failure.kind
            == IoErrorKind::NotFound) && (e.status == 403 <==> failure.kind == IoErrorKind::PermissionDenied)),
        job.stage == WriteStage::Existing ==> (job.next(Err(failure)) matches WriteNextView::Do(_, action) && action == (
        DiskAction::Write { path: job.target.path, content: job.content })),
        job.stage == WriteStage::Clock ==> job.next(Err(failure)) == job.next(Ok(0)),
{
}

/// A deletion that fails is answered with the failure, and nothing is removed after that.
pub proof fn law_failed_deletion_is_answered_with_the_failure(job: DeleteJob<Seq<char>>, failure: IoFailure)
    ensures
        delete_next(job, Err(failure)) matches DeleteNextView::Finished(Err(e)) && e.message == failure.message@ && (e.status
            == 404 <==> failure.kind == IoErrorKind::NotFound) && (e.status == 403 <==> failure.kind
            == IoErrorKind::PermissionDenied),
{
}

/// A request that must name something and does not is refused with the message for that; a request that is
/// refused otherwise begins nothing.
pub proof fn law_refused_request_touches_nothing(
    style: PathStyle,
    root: Seq<char>,
    root_name: Seq<char>,
    path: Seq<char>,
    content: Seq<char>,
)
    ensures
        named_target_of(style, root, root_name, path, "file path is required"@) matches Err(e) ==> write_begins(
            style,
            root,
            root_name,
            path,
            content,
        ) == WriteNextView::Finished(Err(e)),
        named_target_of(style, root, root_name, path, "path is required"@) matches Err(e) ==> delete_begins(
            style,
            root,
            root_name,
            path,
        ) == DeleteNextView::Finished(Err(e)),
        target_of(style, root, root_name, path) matches Err(e) ==> named_target_of(
            style,
            root,
            root_name,
            path,
            "path is required"@,
        ) is Err,
        normalized(style, path) matches Some(relative) ==> (relative.len() > 0 ==> named_target_of(
            style,
            root,
            root_name,
            path,
            "path is required"@,
        ) == target_of(style, root, root_name, path)),
{
}

/// A history copy is named after the time in seconds, in decimal notation, and after the file, with a dot
/// between them: the name of the file and the time can be read off it.
pub proof fn law_history_copy_tells_time_and_file(seconds: u64, name: Seq<char>, later: u64, other: Seq<char>)
    ensures
        history_name(seconds, name) == decimal(seconds as nat) + seq!['.'] + name,
        history_name(seconds, name) == history_name(later, other) ==> seconds == later && name == other,
{
    let a = decimal(seconds as nat);
    let b = decimal(later as nat);
    lemma_decimal(seconds as nat);
    lemma_decimal(later as nat);
    let x = history_name(seconds, name);
    let y = history_name(later, other);
    assert(x =~= a + seq!['.'] + name);
    assert(y =~= b + seq!['.'] + other);
    if x == y {
        assert(x[a.len() as int] == '.' && y[b.len() as int] == '.');
        if a.len() < b.len() {
            assert(y[a.len() as int] == b[a.len() as int]);
            assert(is_digit(b[a.len() as int]));
        }
        if b.len() < a.len() {
            assert(x[b.len() as int] == a[b.len() as int]);
            assert(is_digit(a[b.len() as int]));
        }
        assert(a =~= x.take(a.len() as int));
        assert(b =~= y.take(a.len() as int));
        assert(name =~= x.skip(a.len() as int + 1));
        assert(other =~= y.skip(a.len() as int + 1));
    }
}

/// Where history copies stand: in the directory `history` of the directory that was written to.
pub proof fn law_history_stands_in_its_directory(
    style: PathStyle,
    root: Seq<char>,
    root_name: Seq<char>,
    target: TargetView,
    seconds: u64,
    name: Seq<char>,
)
    requires
        is_base(style, join_path(style, root, root_name)),
        target.root_name == root_name,
        file_name(style, target.relative) == Some(name),
        is_component(false, name),
        !name.contains(style.separator()),
    ensures
        components(style, history_directory(style, root, root_name)) == components(
            style,
            join_path(style, root, root_name),
        ).push("history"@),
        components(style, history_path(style, root, target, seconds)) == components(
            style,
            join_path(style, root, root_name),
        ).push("history"@).push(decimal(seconds as nat) + seq!['.'] + name),
{
    let base = join_path(style, root, root_name);
    lemma_history_names(style, seconds, name);
    lemma_name_below_base(style, base, "history"@);
    lemma_name_below_base(style, join_path(style, base, "history"@), history_name(seconds, name));
    assert(history_name(seconds, name) =~= decimal(seconds as nat) + seq!['.'] + name);
}

proof fn lemma_history_names(style: PathStyle, seconds: u64, name: Seq<char>)
    requires
        !name.contains(style.separator()),
    ensures
        is_single_name(style, "history"@),
        is_single_name(style, history_name(seconds, name)),
{
    let sep = style.separator();
    reveal_strlit("history");
    let dots = seq!['.', '.'];
    assert(dots[0] == '.' && seq!['.'][0] == '.');
    assert("history"@[0] == 'h' && "history"@[1] == 'i');
    assert(is_single_name(style, "history"@)) by {
        assert(forall|k: int| 0 <= k < "history"@.len() ==> "history"@[k] != '/' && "history"@[k] != '\\');
        lemma_no_prefix(style, "history"@);
    }
    let digits = decimal(seconds as nat);
    let full = history_name(seconds, name);
    lemma_decimal(seconds as nat);
    assert(is_digit(digits[0]));
    assert(full[0] == digits[0]);
    assert forall|k: int| 0 <= k < full.len() implies full[k] != sep by {
        if k < digits.len() {
            assert(is_digit(digits[k]));
            assert(full[k] == digits[k]);
        } else if k > digits.len() {
            assert(full[k] == name[k - digits.len() - 1]);
            assert(name.contains(name[k - digits.len() - 1]));
        }
    }
    assert(full.contains(full[0]) && full.contains(full[1]));
    lemma_no_prefix(style, full);
}

/// The root of the workspace is the one that is configured, unless that is blank, on Unix to the letter;
/// otherwise the directory `workspace` in the current one. If the current one is not known, neither is the
/// root.
pub proof fn law_root_is_configured_or_in_the_current_directory(
    configured: Option<Seq<char>>,
    current: Result<Seq<char>, ReplyView>,
)
    ensures
        ({
            let root = workspace_root(PathStyle::Unix, configured, current);
            if configured is Some && trim(configured->0).len() > 0 {
                root == Ok::<Seq<char>, ReplyView>(configured->0)
            } else {
                match current {
                    Ok(dir) => if dir.len() == 0 {
                        root == Ok::<Seq<char>, ReplyView>("workspace"@)
                    } else if dir.last() == '/' {
                        root == Ok::<Seq<char>, ReplyView>(dir + "workspace"@)
                    } else {
                        root == Ok::<Seq<char>, ReplyView>(dir + "/workspace"@)
                    },
                    Err(e) => root == Err::<Seq<char>, ReplyView>(e),
                }
            }
        }),
{
    reveal_strlit("workspace");
    reveal_strlit("/workspace");
    if let Ok(dir) = current {
        law_unix_join(dir, "workspace"@);
        assert("/workspace"@ =~= seq!['/'] + "workspace"@);
        assert(dir + seq!['/'] + "workspace"@ =~= dir + "/workspace"@);
    }
}

/// A request for the directory itself is refused, with the message that is given for it, where something
/// below it must be named. On Unix such a request has nothing but dots between its slashes.
pub proof fn law_request_must_name_something(
    style: PathStyle,
    root: Seq<char>,
    root_name: Seq<char>,
    path: Seq<char>,
    missing: Seq<char>,
)
    requires
        seq!["scripts"@, "templates"@, "logs"@].contains(root_name),
        !leads_away(style, path),
        requested_parts(style, path).len() == 0,
    ensures
        named_target_of(style, root, root_name, path, missing) matches Err(e) && e.status == 400 && e.message
            == missing,
        write_begins(style, root, root_name, path, missing) matches WriteNextView::Finished(Err(e)) && e.status == 400
            && e.message == "file path is required"@,
        delete_begins(style, root, root_name, path) matches DeleteNextView::Finished(Err(e)) && e.status == 400
            && e.message == "path is required"@,
{
    law_workspace_has_three_directories(root_name);
    assert(path_of(style, requested_parts(style, path)) =~= Seq::empty());
}

/// Where a path of a directory stands on Unix: below the directory, or, if it begins at the root, where it
/// says; and that is refused exactly if it does not begin with the names of the directory.
pub proof fn law_unix_path_is_resolved(root: Seq<char>, root_name: Seq<char>, relative: Seq<char>)
    requires
        root.len() > 0,
        root.last() != '/',
        root_name.len() > 0,
        root_name[0] != '/',
        root_name.last() != '/',
    ensures
        ({
            let base = root + seq!['/'] + root_name;
            let full = if relative.len() > 0 && relative[0] == '/' {
                relative
            } else {
                base + seq!['/'] + relative
            };
            let names = components(PathStyle::Unix, base);
            let found = components(PathStyle::Unix, full);
            let inside = names.len() <= found.len() && found.take(names.len() as int) == names;
            &&& inside ==> resolved(PathStyle::Unix, root, root_name, relative) == Ok::<Seq<char>, ReplyView>(full)
            &&& !inside ==> (resolved(PathStyle::Unix, root, root_name, relative) matches Err(e) && e.status == 403
                && e.message == "path escapes workspace"@)
        }),
{
    let base = root + seq!['/'] + root_name;
    law_unix_join(root, root_name);
    law_unix_join(base, relative);
    assert(base.last() == root_name.last());
    law_path_lies_in_another_by_components(
        PathStyle::Unix,
        join_path(PathStyle::Unix, base, relative),
        base,
    );
}

/// How a path below a directory of the workspace is shown: by the names that lead to it from there. A path
/// that does not begin with the names of the directory is refused.
pub proof fn law_path_is_shown_from_its_directory(
    style: PathStyle,
    root: Seq<char>,
    root_name: Seq<char>,
    names: Seq<Seq<char>>,
    path: Seq<char>,
)
    requires
        is_base(style, join_path(style, root, root_name)),
        names.len() > 0,
        leads_down(style, names),
    ensures
        ({
            let base = join_path(style, root, root_name);
            let below = join_path(style, base, join(names, style.separator()));
            web_path_below(style, root_name, below, root) == Ok::<Seq<char>, ReplyView>(
                seq!['/'] + replace(join(names, style.separator()), '\\', '/'),
            )
        }),
        ({
            let base = components(style, join_path(style, root, root_name));
            let found = components(style, path);
            !(base.len() <= found.len() && found.take(base.len() as int) == base) ==> (web_path_below(
                style,
                root_name,
                path,
                root,
            ) matches Err(e) && e.status == 403 && e.message == "path escapes workspace"@)
        }),
{
    let base = join_path(style, root, root_name);
    law_strip_undoes_join(style, base, names);
    law_path_lies_in_another_by_components(style, path, base);
}

/// The path of an entry on Unix: that of its directory, a slash, and its name; all of it behind a slash and
/// with slashes for backslashes.
pub proof fn law_unix_entry_has_the_path_of_its_name(relative: Seq<char>, e: DiskEntry)
    requires
        e.name@.len() > 0,
        e.name@[0] != '/',
        relative.len() > 0 ==> relative.last() != '/',
    ensures
        listed(PathStyle::Unix, relative, e).path == seq!['/'] + replace(
            if relative.len() == 0 {
                e.name@
            } else {
                relative + seq!['/'] + e.name@
            },
            '\\',
            '/',
        ),
{
    law_unix_join(relative, e.name@);
}

/// A write goes from step to step in one order, with the request that it began with: it looks for the file,
/// copies it, makes a place for its history, reads the clock, copies it again, writes the content, and then
/// answers with the backup that was made.
pub proof fn law_write_goes_step_by_step(job: WriteJobView, seconds: u64)
    ensures
        match job.next(Ok(seconds)) {
            WriteNextView::Do(after, action) => {
                &&& after.style == job.style && after.root == job.root && after.target == job.target && after.content
                    == job.content
                &&& match job.stage {
                    WriteStage::Parent => after.stage == WriteStage::Existing && action == DiskAction::Look(
                        job.target.path,
                    ),
                    WriteStage::Existing => after.stage == WriteStage::Backup && (action matches DiskAction::Copy {
                        from,
                        ..
                    } && from == job.target.path),
                    WriteStage::Backup => after.stage == WriteStage::HistoryDirectory && action
                        == DiskAction::CreateDirectories(
                        history_directory(job.style, job.root, job.target.root_name),
                    ),
                    WriteStage::HistoryDirectory => after.stage == WriteStage::Clock && action is ReadClock,
                    WriteStage::Clock => after.stage == WriteStage::History && (action matches DiskAction::Copy {
                        from,
                        ..
                    } && from == job.target.path),
                    WriteStage::History => after.stage == WriteStage::Content && action == (DiskAction::Write {
                        path: job.target.path,
                        content: job.content,
                    }),
                    WriteStage::Content => false,
                }
            },
            WriteNextView::Finished(Ok(answer)) => job.stage == WriteStage::Content && answer.ok && answer.backup_path
                == job.backup_path,
            WriteNextView::Finished(Err(e)) => {
                ||| job.stage == WriteStage::HistoryDirectory || job.stage == WriteStage::Clock
                ||| job.stage == WriteStage::History && e.status == 403 && e.message == "path escapes workspace"@
            },
        },
{
}

/// A file without a name has no history, and its write is refused before the clock is read.
pub proof fn law_write_needs_a_file_name(job: WriteJobView, seconds: u64)
    requires
        job.stage == WriteStage::HistoryDirectory || job.stage == WriteStage::Clock,
    ensures
        file_name(job.style, job.target.relative) is None ==> (job.next(Ok(seconds)) matches WriteNextView::Finished(
            Err(e),
        ) && e.status == 400 && e.message == "invalid file name"@),
        file_name(job.style, job.target.relative) is Some ==> job.next(Ok(seconds)) is Do,
{
}

} // verus!
