//! The files that a browser may list, read, write and delete.
//!
//! They stand in three directories of the workspace. A request names one of them and a path below
//! it. What is done to the disk is planned here, step by step, and done elsewhere. A workspace is told
//! how its system writes paths. What it hands out are canonical paths: on Windows, where a path may
//! have slashes too, these are equal to the paths with slashes.

use vstd::prelude::*;
use vstd::string::StringExecFns;

use crate::handlers::ReplyView;
use crate::path::{
    PathStyle, Prefix, backup_path, backup_path_of, canonical, canonical_path, component,
    components_among, file_name, has_prefix, is_dot_dot, is_rooted, join_path, join_paths, parent,
    parent_path, path_below, path_file_name, path_starts_with, prefix, rooted, starts_with,
    strip_prefix,
};
use crate::path_laws::{
    law_canonical_again_changes_nothing, law_name_below_canonical_path_is_canonical, lemma_no_prefix,
};
use crate::text::{
    char_texts, chars_of, decimal, opt_text, push_decimal, push_replaced, replace, split, split_chars,
    string_of, text_eq, text_le, text_ordered, trim, trim_bounds, trimmed,
};
use crate::workspace_laws::{is_true_of_one, law_listing_tells_of_every_entry, tells, tells_of};

verus! {

broadcast use vstd::string::group_string_axioms;

// ----- Errors -----

/// Why a request is refused: an HTTP status and a message.
#[derive(Debug)]
pub struct WorkspaceError {
    pub status: u16,
    pub message: String,
}

impl View for WorkspaceError {
    type V = ReplyView;

    open spec fn view(&self) -> ReplyView {
        ReplyView { status: self.status, message: self.message@ }
    }
}

/// The kinds of failure on the disk that are told apart.
#[derive(Clone, Copy, Debug, PartialEq, Eq, Structural)]
pub enum IoErrorKind {
    NotFound,
    PermissionDenied,
    Other,
}

/// A failure on the disk.
#[derive(Debug)]
pub struct IoFailure {
    pub kind: IoErrorKind,
    pub message: String,
}

/// The refusal of a request that a failure on the disk ends.
pub open spec fn io_refusal(failure: IoFailure) -> ReplyView {
    ReplyView {
        status: match failure.kind {
            IoErrorKind::NotFound => 404,
            IoErrorKind::PermissionDenied => 403,
            IoErrorKind::Other => 500,
        },
        message: failure.message@,
    }
}

/// The refusal of a request that makes no sense.
pub open spec fn bad(message: Seq<char>) -> ReplyView {
    ReplyView { status: 400, message }
}

/// The refusal of a request that reaches too far.
pub open spec fn denied(message: Seq<char>) -> ReplyView {
    ReplyView { status: 403, message }
}

impl WorkspaceError {
    /// Refuses a request that makes no sense.
    pub fn bad_request(message: &str) -> (r: Self)
        ensures
            r@ == bad(message@),
            r.status == 400 && r.message@ == message@,
    {
        WorkspaceError { status: 400, message: message.to_owned() }
    }

    /// Refuses a request that reaches too far.
    pub fn forbidden(message: &str) -> (r: Self)
        ensures
            r@ == denied(message@),
            r.status == 403 && r.message@ == message@,
    {
        WorkspaceError { status: 403, message: message.to_owned() }
    }

    /// Refuses a request that a failure on the disk ends.
    pub fn io(error: IoFailure) -> (r: Self)
        ensures
            r@ == io_refusal(error),
            r.message@ == error.message@,
            r.status == match error.kind {
                IoErrorKind::NotFound => 404u16,
                IoErrorKind::PermissionDenied => 403u16,
                IoErrorKind::Other => 500u16,
            },
    {
        let status: u16 = match error.kind {
            IoErrorKind::NotFound => 404,
            IoErrorKind::PermissionDenied => 403,
            IoErrorKind::Other => 500,
        };
        WorkspaceError { status, message: error.message }
    }
}

// ----- Names and paths -----

/// The directories of the workspace.
pub open spec fn is_root_name(name: Seq<char>) -> bool {
    name == "scripts"@ || name == "templates"@ || name == "logs"@
}

/// The directory that a request names.
pub fn normalize_root(root: &str) -> (r: Result<&'static str, WorkspaceError>)
    ensures
        is_root_name(root@) ==> (r matches Ok(name) && name@ == root@),
        !is_root_name(root@) ==> (r matches Err(e) && e@ == bad(
            "root must be scripts, templates, or logs"@,
        )),
        r matches Ok(name) ==> name@ == root@,
        r matches Err(e) ==> e.status == 400 && e.message@ == "root must be scripts, templates, or logs"@,
{
    if text_eq(root, "scripts") {
        Ok("scripts")
    } else if text_eq(root, "templates") {
        Ok("templates")
    } else if text_eq(root, "logs") {
        Ok("logs")
    } else {
        Err(WorkspaceError::bad_request("root must be scripts, templates, or logs"))
    }
}

/// `s` without the slashes at its start.
pub open spec fn skip_slashes(s: Seq<char>) -> Seq<char>
    decreases s.len(),
{
    if s.len() > 0 && s[0] == '/' {
        skip_slashes(s.drop_first())
    } else {
        s
    }
}

/// A request's path without white space round it and slashes before it.
pub open spec fn requested_path(style: PathStyle, path: Seq<char>) -> Seq<char> {
    canonical(style, skip_slashes(trim(path)))
}

/// The components that a request's path has.
pub open spec fn requested_parts(style: PathStyle, path: Seq<char>) -> Seq<Seq<char>> {
    components_among(false, split(requested_path(style, path), style.separator()))
}

/// Whether a request's path leads away from where it starts: it has a prefix, starts at the root or
/// climbs with the component `..`.
pub open spec fn leads_away(style: PathStyle, path: Seq<char>) -> bool {
    ||| prefix(style, requested_path(style, path)) != Prefix::Absent
    ||| is_rooted(style, requested_path(style, path))
    ||| requested_parts(style, path).contains(seq!['.', '.'])
}

/// The path that names make, each as seen from those before it.
pub open spec fn path_of(style: PathStyle, parts: Seq<Seq<char>>) -> Seq<char>
    decreases parts.len(),
{
    if parts.len() == 0 {
        Seq::empty()
    } else {
        join_path(style, path_of(style, parts.drop_last()), parts.last())
    }
}

/// The path below its directory that a request's path means, made of its components. There is none if
/// it leads away.
pub open spec fn normalized(style: PathStyle, path: Seq<char>) -> Option<Seq<char>> {
    if leads_away(style, path) {
        None
    } else {
        Some(path_of(style, requested_parts(style, path)))
    }
}

proof fn lemma_skip_slashes(s: Seq<char>, n: int)
    requires
        0 <= n <= s.len(),
        forall|k: int| 0 <= k < n ==> s[k] == '/',
        n < s.len() ==> s[n] != '/',
    ensures
        skip_slashes(s) == s.skip(n),
    decreases n,
{
    if n > 0 {
        let rest = s.drop_first();
        assert forall|k: int| 0 <= k < n - 1 implies rest[k] == '/' by {
            assert(rest[k] == s[k + 1]);
        }
        lemma_skip_slashes(rest, n - 1);
        assert(rest.skip(n - 1) =~= s.skip(n));
    } else {
        assert(s.skip(0) =~= s);
    }
}

proof fn lemma_components_grow(pieces: Seq<Seq<char>>, n: int, part: Seq<char>)
    requires
        0 <= n <= pieces.len(),
        components_among(false, pieces.take(n)).contains(part),
    ensures
        components_among(false, pieces).contains(part),
    decreases pieces.len() - n,
{
    if n < pieces.len() {
        let before = components_among(false, pieces.take(n));
        let after = components_among(false, pieces.take(n + 1));
        assert(pieces.take(n + 1).drop_last() =~= pieces.take(n));
        let k = choose|k: int| 0 <= k < before.len() && before[k] == part;
        assert(after[k] == part);
        lemma_components_grow(pieces, n + 1, part);
    } else {
        assert(pieces.take(n) =~= pieces);
    }
}

/// The path below its directory that a request's path means.
pub fn normalize_relative_path(style: PathStyle, path: &str) -> (r: Result<String, WorkspaceError>)
    ensures
        match normalized(style, path@) {
            Some(relative) => r matches Ok(s) && s@ == relative,
            None => r matches Err(e) && e@ == denied("path traversal is not allowed"@),
        },
        r matches Err(e) ==> e.status == 403 && e.message@ == "path traversal is not allowed"@,
{
    let chars = chars_of(path);
    let (from, to) = trim_bounds(&chars);
    let ghost kept = trim(path@);
    let mut start: usize = from;
    while start < to && chars[start] == '/'
        invariant
            from <= start <= to <= chars@.len(),
            kept == chars@.subrange(from as int, to as int),
            forall|k: int| 0 <= k < start - from ==> kept[k] == '/',
        decreases to - start,
    {
        start = start + 1;
    }
    let kept_text = string_of(&chars, start, to);
    proof {
        if start < to {
            assert(kept[start - from] == chars@[start as int]);
        }
        lemma_skip_slashes(kept, start - from);
        assert(kept_text@ =~= kept.skip(start - from));
    }
    let rest = canonical_path(style, kept_text.as_str());
    let inner = chars_of(rest.as_str());
    if has_prefix(style, &inner) || rooted(style, &inner) {
        return Err(WorkspaceError::forbidden("path traversal is not allowed"));
    }
    let pieces = split_chars(&inner, style.sep());
    let ghost texts = split(rest@, style.separator());
    assert(char_texts(pieces@) == texts);
    let mut out = String::new();
    let mut i: usize = 0;
    let ghost dots = seq!['.', '.'];
    assert(texts.take(0) =~= Seq::empty());
    while i < pieces.len()
        invariant
            i <= pieces@.len(),
            texts == char_texts(pieces@),
            dots == seq!['.', '.'],
            requested_parts(style, path@) == components_among(false, texts),
            !components_among(false, texts.take(i as int)).contains(dots),
            out@ == path_of(style, components_among(false, texts.take(i as int))),
        decreases pieces@.len() - i,
    {
        let ghost before = components_among(false, texts.take(i as int));
        let ghost after = components_among(false, texts.take(i + 1));
        assert(texts.take(i + 1).drop_last() =~= texts.take(i as int));
        assert(texts.take(i + 1).last() == pieces@[i as int]@);
        if component(false, &pieces[i]) {
            assert(after == before.push(pieces@[i as int]@));
            if is_dot_dot(&pieces[i]) {
                proof {
                    assert(after[before.len() as int] == dots);
                    lemma_components_grow(texts, i + 1, dots);
                }
                return Err(WorkspaceError::forbidden("path traversal is not allowed"));
            }
            proof {
                assert(after.drop_last() =~= before);
                assert forall|k: int| 0 <= k < after.len() implies #[trigger] after[k] != dots by {
                    if k < before.len() {
                        assert(before[k] == after[k]);
                        assert(before.contains(before[k]));
                    }
                }
            }
            let piece = string_of(&pieces[i], 0, pieces[i].len());
            assert(piece@ =~= pieces@[i as int]@);
            out = join_paths(style, out.as_str(), piece.as_str());
        }
        i = i + 1;
    }
    assert(texts.take(i as int) =~= texts);
    Ok(out)
}

/// A path as a browser writes it: a slash, then the path with slashes only.
pub open spec fn web_path(p: Seq<char>) -> Seq<char> {
    seq!['/'] + replace(p, '\\', '/')
}

/// A path as a browser writes it.
pub fn relative_to_web_path(path: &str) -> (r: String)
    ensures
        r@ == web_path(path@),
{
    let mut out = String::new();
    out.push('/');
    assert(out@ =~= seq!['/']);
    push_replaced(&mut out, path, '\\', '/');
    out
}

/// The path of `name` in the directory `parent`, as a browser writes it.
pub fn join_web_path(style: PathStyle, parent: &str, name: &str) -> (r: String)
    ensures
        r@ == web_path(join_path(style, canonical(style, parent@), canonical(style, name@))),
{
    let directory = canonical_path(style, parent);
    let entry = canonical_path(style, name);
    let path = join_paths(style, directory.as_str(), entry.as_str());
    relative_to_web_path(path.as_str())
}

/// The path below a directory of the workspace, as a browser writes it, that leads to `path`.
pub open spec fn web_path_below(
    style: PathStyle,
    root_name: Seq<char>,
    path: Seq<char>,
    workspace_root: Seq<char>,
) -> Result<Seq<char>, ReplyView> {
    match strip_prefix(style, path, join_path(style, workspace_root, root_name)) {
        Some(relative) => Ok(web_path(relative)),
        None => Err(denied("path escapes workspace"@)),
    }
}

/// What a text or a refusal holds.
pub open spec fn text_result(r: Result<String, WorkspaceError>) -> Result<Seq<char>, ReplyView> {
    match r {
        Ok(s) => Ok(s@),
        Err(e) => Err(e@),
    }
}

fn canonical_to_web_path(style: PathStyle, root_name: &str, path: &str, workspace_root: &str) -> (r: Result<
    String,
    WorkspaceError,
>)
    ensures
        text_result(r) == web_path_below(style, root_name@, path@, workspace_root@),
        r matches Err(e) ==> e.status == 403 && e.message@ == "path escapes workspace"@,
{
    let root = join_paths(style, workspace_root, root_name);
    match path_below(style, path, root.as_str()) {
        Some(relative) => Ok(relative_to_web_path(relative.as_str())),
        None => Err(WorkspaceError::forbidden("path escapes workspace")),
    }
}

/// The path below a directory of the workspace, as a browser writes it, that leads to `path`.
pub fn path_to_web_path(style: PathStyle, root_name: &str, path: &str, workspace_root: &str) -> (r: Result<
    String,
    WorkspaceError,
>)
    ensures
        text_result(r) == web_path_below(
            style,
            canonical(style, root_name@),
            canonical(style, path@),
            canonical(style, workspace_root@),
        ),
        r matches Err(e) ==> e.status == 403 && e.message@ == "path escapes workspace"@,
{
    let name = canonical_path(style, root_name);
    let full = canonical_path(style, path);
    let root = canonical_path(style, workspace_root);
    canonical_to_web_path(style, name.as_str(), full.as_str(), root.as_str())
}

// ----- Requests and answers -----

/// Names a file or a directory.
#[derive(Debug)]
pub struct FileQuery {
    pub root: String,
    pub path: String,
}

/// Names a file, and what it shall hold.
#[derive(Debug)]
pub struct WriteFileRequest {
    pub root: String,
    pub path: String,
    pub content: String,
}

/// An entry of a directory, as a browser sees it.
#[derive(Debug)]
pub struct FileEntry {
    pub name: String,
    pub path: String,
    pub kind: String,
    pub size: u64,
    pub modified_ms: u128,
}

/// The entries of a directory.
#[derive(Debug)]
pub struct FileListResponse {
    pub root: String,
    pub path: String,
    pub entries: Vec<FileEntry>,
}

/// What a file holds.
#[derive(Debug)]
pub struct FileReadResponse {
    pub root: String,
    pub path: String,
    pub content: String,
}

/// A file was written or deleted.
#[derive(Debug)]
pub struct FileWriteResponse {
    pub ok: bool,
    pub backup_path: Option<String>,
}

/// An entry of a directory, as the disk gives it. The time is in milliseconds since 1970, `None` where
/// it is not known or lies before.
#[derive(Debug)]
pub struct DiskEntry {
    pub name: String,
    pub is_dir: bool,
    pub size: u64,
    pub modified_ms: Option<u128>,
}

/// What an entry holds.
pub struct EntryView {
    pub name: Seq<char>,
    pub path: Seq<char>,
    pub kind: Seq<char>,
    pub size: u64,
    pub modified_ms: u128,
}

impl View for FileEntry {
    type V = EntryView;

    open spec fn view(&self) -> EntryView {
        EntryView {
            name: self.name@,
            path: self.path@,
            kind: self.kind@,
            size: self.size,
            modified_ms: self.modified_ms,
        }
    }
}

/// What a sequence of entries holds.
pub open spec fn entries_view(v: Seq<FileEntry>) -> Seq<EntryView> {
    v.map_values(|e: FileEntry| e@)
}

/// What the answer to a write or a deletion holds.
pub struct WrittenView {
    pub ok: bool,
    pub backup_path: Option<Seq<char>>,
}

impl View for FileWriteResponse {
    type V = WrittenView;

    open spec fn view(&self) -> WrittenView {
        WrittenView { ok: self.ok, backup_path: opt_text(self.backup_path) }
    }
}

/// What the answer to a write or a deletion, or its refusal, holds.
pub open spec fn written(r: Result<FileWriteResponse, WorkspaceError>) -> Result<WrittenView, ReplyView> {
    match r {
        Ok(w) => Ok(w@),
        Err(e) => Err(e@),
    }
}

// ----- The workspace -----

/// The directory in which the workspace stands, as a canonical path, and how its system writes paths.
#[derive(Debug)]
pub struct Workspace {
    pub style: PathStyle,
    pub root: String,
}

impl Clone for Workspace {
    fn clone(&self) -> (r: Self)
        ensures
            r.style == self.style,
            r.root@ == self.root@,
    {
        Workspace { style: self.style, root: self.root.clone() }
    }
}

/// Where a request leads.
#[derive(Debug)]
pub struct Target {
    pub root_name: &'static str,
    /// The path below the directory `root_name`.
    pub relative: String,
    /// The path on the disk.
    pub path: String,
}

/// What a target holds.
pub struct TargetView {
    pub root_name: Seq<char>,
    pub relative: Seq<char>,
    pub path: Seq<char>,
}

impl View for Target {
    type V = TargetView;

    open spec fn view(&self) -> TargetView {
        TargetView { root_name: self.root_name@, relative: self.relative@, path: self.path@ }
    }
}

/// Where the path `relative` of the directory `root_name` stands on the disk.
pub open spec fn resolved(
    style: PathStyle,
    root: Seq<char>,
    root_name: Seq<char>,
    relative: Seq<char>,
) -> Result<Seq<char>, ReplyView> {
    let base = join_path(style, root, root_name);
    let full = join_path(style, base, relative);
    if starts_with(style, full, base) {
        Ok(full)
    } else {
        Err(denied("path escapes workspace"@))
    }
}

/// Where a request for `path` of the directory `root_name` leads.
pub open spec fn target_of(
    style: PathStyle,
    root: Seq<char>,
    root_name: Seq<char>,
    path: Seq<char>,
) -> Result<TargetView, ReplyView> {
    if !is_root_name(root_name) {
        Err(bad("root must be scripts, templates, or logs"@))
    } else {
        match normalized(style, path) {
            None => Err(denied("path traversal is not allowed"@)),
            Some(relative) => match resolved(style, root, root_name, relative) {
                Ok(full) => Ok(TargetView { root_name, relative, path: full }),
                Err(e) => Err(e),
            },
        }
    }
}

/// What a target or a refusal holds.
pub open spec fn target_result(r: Result<Target, WorkspaceError>) -> Result<TargetView, ReplyView> {
    match r {
        Ok(t) => Ok(t@),
        Err(e) => Err(e@),
    }
}

/// The root of the workspace: the one that is configured, unless it is blank, otherwise the
/// directory `workspace` in the current one.
pub open spec fn workspace_root(
    style: PathStyle,
    configured: Option<Seq<char>>,
    current_dir: Result<Seq<char>, ReplyView>,
) -> Result<Seq<char>, ReplyView> {
    if configured matches Some(root) && trim(root).len() > 0 {
        Ok(canonical(style, configured->0))
    } else {
        match current_dir {
            Ok(dir) => Ok(join_path(style, canonical(style, dir), "workspace"@)),
            Err(e) => Err(e),
        }
    }
}

impl Workspace {
    /// The workspace with the root that is configured, or in the current directory, which may not be
    /// known.
    pub fn new(
        style: PathStyle,
        configured: Option<String>,
        current_dir: Result<String, WorkspaceError>,
    ) -> (r: Result<Workspace, WorkspaceError>)
        ensures
            match workspace_root(style, opt_text(configured), text_result(current_dir)) {
                Ok(root) => r matches Ok(w) && w.style == style && w.root@ == root,
                Err(e) => r matches Err(x) && x@ == e,
            },
            r matches Ok(w) ==> canonical(style, w.root@) == w.root@,
    {
        if let Some(root) = configured {
            if !trimmed(root.as_str()).as_str().is_empty() {
                proof {
                    law_canonical_again_changes_nothing(style, root@);
                }
                return Ok(Workspace { style, root: canonical_path(style, root.as_str()) });
            }
        }
        match current_dir {
            Ok(dir) => {
                let current = canonical_path(style, dir.as_str());
                proof {
                    reveal_strlit("workspace");
                    assert("workspace"@[0] == 'w' && "workspace"@[1] == 'o');
                    lemma_no_prefix(style, "workspace"@);
                    law_canonical_again_changes_nothing(style, dir@);
                    law_name_below_canonical_path_is_canonical(style, current@, "workspace"@);
                }
                Ok(Workspace { style, root: join_paths(style, current.as_str(), "workspace") })
            },
            Err(e) => Err(e),
        }
    }

    /// The directories that the workspace has.
    pub fn directories(&self) -> (r: Vec<String>)
        ensures
            crate::text::strings(r@) == seq![
                join_path(self.style, self.root@, "scripts"@),
                join_path(self.style, self.root@, "templates"@),
                join_path(self.style, self.root@, "logs"@),
            ],
    {
        let mut out: Vec<String> = Vec::new();
        out.push(join_paths(self.style, self.root.as_str(), "scripts"));
        out.push(join_paths(self.style, self.root.as_str(), "templates"));
        out.push(join_paths(self.style, self.root.as_str(), "logs"));
        assert(crate::text::strings(out@) =~= seq![
            join_path(self.style, self.root@, "scripts"@),
            join_path(self.style, self.root@, "templates"@),
            join_path(self.style, self.root@, "logs"@),
        ]);
        out
    }

    fn resolve_canonical(&self, root_name: &str, relative: &str) -> (r: Result<String, WorkspaceError>)
        ensures
            text_result(r) == resolved(self.style, self.root@, root_name@, relative@),
            r matches Err(e) ==> e.status == 403 && e.message@ == "path escapes workspace"@,
    {
        let base = join_paths(self.style, self.root.as_str(), root_name);
        let full = join_paths(self.style, base.as_str(), relative);
        if !path_starts_with(self.style, full.as_str(), base.as_str()) {
            return Err(WorkspaceError::forbidden("path escapes workspace"));
        }
        Ok(full)
    }

    /// Where the path `relative` of the directory `root_name` stands on the disk.
    pub fn resolve(&self, root_name: &str, relative: &str) -> (r: Result<String, WorkspaceError>)
        ensures
            text_result(r) == resolved(
                self.style,
                self.root@,
                canonical(self.style, root_name@),
                canonical(self.style, relative@),
            ),
            r matches Err(e) ==> e.status == 403 && e.message@ == "path escapes workspace"@,
    {
        let name = canonical_path(self.style, root_name);
        let below = canonical_path(self.style, relative);
        self.resolve_canonical(name.as_str(), below.as_str())
    }

    /// Where a request leads.
    pub fn target(&self, root: &str, path: &str) -> (r: Result<Target, WorkspaceError>)
        ensures
            target_result(r) == target_of(self.style, self.root@, root@, path@),
            match r {
                Ok(target) => {
                    &&& target.root_name@ == root@
                    &&& normalized(self.style, path@) == Some(target.relative@)
                    &&& target.path@ == join_path(
                        self.style,
                        join_path(self.style, self.root@, root@),
                        target.relative@,
                    )
                },
                Err(e) => {
                    ||| e.status == 400 && e.message@ == "root must be scripts, templates, or logs"@
                    ||| e.status == 403 && e.message@ == "path traversal is not allowed"@
                    ||| e.status == 403 && e.message@ == "path escapes workspace"@
                },
            },
    {
        let root_name = match normalize_root(root) {
            Ok(name) => name,
            Err(e) => {
                return Err(e);
            },
        };
        let relative = match normalize_relative_path(self.style, path) {
            Ok(s) => s,
            Err(e) => {
                return Err(e);
            },
        };
        match self.resolve_canonical(root_name, relative.as_str()) {
            Ok(full) => Ok(Target { root_name, relative, path: full }),
            Err(e) => Err(e),
        }
    }
}

// ----- Listing -----

/// An entry of the directory `relative`, as a browser sees it.
pub open spec fn listed(style: PathStyle, relative: Seq<char>, e: DiskEntry) -> EntryView {
    EntryView {
        name: e.name@,
        path: web_path(join_path(style, relative, canonical(style, e.name@))),
        kind: if e.is_dir {
            "directory"@
        } else {
            "file"@
        },
        size: e.size,
        modified_ms: match e.modified_ms {
            Some(ms) => ms,
            None => 0,
        },
    }
}

/// Whether an entry of a listing has what the disk says of an entry: its name, its size, whether it is a
/// directory, and its time to the millisecond, 0 where the disk does not know it.
pub open spec fn shows(shown: FileEntry, e: DiskEntry) -> bool {
    &&& shown.name@ == e.name@
    &&& shown.size == e.size
    &&& shown.kind@ == if e.is_dir {
        "directory"@
    } else {
        "file"@
    }
    &&& match e.modified_ms {
        Some(ms) => shown.modified_ms == ms,
        None => shown.modified_ms == 0,
    }
}

/// Whether an entry of the disk is shown among others.
pub open spec fn is_shown(entries: Seq<FileEntry>, e: DiskEntry) -> bool {
    exists|i: int| 0 <= i < entries.len() && shows(#[trigger] entries[i], e)
}

/// Whether an entry of a listing shows one of the disk's.
pub open spec fn shows_one_of(shown: FileEntry, found: Seq<DiskEntry>) -> bool {
    exists|k: int| 0 <= k < found.len() && shows(shown, #[trigger] found[k])
}

/// The order of a listing: by kind, then by name.
pub open spec fn entry_le(a: EntryView, b: EntryView) -> bool {
    if a.kind != b.kind {
        text_le(a.kind, b.kind)
    } else {
        text_le(a.name, b.name)
    }
}

/// `e` put into the sorted sequence `s`, behind the entries that do not come after it.
pub open spec fn put_in_order(s: Seq<EntryView>, e: EntryView) -> Seq<EntryView>
    decreases s.len(),
{
    if s.len() == 0 || entry_le(s.last(), e) {
        s.push(e)
    } else {
        put_in_order(s.drop_last(), e).push(s.last())
    }
}

/// `s` in the order of a listing. Entries of the same kind and name stay in their order.
pub open spec fn in_order(s: Seq<EntryView>) -> Seq<EntryView>
    decreases s.len(),
{
    if s.len() == 0 {
        Seq::empty()
    } else {
        put_in_order(in_order(s.drop_last()), s.last())
    }
}

/// The listing of the directory `relative` whose entries the disk gives as `found`.
pub open spec fn listing(style: PathStyle, relative: Seq<char>, found: Seq<DiskEntry>) -> Seq<EntryView> {
    in_order(found.map_values(|e: DiskEntry| listed(style, relative, e)))
}

fn entry_ordered(a: &FileEntry, b: &FileEntry) -> (r: bool)
    ensures
        r == entry_le(a@, b@),
{
    if text_eq(a.kind.as_str(), b.kind.as_str()) {
        text_ordered(a.name.as_str(), b.name.as_str())
    } else {
        text_ordered(a.kind.as_str(), b.kind.as_str())
    }
}

proof fn lemma_put_in_order(s: Seq<EntryView>, e: EntryView, at: int)
    requires
        0 <= at <= s.len(),
        at > 0 ==> entry_le(s[at - 1], e),
        forall|k: int| at <= k < s.len() ==> !entry_le(#[trigger] s[k], e),
    ensures
        put_in_order(s, e) == s.insert(at, e),
    decreases s.len(),
{
    if at < s.len() {
        assert(!entry_le(s[s.len() - 1], e));
        let head = s.drop_last();
        assert forall|k: int| at <= k < head.len() implies !entry_le(#[trigger] head[k], e) by {
            assert(head[k] == s[k]);
        }
        lemma_put_in_order(head, e, at);
        assert(head.insert(at, e).push(s.last()) =~= s.insert(at, e));
    } else {
        assert(s.push(e) =~= s.insert(at, e));
    }
}

/// Puts `e` into the sorted entries.
fn put_entry(entries: &mut Vec<FileEntry>, e: FileEntry)
    ensures
        entries_view(final(entries)@) == put_in_order(entries_view(old(entries)@), e@),
{
    let ghost s = entries_view(entries@);
    let mut at: usize = entries.len();
    while at > 0 && !entry_ordered(&entries[at - 1], &e)
        invariant
            at <= entries@.len(),
            s == entries_view(entries@),
            forall|k: int| at <= k < s.len() ==> !entry_le(#[trigger] s[k], e@),
        decreases at,
    {
        assert(s[at - 1] == entries@[at - 1]@);
        at = at - 1;
    }
    proof {
        if at > 0 {
            assert(s[at - 1] == entries@[at - 1]@);
        }
        lemma_put_in_order(s, e@, at as int);
    }
    entries.insert(at, e);
    assert(entries_view(entries@) =~= s.insert(at as int, e@));
}

fn list_entries(style: PathStyle, relative: &str, found: Vec<DiskEntry>) -> (r: Vec<FileEntry>)
    ensures
        entries_view(r@) == listing(style, relative@, found@),
        r@.len() == found@.len(),
        forall|k: int| 0 <= k < found@.len() ==> #[trigger] is_shown(r@, found@[k]),
        forall|i: int| 0 <= i < r@.len() ==> #[trigger] shows_one_of(r@[i], found@),
{
    let ghost views = found@.map_values(|e: DiskEntry| listed(style, relative@, e));
    let mut out: Vec<FileEntry> = Vec::new();
    let mut i: usize = 0;
    assert(views.take(0) =~= Seq::empty());
    assert(entries_view(out@) =~= Seq::empty());
    while i < found.len()
        invariant
            i <= found@.len(),
            views == found@.map_values(|e: DiskEntry| listed(style, relative@, e)),
            entries_view(out@) == in_order(views.take(i as int)),
        decreases found@.len() - i,
    {
        let e = &found[i];
        let kind = if e.is_dir {
            "directory".to_owned()
        } else {
            "file".to_owned()
        };
        let modified_ms: u128 = match e.modified_ms {
            Some(ms) => ms,
            None => 0,
        };
        let name = canonical_path(style, e.name.as_str());
        let child = join_paths(style, relative, name.as_str());
        let path = relative_to_web_path(child.as_str());
        let entry = FileEntry {
            name: e.name.clone(),
            path,
            kind,
            size: e.size,
            modified_ms,
        };
        assert(entry@ == views[i as int]);
        assert(views.take(i + 1).drop_last() =~= views.take(i as int));
        put_entry(&mut out, entry);
        i = i + 1;
    }
    assert(views.take(i as int) =~= views);
    proof {
        lemma_entries_are_shown(style, relative@, found@, out@);
    }
    out
}

proof fn lemma_entries_are_shown(
    style: PathStyle,
    relative: Seq<char>,
    found: Seq<DiskEntry>,
    entries: Seq<FileEntry>,
)
    requires
        entries_view(entries) == listing(style, relative, found),
    ensures
        entries.len() == found.len(),
        forall|k: int| 0 <= k < found.len() ==> #[trigger] is_shown(entries, found[k]),
        forall|i: int| 0 <= i < entries.len() ==> #[trigger] shows_one_of(entries[i], found),
{
    let all = listing(style, relative, found);
    law_listing_tells_of_every_entry(style, relative, found);
    assert forall|k: int| 0 <= k < found.len() implies #[trigger] is_shown(entries, found[k]) by {
        assert(tells_of(all, found[k]));
        let i = choose|i: int| 0 <= i < all.len() && tells(#[trigger] all[i], found[k]);
        assert(all[i] == entries[i]@);
        assert(shows(entries[i], found[k]));
    }
    assert forall|i: int| 0 <= i < entries.len() implies #[trigger] shows_one_of(entries[i], found) by {
        assert(all[i] == entries[i]@);
        assert(is_true_of_one(all[i], found));
        let k = choose|k: int| 0 <= k < found.len() && tells(all[i], #[trigger] found[k]);
        assert(shows(entries[i], found[k]));
    }
}

/// What the answer to a read holds.
pub struct ReadView {
    pub root: Seq<char>,
    pub path: Seq<char>,
    pub content: Seq<char>,
}

impl View for FileReadResponse {
    type V = ReadView;

    open spec fn view(&self) -> ReadView {
        ReadView { root: self.root@, path: self.path@, content: self.content@ }
    }
}

/// The answer to a read of a file that the disk gives as `content`.
pub open spec fn read_answer(
    style: PathStyle,
    root: Seq<char>,
    root_name: Seq<char>,
    path: Seq<char>,
    content: Result<Seq<char>, ReplyView>,
) -> Result<ReadView, ReplyView> {
    match target_of(style, root, root_name, path) {
        Err(e) => Err(e),
        Ok(target) => match content {
            Err(e) => Err(e),
            Ok(text) => Ok(ReadView { root: root_name, path: web_path(target.relative), content: text }),
        },
    }
}

impl Workspace {
    /// Lists a directory, whose entries the disk gives as `found`, in any order.
    pub fn list(&self, query: FileQuery, found: Result<Vec<DiskEntry>, IoFailure>) -> (r: Result<
        FileListResponse,
        WorkspaceError,
    >)
        ensures
            match target_of(self.style, self.root@, query.root@, query.path@) {
                Err(e) => r matches Err(x) && x@ == e,
                Ok(target) => match found {
                    Err(failure) => r matches Err(x) && x@ == io_refusal(failure),
                    Ok(entries) => {
                        &&& r matches Ok(response)
                        &&& response.root@ == query.root@
                        &&& response.path@ == web_path(target.relative)
                        &&& entries_view(response.entries@) == listing(self.style, target.relative, entries@)
                        &&& response.entries@.len() == entries@.len()
                        &&& forall|k: int|
                            0 <= k < entries@.len() ==> #[trigger] is_shown(response.entries@, entries@[k])
                        &&& forall|i: int|
                            0 <= i < response.entries@.len() ==> #[trigger] shows_one_of(
                                response.entries@[i],
                                entries@,
                            )
                    },
                },
            },
    {
        let target = match self.target(query.root.as_str(), query.path.as_str()) {
            Ok(t) => t,
            Err(e) => {
                return Err(e);
            },
        };
        match found {
            Err(failure) => Err(WorkspaceError::io(failure)),
            Ok(entries) => Ok(
                FileListResponse {
                    root: target.root_name.to_owned(),
                    path: relative_to_web_path(target.relative.as_str()),
                    entries: list_entries(self.style, target.relative.as_str(), entries),
                },
            ),
        }
    }

    /// Reads a file, which the disk gives as `content`.
    pub fn read_file(&self, query: FileQuery, content: Result<String, IoFailure>) -> (r: Result<
        FileReadResponse,
        WorkspaceError,
    >)
        ensures
            (match r {
                Ok(response) => Ok(response@),
                Err(e) => Err(e@),
            }) == read_answer(
                self.style,
                self.root@,
                query.root@,
                query.path@,
                match content {
                    Ok(text) => Ok(text@),
                    Err(failure) => Err(io_refusal(failure)),
                },
            ),
            r matches Ok(response) ==> {
                &&& content matches Ok(text)
                &&& response.content@ == text@
                &&& response.root@ == query.root@
            },
            target_of(self.style, self.root@, query.root@, query.path@) is Ok ==> match content {
                Ok(_) => r is Ok,
                Err(failure) => r matches Err(e) && e.message@ == failure.message@,
            },
    {
        let target = match self.target(query.root.as_str(), query.path.as_str()) {
            Ok(t) => t,
            Err(e) => {
                return Err(e);
            },
        };
        match content {
            Err(failure) => Err(WorkspaceError::io(failure)),
            Ok(content) => Ok(
                FileReadResponse {
                    root: target.root_name.to_owned(),
                    path: relative_to_web_path(target.relative.as_str()),
                    content,
                },
            ),
        }
    }
}

// ----- Writing -----

/// Where a request leads that must name something below its directory. `missing` is the message
/// for one that does not.
pub open spec fn named_target_of(
    style: PathStyle,
    root: Seq<char>,
    root_name: Seq<char>,
    path: Seq<char>,
    missing: Seq<char>,
) -> Result<TargetView, ReplyView> {
    if is_root_name(root_name) && normalized(style, path) == Some(Seq::<char>::empty()) {
        Err(bad(missing))
    } else {
        target_of(style, root, root_name, path)
    }
}

/// Something to be done to the disk.
#[derive(Debug)]
pub enum DiskAction<S> {
    /// Create the directory, and those above it, where they do not exist.
    CreateDirectories(S),
    /// Look whether something is there, and whether it is a directory.
    Look(S),
    /// Copy a file.
    Copy { from: S, to: S },
    /// Read the clock.
    ReadClock,
    /// Write a file.
    Write { path: S, content: S },
    /// Remove a directory and everything in it.
    RemoveDirectory(S),
    /// Remove a file.
    RemoveFile(S),
}

impl View for DiskAction<String> {
    type V = DiskAction<Seq<char>>;

    open spec fn view(&self) -> DiskAction<Seq<char>> {
        match *self {
            DiskAction::CreateDirectories(p) => DiskAction::CreateDirectories(p@),
            DiskAction::Look(p) => DiskAction::Look(p@),
            DiskAction::Copy { from, to } => DiskAction::Copy { from: from@, to: to@ },
            DiskAction::ReadClock => DiskAction::ReadClock,
            DiskAction::Write { path, content } => DiskAction::Write { path: path@, content: content@ },
            DiskAction::RemoveDirectory(p) => DiskAction::RemoveDirectory(p@),
            DiskAction::RemoveFile(p) => DiskAction::RemoveFile(p@),
        }
    }
}

/// What a write is waiting for.
#[derive(Clone, Copy, Debug, PartialEq, Eq, Structural)]
pub enum WriteStage {
    /// The directory of the file is being created.
    Parent,
    /// It is being looked whether the file exists.
    Existing,
    /// The file is being copied to its backup.
    Backup,
    /// The directory for history copies is being created.
    HistoryDirectory,
    /// The clock is being read.
    Clock,
    /// The file is being copied to its history.
    History,
    /// The new content is being written.
    Content,
}

/// A write that is under way.
#[derive(Debug)]
pub struct WriteJob {
    pub style: PathStyle,
    pub stage: WriteStage,
    pub root: String,
    pub target: Target,
    pub content: String,
    pub backup_path: Option<String>,
}

/// What a write that is under way holds.
pub struct WriteJobView {
    pub style: PathStyle,
    pub stage: WriteStage,
    pub root: Seq<char>,
    pub target: TargetView,
    pub content: Seq<char>,
    pub backup_path: Option<Seq<char>>,
}

impl View for WriteJob {
    type V = WriteJobView;

    open spec fn view(&self) -> WriteJobView {
        WriteJobView {
            style: self.style,
            stage: self.stage,
            root: self.root@,
            target: self.target@,
            content: self.content@,
            backup_path: opt_text(self.backup_path),
        }
    }
}

/// How a write goes on: with the next action, whose outcome the job waits for, or with its answer.
#[derive(Debug)]
pub enum WriteNext {
    Do(WriteJob, DiskAction<String>),
    Finished(Result<FileWriteResponse, WorkspaceError>),
}

/// How a write goes on.
pub enum WriteNextView {
    Do(WriteJobView, DiskAction<Seq<char>>),
    Finished(Result<WrittenView, ReplyView>),
}

impl View for WriteNext {
    type V = WriteNextView;

    open spec fn view(&self) -> WriteNextView {
        match *self {
            WriteNext::Do(job, action) => WriteNextView::Do(job@, action@),
            WriteNext::Finished(r) => WriteNextView::Finished(written(r)),
        }
    }
}

/// The directory in which the history copies of a directory of the workspace stand.
pub open spec fn history_directory(style: PathStyle, root: Seq<char>, root_name: Seq<char>) -> Seq<char> {
    join_path(style, join_path(style, root, root_name), "history"@)
}

/// The name of a history copy: the time in seconds, a dot, and the name of the file.
pub open spec fn history_name(seconds: u64, name: Seq<char>) -> Seq<char> {
    decimal(seconds as nat).push('.') + name
}

impl WriteJobView {
    /// The job at another stage.
    pub open spec fn at(self, stage: WriteStage) -> WriteJobView {
        WriteJobView { stage, ..self }
    }

    /// Looks whether the file exists.
    pub open spec fn look(self) -> WriteNextView {
        WriteNextView::Do(self.at(WriteStage::Existing), DiskAction::Look(self.target.path))
    }

    /// Writes the content.
    pub open spec fn put(self, backup_path: Option<Seq<char>>) -> WriteNextView {
        WriteNextView::Do(
            WriteJobView { stage: WriteStage::Content, backup_path, ..self },
            DiskAction::Write { path: self.target.path, content: self.content },
        )
    }

    /// Begins: the directory of the file is created, where the path has one.
    pub open spec fn begin(self) -> WriteNextView {
        match parent(self.style, self.target.path) {
            Some(dir) => WriteNextView::Do(
                self.at(WriteStage::Parent),
                DiskAction::CreateDirectories(dir),
            ),
            None => self.look(),
        }
    }

    /// Goes on after the action that the job waits for has succeeded. `seconds` is the time that was
    /// read.
    pub open spec fn succeeded(self, seconds: u64) -> WriteNextView {
        match self.stage {
            WriteStage::Parent => self.look(),
            WriteStage::Existing => WriteNextView::Do(
                self.at(WriteStage::Backup),
                DiskAction::Copy { from: self.target.path, to: backup_path(self.style, self.target.path) },
            ),
            WriteStage::Backup => WriteNextView::Do(
                self.at(WriteStage::HistoryDirectory),
                DiskAction::CreateDirectories(history_directory(self.style, self.root, self.target.root_name)),
            ),
            WriteStage::HistoryDirectory => match file_name(self.style, self.target.relative) {
                Some(_) => WriteNextView::Do(self.at(WriteStage::Clock), DiskAction::ReadClock),
                None => WriteNextView::Finished(Err(bad("invalid file name"@))),
            },
            WriteStage::Clock => match file_name(self.style, self.target.relative) {
                Some(name) => WriteNextView::Do(
                    self.at(WriteStage::History),
                    DiskAction::Copy {
                        from: self.target.path,
                        to: join_path(
                            self.style,
                            history_directory(self.style, self.root, self.target.root_name),
                            history_name(seconds, name),
                        ),
                    },
                ),
                None => WriteNextView::Finished(Err(bad("invalid file name"@))),
            },
            WriteStage::History => match web_path_below(
                self.style,
                self.target.root_name,
                backup_path(self.style, self.target.path),
                self.root,
            ) {
                Ok(backup) => self.put(Some(backup)),
                Err(e) => WriteNextView::Finished(Err(e)),
            },
            WriteStage::Content => WriteNextView::Finished(
                Ok(WrittenView { ok: true, backup_path: self.backup_path }),
            ),
        }
    }

    /// Goes on after the action that the job waits for has failed. A file that cannot be looked at is
    /// taken not to exist, and a clock that cannot be read to show 0.
    pub open spec fn failed(self, failure: IoFailure) -> WriteNextView {
        match self.stage {
            WriteStage::Existing => self.put(None),
            WriteStage::Clock => self.succeeded(0),
            _ => WriteNextView::Finished(Err(io_refusal(failure))),
        }
    }

    /// Goes on after the action that the job waits for.
    pub open spec fn next(self, outcome: Result<u64, IoFailure>) -> WriteNextView {
        match outcome {
            Ok(seconds) => self.succeeded(seconds),
            Err(failure) => self.failed(failure),
        }
    }
}

impl WriteJob {
    fn look(self) -> (r: WriteNext)
        ensures
            r@ == self@.look(),
    {
        let path = self.target.path.clone();
        let job = WriteJob { stage: WriteStage::Existing, ..self };
        WriteNext::Do(job, DiskAction::Look(path))
    }

    fn put(self, backup_path: Option<String>) -> (r: WriteNext)
        ensures
            r@ == self@.put(opt_text(backup_path)),
    {
        let path = self.target.path.clone();
        let content = self.content.clone();
        let job = WriteJob { stage: WriteStage::Content, backup_path, ..self };
        WriteNext::Do(job, DiskAction::Write { path, content })
    }

    fn history_directory(&self) -> (r: String)
        ensures
            r@ == history_directory(self.style, self.root@, self.target.root_name@),
    {
        let base = join_paths(self.style, self.root.as_str(), self.target.root_name);
        join_paths(self.style, base.as_str(), "history")
    }

    /// Plans the copy to the history.
    fn write_history_copy(self, seconds: u64) -> (r: WriteNext)
        requires
            self.stage == WriteStage::Clock,
        ensures
            r@ == self@.succeeded(seconds),
    {
        let name = match path_file_name(self.style, self.target.relative.as_str()) {
            Some(name) => name,
            None => {
                return WriteNext::Finished(Err(WorkspaceError::bad_request("invalid file name")));
            },
        };
        let mut history_name = String::new();
        push_decimal(&mut history_name, seconds);
        history_name.push('.');
        history_name.append(name.as_str());
        proof {
            assert(history_name@ =~= self::history_name(seconds, name@));
        }
        let directory = self.history_directory();
        let to = join_paths(self.style, directory.as_str(), history_name.as_str());
        let from = self.target.path.clone();
        WriteNext::Do(WriteJob { stage: WriteStage::History, ..self }, DiskAction::Copy { from, to })
    }

    /// Goes on after the action that the job waits for. The outcome of reading the clock is the time
    /// in seconds since 1970; the number that another action ends with has no meaning.
    pub fn advance(self, outcome: Result<u64, IoFailure>) -> (r: WriteNext)
        ensures
            r@ == self@.next(outcome),
            r matches WriteNext::Do(job, _) ==> {
                &&& job.style == self.style
                &&& job.root@ == self.root@
                &&& job.content@ == self.content@
                &&& job.target@ == self.target@
            },
            (r matches WriteNext::Do(_, DiskAction::Write { path, content })) ==> {
                &&& r->Do_1->Write_path@ == self.target.path@
                &&& r->Do_1->Write_content@ == self.content@
            },
            (r matches WriteNext::Do(_, DiskAction::Copy { from, to })) ==> r->Do_1->Copy_from@ == self.target.path@,
            (r matches WriteNext::Do(_, DiskAction::Look(p))) ==> r->Do_1->Look_0@ == self.target.path@,
            self.stage == WriteStage::Content && outcome is Ok ==> (r matches WriteNext::Finished(Ok(response))
                && response.ok && opt_text(response.backup_path) == opt_text(self.backup_path)),
    {
        let seconds: u64 = match outcome {
            Ok(seconds) => seconds,
            Err(failure) => match self.stage {
                WriteStage::Existing => {
                    return self.put(None);
                },
                WriteStage::Clock => 0,
                _ => {
                    return WriteNext::Finished(Err(WorkspaceError::io(failure)));
                },
            },
        };
        match self.stage {
            WriteStage::Parent => self.look(),
            WriteStage::Existing => {
                let from = self.target.path.clone();
                let to = backup_path_of(self.style, from.as_str());
                WriteNext::Do(WriteJob { stage: WriteStage::Backup, ..self }, DiskAction::Copy { from, to })
            },
            WriteStage::Backup => {
                let directory = self.history_directory();
                WriteNext::Do(
                    WriteJob { stage: WriteStage::HistoryDirectory, ..self },
                    DiskAction::CreateDirectories(directory),
                )
            },
            WriteStage::HistoryDirectory => match path_file_name(self.style, self.target.relative.as_str()) {
                Some(_) => WriteNext::Do(
                    WriteJob { stage: WriteStage::Clock, ..self },
                    DiskAction::ReadClock,
                ),
                None => WriteNext::Finished(Err(WorkspaceError::bad_request("invalid file name"))),
            },
            WriteStage::Clock => self.write_history_copy(seconds),
            WriteStage::History => {
                let backup = backup_path_of(self.style, self.target.path.as_str());
                match canonical_to_web_path(self.style, self.target.root_name, backup.as_str(), self.root.as_str()) {
                    Ok(web) => self.put(Some(web)),
                    Err(e) => WriteNext::Finished(Err(e)),
                }
            },
            WriteStage::Content => WriteNext::Finished(
                Ok(FileWriteResponse { ok: true, backup_path: self.backup_path }),
            ),
        }
    }
}

/// How a write begins.
pub open spec fn write_begins(
    style: PathStyle,
    root: Seq<char>,
    root_name: Seq<char>,
    path: Seq<char>,
    content: Seq<char>,
) -> WriteNextView {
    match named_target_of(style, root, root_name, path, "file path is required"@) {
        Err(e) => WriteNextView::Finished(Err(e)),
        Ok(target) => WriteJobView {
            style,
            stage: WriteStage::Parent,
            root,
            target,
            content,
            backup_path: None,
        }.begin(),
    }
}

impl Workspace {
    /// Where a request leads that must name something below its directory.
    pub fn named_target(&self, root: &str, path: &str, missing: &str) -> (r: Result<
        Target,
        WorkspaceError,
    >)
        ensures
            target_result(r) == named_target_of(self.style, self.root@, root@, path@, missing@),
    {
        let root_name = match normalize_root(root) {
            Ok(name) => name,
            Err(e) => {
                return Err(e);
            },
        };
        let relative = match normalize_relative_path(self.style, path) {
            Ok(s) => s,
            Err(e) => {
                return Err(e);
            },
        };
        if relative.as_str().is_empty() {
            assert(relative@ =~= Seq::<char>::empty());
            return Err(WorkspaceError::bad_request(missing));
        }
        assert(normalized(self.style, path@) != Some(Seq::<char>::empty()));
        match self.resolve_canonical(root_name, relative.as_str()) {
            Ok(full) => Ok(Target { root_name, relative, path: full }),
            Err(e) => Err(e),
        }
    }

    /// Begins to write a file. What the file held before is kept in a backup beside it and in the
    /// history.
    pub fn write_file(&self, request: WriteFileRequest) -> (r: WriteNext)
        ensures
            r@ == write_begins(self.style, self.root@, request.root@, request.path@, request.content@),
            r matches WriteNext::Do(job, _) ==> {
                &&& job.style == self.style
                &&& job.root@ == self.root@
                &&& job.content@ == request.content@
                &&& job.target.root_name@ == request.root@
                &&& job.backup_path is None
            },
    {
        let target = match self.named_target(
            request.root.as_str(),
            request.path.as_str(),
            "file path is required",
        ) {
            Ok(t) => t,
            Err(e) => {
                return WriteNext::Finished(Err(e));
            },
        };
        let directory = parent_path(self.style, target.path.as_str());
        let job = WriteJob {
            style: self.style,
            stage: WriteStage::Parent,
            root: self.root.clone(),
            target,
            content: request.content,
            backup_path: None,
        };
        match directory {
            Some(dir) => WriteNext::Do(job, DiskAction::CreateDirectories(dir)),
            None => job.look(),
        }
    }
}

// ----- Deleting -----

/// What a deletion is waiting for.
#[derive(Clone, Copy, Debug, PartialEq, Eq, Structural)]
pub enum DeleteStage {
    /// It is being looked what there is.
    Look,
    /// It is being removed.
    Remove,
}

/// A deletion that is under way.
#[derive(Debug)]
pub struct DeleteJob<S> {
    pub stage: DeleteStage,
    pub path: S,
}

/// How a deletion goes on: with the next action, whose outcome the job waits for, or with its
/// answer.
#[derive(Debug)]
pub enum DeleteNext {
    Do(DeleteJob<String>, DiskAction<String>),
    Finished(Result<FileWriteResponse, WorkspaceError>),
}

/// How a deletion goes on.
pub enum DeleteNextView {
    Do(DeleteJob<Seq<char>>, DiskAction<Seq<char>>),
    Finished(Result<WrittenView, ReplyView>),
}

impl View for DeleteNext {
    type V = DeleteNextView;

    open spec fn view(&self) -> DeleteNextView {
        match *self {
            DeleteNext::Do(job, action) => DeleteNextView::Do(job@, action@),
            DeleteNext::Finished(r) => DeleteNextView::Finished(written(r)),
        }
    }
}

impl View for DeleteJob<String> {
    type V = DeleteJob<Seq<char>>;

    open spec fn view(&self) -> DeleteJob<Seq<char>> {
        DeleteJob { stage: self.stage, path: self.path@ }
    }
}

/// How a deletion goes on after the action that it waits for.
pub open spec fn delete_next(
    job: DeleteJob<Seq<char>>,
    outcome: Result<bool, IoFailure>,
) -> DeleteNextView {
    match outcome {
        Err(failure) => DeleteNextView::Finished(Err(io_refusal(failure))),
        Ok(is_dir) => match job.stage {
            DeleteStage::Look => DeleteNextView::Do(
                DeleteJob { stage: DeleteStage::Remove, path: job.path },
                if is_dir {
                    DiskAction::RemoveDirectory(job.path)
                } else {
                    DiskAction::RemoveFile(job.path)
                },
            ),
            DeleteStage::Remove => DeleteNextView::Finished(
                Ok(WrittenView { ok: true, backup_path: None }),
            ),
        },
    }
}

impl DeleteJob<String> {
    /// Goes on after the action that the job waits for. The outcome of looking is whether there is a
    /// directory; the value that a removal ends with has no meaning.
    pub fn advance(self, outcome: Result<bool, IoFailure>) -> (r: DeleteNext)
        ensures
            r@ == delete_next(self@, outcome),
            match outcome {
                Err(failure) => r matches DeleteNext::Finished(Err(e)) && e.message@ == failure.message@,
                Ok(is_dir) => match self.stage {
                    DeleteStage::Look => {
                        &&& r matches DeleteNext::Do(job, action)
                        &&& job.path@ == self.path@
                        &&& action@ == if is_dir {
                            DiskAction::RemoveDirectory(self.path@)
                        } else {
                            DiskAction::RemoveFile(self.path@)
                        }
                    },
                    DeleteStage::Remove => r matches DeleteNext::Finished(Ok(response)) && response.ok
                        && response.backup_path is None,
                },
            },
    {
        let is_dir = match outcome {
            Ok(is_dir) => is_dir,
            Err(failure) => {
                return DeleteNext::Finished(Err(WorkspaceError::io(failure)));
            },
        };
        match self.stage {
            DeleteStage::Look => {
                let path = self.path.clone();
                let action = if is_dir {
                    DiskAction::RemoveDirectory(path)
                } else {
                    DiskAction::RemoveFile(path)
                };
                DeleteNext::Do(DeleteJob { stage: DeleteStage::Remove, path: self.path }, action)
            },
            DeleteStage::Remove => DeleteNext::Finished(
                Ok(FileWriteResponse { ok: true, backup_path: None }),
            ),
        }
    }
}

/// How a deletion begins.
pub open spec fn delete_begins(
    style: PathStyle,
    root: Seq<char>,
    root_name: Seq<char>,
    path: Seq<char>,
) -> DeleteNextView {
    match named_target_of(style, root, root_name, path, "path is required"@) {
        Err(e) => DeleteNextView::Finished(Err(e)),
        Ok(target) => DeleteNextView::Do(
            DeleteJob { stage: DeleteStage::Look, path: target.path },
            DiskAction::Look(target.path),
        ),
    }
}

impl Workspace {
    /// Begins to delete a file, or a directory and everything in it.
    pub fn delete_path(&self, query: FileQuery) -> (r: DeleteNext)
        ensures
            r@ == delete_begins(self.style, self.root@, query.root@, query.path@),
    {
        match self.named_target(query.root.as_str(), query.path.as_str(), "path is required") {
            Err(e) => DeleteNext::Finished(Err(e)),
            Ok(target) => {
                let path = target.path.clone();
                DeleteNext::Do(
                    DeleteJob { stage: DeleteStage::Look, path: target.path },
                    DiskAction::Look(path),
                )
            },
        }
    }
}

} // verus!
