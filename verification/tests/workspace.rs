use tango_bridge::path::PathStyle;
use tango_bridge::workspace::{
    join_web_path, normalize_relative_path, normalize_root, path_to_web_path, relative_to_web_path, DeleteNext,
    DiskAction, DiskEntry, FileQuery, FileWriteResponse, IoErrorKind, IoFailure, Workspace, WorkspaceError,
    WriteFileRequest, WriteNext, WriteStage,
};

const UNIX: PathStyle = PathStyle::Unix;
const WINDOWS: PathStyle = PathStyle::Windows;

fn workspace() -> Workspace {
    Workspace { style: UNIX, root: "/w".to_string() }
}

fn on_windows(root: &str) -> Workspace {
    Workspace::new(WINDOWS, Some(root.to_string()), Ok(String::new())).unwrap()
}

fn query(root: &str, path: &str) -> FileQuery {
    FileQuery { root: root.to_string(), path: path.to_string() }
}

fn request(root: &str, path: &str, content: &str) -> WriteFileRequest {
    WriteFileRequest { root: root.to_string(), path: path.to_string(), content: content.to_string() }
}

fn failure(kind: IoErrorKind) -> IoFailure {
    IoFailure { kind, message: "disk".to_string() }
}

fn refused<T>(r: Result<T, WorkspaceError>) -> (u16, String) {
    match r {
        Ok(_) => panic!("nothing is refused"),
        Err(e) => (e.status, e.message),
    }
}

fn bad(message: &str) -> (u16, String) {
    (400, message.to_string())
}

fn denied(message: &str) -> (u16, String) {
    (403, message.to_string())
}

fn action(a: &DiskAction<String>) -> String {
    match a {
        DiskAction::CreateDirectories(p) => format!("create {p}"),
        DiskAction::Look(p) => format!("look {p}"),
        DiskAction::Copy { from, to } => format!("copy {from} {to}"),
        DiskAction::ReadClock => "clock".to_string(),
        DiskAction::Write { path, content } => format!("write {path} {content}"),
        DiskAction::RemoveDirectory(p) => format!("remove all {p}"),
        DiskAction::RemoveFile(p) => format!("remove {p}"),
    }
}

fn run_write(
    start: WriteNext,
    outcomes: Vec<Result<u64, IoFailure>>,
) -> (Vec<String>, Option<Result<FileWriteResponse, WorkspaceError>>) {
    let mut actions = Vec::new();
    let mut next = start;
    let mut outcomes = outcomes.into_iter();
    loop {
        match next {
            WriteNext::Finished(r) => return (actions, Some(r)),
            WriteNext::Do(job, a) => {
                actions.push(action(&a));
                match outcomes.next() {
                    Some(outcome) => next = job.advance(outcome),
                    None => return (actions, None),
                }
            }
        }
    }
}

fn run_delete(
    start: DeleteNext,
    outcomes: Vec<Result<bool, IoFailure>>,
) -> (Vec<String>, Option<Result<FileWriteResponse, WorkspaceError>>) {
    let mut actions = Vec::new();
    let mut next = start;
    let mut outcomes = outcomes.into_iter();
    loop {
        match next {
            DeleteNext::Finished(r) => return (actions, Some(r)),
            DeleteNext::Do(job, a) => {
                actions.push(action(&a));
                match outcomes.next() {
                    Some(outcome) => next = job.advance(outcome),
                    None => return (actions, None),
                }
            }
        }
    }
}

#[test]
fn root_is_one_of_three() {
    assert_eq!(normalize_root("scripts").unwrap(), "scripts");
    assert_eq!(normalize_root("templates").unwrap(), "templates");
    assert_eq!(normalize_root("logs").unwrap(), "logs");
    for name in ["", "Scripts", "scripts/", "log", "history"] {
        assert_eq!(refused(normalize_root(name)), bad("root must be scripts, templates, or logs"));
    }
}

#[test]
fn request_paths_are_normalized() {
    for (path, relative) in [
        ("", ""),
        ("/", ""),
        ("  ", ""),
        (" / ", ""),
        (".", ""),
        ("a", "a"),
        ("/a/b", "a/b"),
        ("///a//b/", "a/b"),
        ("./a/./b/.", "a/b"),
        (" /a b/ c ", "a b/ c"),
        ("a/...", "a/..."),
        ("..a/b..", "..a/b.."),
        ("\u{3000}a\u{3000}", "a"),
        ("a\\b", "a\\b"),
        ("a/ /", "a/ "),
    ] {
        assert_eq!(normalize_relative_path(UNIX, path).unwrap(), relative, "{:?}", path);
    }
}

#[test]
fn climbing_is_refused() {
    for path in ["..", "/..", "a/..", "../a", "a/../b", " .. ", "a/b/../../../c", "./.."] {
        assert_eq!(refused(normalize_relative_path(UNIX, path)), denied("path traversal is not allowed"), "{:?}", path);
    }
}

#[test]
fn normalizing_again_changes_nothing() {
    for path in ["", "/a/b", "./x//y.z", " q "] {
        let once = normalize_relative_path(UNIX, path).unwrap();
        assert_eq!(normalize_relative_path(UNIX, &once).unwrap(), once);
    }
    let once = normalize_relative_path(UNIX, "a/ /").unwrap();
    assert_eq!(normalize_relative_path(UNIX, &once).unwrap(), "a");
}

#[test]
fn web_paths_have_slashes_only() {
    assert_eq!(relative_to_web_path(""), "/");
    assert_eq!(relative_to_web_path("a/b.txt"), "/a/b.txt");
    assert_eq!(relative_to_web_path("a\\b\\c"), "/a/b/c");
    assert_eq!(join_web_path(UNIX, "", "x"), "/x");
    assert_eq!(join_web_path(UNIX, "a/b", "x"), "/a/b/x");
    assert_eq!(join_web_path(UNIX, "a/b", "/x"), "//x");
}

#[test]
fn web_path_leads_back() {
    for relative in ["", "a", "a/b.txt", " a/b"] {
        assert_eq!(normalize_relative_path(UNIX, &relative_to_web_path(relative)).unwrap(), relative);
    }
    assert_eq!(normalize_relative_path(UNIX, &join_web_path(UNIX, "a/b", "c d")).unwrap(), "a/b/c d");
}

#[test]
fn path_below_its_directory_is_shown() {
    assert_eq!(path_to_web_path(UNIX, "logs", "/w/logs/a/b", "/w").unwrap(), "/a/b");
    assert_eq!(path_to_web_path(UNIX, "logs", "/w/logs", "/w").unwrap(), "/");
    assert_eq!(refused(path_to_web_path(UNIX, "logs", "/w/scripts/a", "/w")), denied("path escapes workspace"));
}

#[test]
fn workspace_has_its_root() {
    let here = || Ok("/home/me".to_string());
    assert_eq!(Workspace::new(UNIX, Some("/data".to_string()), here()).unwrap().root, "/data");
    assert_eq!(Workspace::new(UNIX, Some(" /data ".to_string()), here()).unwrap().root, " /data ");
    assert_eq!(Workspace::new(UNIX, Some(" \t".to_string()), here()).unwrap().root, "/home/me/workspace");
    let w = Workspace::new(UNIX, None, here()).unwrap();
    assert_eq!(w.root, "/home/me/workspace");
    assert_eq!(
        w.directories(),
        vec![
            "/home/me/workspace/scripts".to_string(),
            "/home/me/workspace/templates".to_string(),
            "/home/me/workspace/logs".to_string()
        ]
    );
    let gone = || Err(WorkspaceError::io(failure(IoErrorKind::NotFound)));
    assert_eq!(refused(Workspace::new(UNIX, None, gone())), (404, "disk".to_string()));
    assert!(Workspace::new(UNIX, Some("x".to_string()), gone()).is_ok());
    assert_eq!(w.clone().root, w.root);
}

#[test]
fn resolved_paths_stay_below() {
    let w = workspace();
    assert_eq!(w.resolve("scripts", "a/b").unwrap(), "/w/scripts/a/b");
    assert_eq!(w.resolve("scripts", "").unwrap(), "/w/scripts/");
    assert_eq!(refused(w.resolve("scripts", "/etc")), denied("path escapes workspace"));
    assert_eq!(w.resolve("scripts", "/w/scripts/x").unwrap(), "/w/scripts/x");
}

#[test]
fn target_of_a_request() {
    let w = workspace();
    let t = w.target("logs", " /a//b ").unwrap();
    assert_eq!((t.root_name, t.relative.as_str(), t.path.as_str()), ("logs", "a/b", "/w/logs/a/b"));
    assert_eq!(refused(w.target("etc", "..")), bad("root must be scripts, templates, or logs"));
    assert_eq!(refused(w.target("logs", "..")), denied("path traversal is not allowed"));
    assert!(w.target("logs", "").is_ok());
    assert_eq!(refused(w.named_target("logs", "/", "missing")), bad("missing"));
}

#[test]
fn io_failures_have_their_status() {
    let status = |kind| WorkspaceError::io(failure(kind)).status;
    assert_eq!(status(IoErrorKind::NotFound), 404);
    assert_eq!(status(IoErrorKind::PermissionDenied), 403);
    assert_eq!(status(IoErrorKind::Other), 500);
    assert_eq!(WorkspaceError::io(failure(IoErrorKind::Other)).message, "disk");
    assert_eq!(WorkspaceError::bad_request("b").status, 400);
    assert_eq!(WorkspaceError::forbidden("f").status, 403);
}

fn entry(name: &str, is_dir: bool, size: u64) -> DiskEntry {
    DiskEntry { name: name.to_string(), is_dir, size, modified_ms: Some(7) }
}

#[test]
fn listing_is_ordered() {
    let found = vec![
        entry("b.txt", false, 1),
        entry("z", true, 2),
        entry("a.txt", false, 3),
        entry("B", false, 4),
        entry("a", true, 5),
    ];
    let listing = workspace().list(query("scripts", "/sub/"), Ok(found)).unwrap();
    assert_eq!((listing.root.as_str(), listing.path.as_str()), ("scripts", "/sub"));
    let names: Vec<(String, String)> = listing.entries.iter().map(|e| (e.kind.clone(), e.name.clone())).collect();
    let expected: Vec<(String, String)> =
        [("directory", "a"), ("directory", "z"), ("file", "B"), ("file", "a.txt"), ("file", "b.txt")]
            .iter()
            .map(|(k, n)| (k.to_string(), n.to_string()))
            .collect();
    assert_eq!(names, expected);
    assert_eq!(listing.entries[0].path, "/sub/a");
    assert_eq!(listing.entries[0].size, 5);
    assert_eq!(listing.entries[0].modified_ms, 7);
}

#[test]
fn equal_entries_keep_their_order() {
    let found = vec![entry("x", false, 1), entry("a", false, 9), entry("x", false, 2), entry("x", false, 3)];
    let listing = workspace().list(query("logs", ""), Ok(found)).unwrap();
    let sizes: Vec<u64> = listing.entries.iter().map(|e| e.size).collect();
    assert_eq!(sizes, vec![9, 1, 2, 3]);
    assert_eq!(listing.path, "/");
}

#[test]
fn unknown_time_is_zero() {
    let found = vec![DiskEntry { name: "n".to_string(), is_dir: false, size: 0, modified_ms: None }];
    assert_eq!(workspace().list(query("logs", ""), Ok(found)).unwrap().entries[0].modified_ms, 0);
}

#[test]
fn listing_is_refused() {
    let w = workspace();
    assert_eq!(refused(w.list(query("x", ""), Ok(Vec::new()))), bad("root must be scripts, templates, or logs"));
    assert_eq!(refused(w.list(query("logs", ".."), Ok(Vec::new()))), denied("path traversal is not allowed"));
    assert_eq!(
        refused(w.list(query("logs", "a"), Err(failure(IoErrorKind::NotFound)))),
        (404, "disk".to_string())
    );
}

#[test]
fn file_is_read() {
    let w = workspace();
    let r = w.read_file(query("templates", "./a/b"), Ok("text".to_string())).unwrap();
    assert_eq!((r.root.as_str(), r.path.as_str(), r.content.as_str()), ("templates", "/a/b", "text"));
    assert_eq!(
        refused(w.read_file(query("logs", "a"), Err(failure(IoErrorKind::PermissionDenied)))),
        (403, "disk".to_string())
    );
    assert_eq!(refused(w.read_file(query("logs", "a/.."), Ok(String::new()))), denied("path traversal is not allowed"));
    assert_eq!(
        refused(w.read_file(query("", "a"), Ok(String::new()))),
        bad("root must be scripts, templates, or logs")
    );
}

#[test]
fn new_file_is_written() {
    let start = workspace().write_file(request("scripts", "a/run.js", "code"));
    let outcomes = vec![Ok(0), Err(failure(IoErrorKind::NotFound)), Ok(0)];
    let (actions, answer) = run_write(start, outcomes);
    assert_eq!(
        actions,
        vec!["create /w/scripts/a", "look /w/scripts/a/run.js", "write /w/scripts/a/run.js code"]
    );
    let answer = answer.unwrap().unwrap();
    assert!(answer.ok);
    assert_eq!(answer.backup_path, None);
}

#[test]
fn old_file_is_kept_and_written() {
    let start = workspace().write_file(request("scripts", "a/run.js", "code"));
    let (actions, answer) = run_write(start, vec![Ok(0), Ok(0), Ok(0), Ok(0), Ok(1_700_000_000), Ok(0), Ok(0)]);
    assert_eq!(
        actions,
        vec![
            "create /w/scripts/a",
            "look /w/scripts/a/run.js",
            "copy /w/scripts/a/run.js /w/scripts/a/run.js.bak",
            "create /w/scripts/history",
            "clock",
            "copy /w/scripts/a/run.js /w/scripts/history/1700000000.run.js",
            "write /w/scripts/a/run.js code",
        ]
    );
    let answer = answer.unwrap().unwrap();
    assert!(answer.ok);
    assert_eq!(answer.backup_path, Some("/a/run.js.bak".to_string()));
}

#[test]
fn clock_that_fails_shows_zero() {
    let start = workspace().write_file(request("logs", "x", ""));
    let outcomes = vec![Ok(0), Ok(0), Ok(0), Ok(0), Err(failure(IoErrorKind::Other)), Ok(0), Ok(0)];
    let (actions, answer) = run_write(start, outcomes);
    assert_eq!(actions[5], "copy /w/logs/x /w/logs/history/0.x");
    assert_eq!(answer.unwrap().unwrap().backup_path, Some("/x.bak".to_string()));
}

#[test]
fn failed_copy_ends_the_write() {
    for failing in [0, 2, 3, 5, 6] {
        let start = workspace().write_file(request("logs", "x", "new"));
        let outcomes = (0..7)
            .map(|i| if i == failing { Err(failure(IoErrorKind::PermissionDenied)) } else { Ok(0) })
            .collect();
        let (actions, answer) = run_write(start, outcomes);
        assert_eq!(actions.len(), failing + 1);
        assert_eq!(actions.iter().any(|a| a.starts_with("write")), failing == 6);
        assert_eq!(refused(answer.unwrap()), (403, "disk".to_string()));
    }
}

#[test]
fn write_is_refused() {
    let w = workspace();
    let answer = |r, p| refused(run_write(w.write_file(request(r, p, "c")), Vec::new()).1.unwrap());
    assert_eq!(answer("nope", "a"), bad("root must be scripts, templates, or logs"));
    assert_eq!(answer("logs", "../a"), denied("path traversal is not allowed"));
    assert_eq!(answer("logs", " / "), bad("file path is required"));
    assert_eq!(answer("logs", "."), bad("file path is required"));
}

#[test]
fn write_begins_with_the_parent_directory() {
    match workspace().write_file(request("logs", "x", "c")) {
        WriteNext::Do(job, a) => {
            assert_eq!(job.stage, WriteStage::Parent);
            assert_eq!(action(&a), "create /w/logs");
        }
        WriteNext::Finished(_) => panic!("nothing is done"),
    }
}

#[test]
fn deletion_removes_what_is_named() {
    let w = workspace();
    let (actions, answer) = run_delete(w.delete_path(query("logs", "a/b")), vec![Ok(false), Ok(false)]);
    assert_eq!(actions, vec!["look /w/logs/a/b", "remove /w/logs/a/b"]);
    let answer = answer.unwrap().unwrap();
    assert!(answer.ok && answer.backup_path.is_none());
    let (actions, answer) = run_delete(w.delete_path(query("logs", "a")), vec![Ok(true), Ok(true)]);
    assert_eq!(actions, vec!["look /w/logs/a", "remove all /w/logs/a"]);
    assert!(answer.unwrap().is_ok());
}

#[test]
fn deletion_is_refused() {
    let w = workspace();
    let answer = |r, p| refused(run_delete(w.delete_path(query(r, p)), Vec::new()).1.unwrap());
    assert_eq!(answer("", "a"), bad("root must be scripts, templates, or logs"));
    assert_eq!(answer("logs", ".."), denied("path traversal is not allowed"));
    assert_eq!(answer("logs", ""), bad("path is required"));
    let gone = vec![Err(failure(IoErrorKind::NotFound))];
    let (actions, answer) = run_delete(w.delete_path(query("logs", "a")), gone);
    assert_eq!(actions.len(), 1);
    assert_eq!(refused(answer.unwrap()), (404, "disk".to_string()));
    let stuck = vec![Ok(false), Err(failure(IoErrorKind::Other))];
    let (actions, answer) = run_delete(w.delete_path(query("logs", "a")), stuck);
    assert_eq!(actions.len(), 2);
    assert_eq!(refused(answer.unwrap()), (500, "disk".to_string()));
}

#[test]
fn windows_requests_are_normalized() {
    for (path, relative) in [
        ("", ""),
        ("/a/b", "a\\b"),
        ("a\\b/c\\", "a\\b\\c"),
        (".\\a\\.\\b", "a\\b"),
        ("a/C:/b", "C:b"),
        ("a/c:d/e", "c:d\\e"),
        ("..a", "..a"),
        ("1:x", "1:x"),
    ] {
        assert_eq!(normalize_relative_path(WINDOWS, path).unwrap(), relative, "{:?}", path);
    }
}

#[test]
fn windows_requests_that_lead_away_are_refused() {
    for path in ["..", "..\\x", "a\\..\\b", "a/..\\b", "\\x", "/\\x", "\\\\server\\share", "C:", "C:x", "c:\\x", "/C:/x"] {
        assert_eq!(
            refused(normalize_relative_path(WINDOWS, path)),
            denied("path traversal is not allowed"),
            "{:?}",
            path
        );
    }
}

#[test]
fn windows_requests_stay_in_their_directory() {
    let w = on_windows("C:/work");
    assert_eq!(w.root, "C:\\work");
    assert_eq!(w.target("logs", "a/b").unwrap().path, "C:\\work\\logs\\a\\b");
    assert_eq!(refused(w.target("logs", "a/C:/b")), denied("path escapes workspace"));
    assert_eq!(refused(w.target("logs", "a/D:")), denied("path escapes workspace"));
    let w = on_windows("C:");
    assert_eq!(w.target("logs", "a").unwrap().path, "C:logs\\a");
    assert_eq!(w.target("logs", "a/c:logs/x").unwrap().path, "c:logs\\x");
    assert_eq!(refused(w.target("logs", "a/C:x")), denied("path escapes workspace"));
    let w = on_windows("\\\\server\\share");
    assert_eq!(w.target("logs", "a").unwrap().path, "\\\\server\\share\\logs\\a");
    assert_eq!(Workspace::new(WINDOWS, None, Ok("C:\\me".to_string())).unwrap().root, "C:\\me\\workspace");
}

#[test]
fn windows_file_is_kept_and_written() {
    let start = on_windows("C:\\w").write_file(request("scripts", "a/run.js", "code"));
    let (actions, answer) = run_write(start, vec![Ok(0), Ok(0), Ok(0), Ok(0), Ok(5), Ok(0), Ok(0)]);
    assert_eq!(
        actions,
        vec![
            "create C:\\w\\scripts\\a",
            "look C:\\w\\scripts\\a\\run.js",
            "copy C:\\w\\scripts\\a\\run.js C:\\w\\scripts\\a\\run.js.bak",
            "create C:\\w\\scripts\\history",
            "clock",
            "copy C:\\w\\scripts\\a\\run.js C:\\w\\scripts\\history\\5.run.js",
            "write C:\\w\\scripts\\a\\run.js code",
        ]
    );
    assert_eq!(answer.unwrap().unwrap().backup_path, Some("/a/run.js.bak".to_string()));
}

#[test]
fn windows_web_paths_lead_back() {
    let w = on_windows("C:\\w");
    let found = vec![entry("b c", false, 1)];
    let listing = w.list(query("logs", "x\\y"), Ok(found)).unwrap();
    assert_eq!(listing.path, "/x/y");
    assert_eq!(listing.entries[0].path, "/x/y/b c");
    assert_eq!(normalize_relative_path(WINDOWS, "/x/y/b c").unwrap(), "x\\y\\b c");
    assert_eq!(path_to_web_path(WINDOWS, "logs", "C:/w/logs/a", "c:\\w").unwrap(), "/a");
    assert_eq!(join_web_path(WINDOWS, "a/b", "c"), "/a/b/c");
}

#[test]
fn file_of_two_dots_and_an_extension_has_no_backup() {
    let start = workspace().write_file(request("logs", "..a", "c"));
    let (actions, answer) = run_write(start, vec![Ok(0), Ok(0), Err(failure(IoErrorKind::Other))]);
    assert_eq!(actions, vec!["create /w/logs", "look /w/logs/..a", "copy /w/logs/..a /w/logs/.."]);
    assert_eq!(refused(answer.unwrap()), (500, "disk".to_string()));
}

#[test]
fn written_content_is_read_back() {
    let w = workspace();
    let (actions, answer) = run_write(
        w.write_file(request("logs", "/a//b", "new")),
        vec![Ok(0), Ok(0), Ok(0), Ok(0), Ok(9), Ok(0), Ok(0)],
    );
    assert!(answer.unwrap().is_ok());
    let target = w.target("logs", "a/b").unwrap();
    assert_eq!(actions.last().unwrap(), &format!("write {} new", target.path));
    let read = w.read_file(query("logs", "a/b"), Ok("new".to_string())).unwrap();
    assert_eq!((read.path.as_str(), read.content.as_str()), ("/a/b", "new"));
    assert!(actions.contains(&format!("copy {} {}.bak", target.path, target.path)));
    assert!(actions.contains(&format!("copy {} /w/logs/history/9.b", target.path)));
}

#[test]
fn windows_web_paths_go_by_prefixes() {
    assert_eq!(path_to_web_path(WINDOWS, "scripts", r"\\?\c:\scripts", r"\\?\C:").unwrap(), "/");
    assert_eq!(path_to_web_path(WINDOWS, "scripts", r"\\?\c:\scripts\a", r"\\?\C:").unwrap(), "/a");
    assert_eq!(path_to_web_path(WINDOWS, "logs", "//server/share/logs/x/y", r"\\server\share").unwrap(), "/x/y");
    assert_eq!(
        path_to_web_path(WINDOWS, "logs", r"\\?\UNC\server\share\logs\x", r"\\?\UNC\server\share").unwrap(),
        "/x"
    );
    assert_eq!(path_to_web_path(WINDOWS, "scripts", "//?/scripts/a", "//?").unwrap(), "/a");
    for (path, root) in [
        (r"\\server\other\logs\x", r"\\server\share"),
        (r"\\?\C:\logs\x", r"C:\"),
        (r"\\?\D:\logs", r"\\?\C:"),
    ] {
        assert_eq!(
            refused(path_to_web_path(WINDOWS, "logs", path, root)),
            denied("path escapes workspace"),
            "{:?}",
            path
        );
    }
}

#[test]
fn windows_root_is_canonical() {
    assert_eq!(on_windows("//server/share/w").root, r"\\server\share\w");
    assert_eq!(on_windows(r"\\?\C:/w").root, r"\\?\C:\w");
    for (dir, root) in [
        ("C:/me", r"C:\me\workspace"),
        ("//server/share", r"\\server\share\workspace"),
        (r"\\?\C:\me", r"\\?\C:\me\workspace"),
        ("", "workspace"),
    ] {
        assert_eq!(Workspace::new(WINDOWS, None, Ok(dir.to_string())).unwrap().root, root);
    }
}

#[test]
fn windows_requests_stay_in_their_directory_behind_every_prefix() {
    for (root, path) in [
        (r"\\?\C:", r"\\?\C:\logs\a\b"),
        (r"\\?\C:\w", r"\\?\C:\w\logs\a\b"),
        (r"\\server\share", r"\\server\share\logs\a\b"),
        (r"\\server", r"\\server\logs\a\b"),
        (r"\\?\UNC\server\share", r"\\?\UNC\server\share\logs\a\b"),
        (r"\\?", r"\\?\logs\a\b"),
        ("//?", r"/\?\logs\a\b"),
    ] {
        let w = on_windows(root);
        assert_eq!(w.target("logs", "/a/./b").unwrap().path, path);
        assert_eq!(refused(w.target("logs", "a/C:/b")), denied("path escapes workspace"));
    }
    assert_eq!(refused(on_windows(r"\\").target("logs", "a")), denied("path escapes workspace"));
    for path in [r"\\?\C:\x", r"\\.\COM1", "/\\\\server\\share"] {
        assert_eq!(
            refused(normalize_relative_path(WINDOWS, path)),
            denied("path traversal is not allowed"),
            "{:?}",
            path
        );
    }
}
