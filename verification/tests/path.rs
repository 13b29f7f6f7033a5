use std::path::Path;

use tango_bridge::path::{
    backup_path_of, canonical_path, join_paths, parent_path, path_below, path_file_name, path_starts_with, PathStyle,
};

const UNIX: PathStyle = PathStyle::Unix;
const WINDOWS: PathStyle = PathStyle::Windows;

const PIECES: [&str; 14] = ["", "/", ".", "..", "a", "a.b", ".h", "a.", "//", "./", "/.", "...", "é.ü", "..é"];

fn samples() -> Vec<String> {
    let mut out = Vec::new();
    for a in PIECES {
        for b in PIECES {
            for c in PIECES {
                out.push(format!("{a}{b}{c}"));
                out.push(format!("{a}/{b}/{c}"));
            }
        }
    }
    out.sort();
    out.dedup();
    out
}

fn text(p: &Path) -> String {
    p.to_str().unwrap().to_string()
}

#[test]
fn paths_are_joined_like_the_standard_library_does() {
    for a in samples() {
        for b in ["", "x", "/x", "./x", "../x", "x/", "x/y"] {
            assert_eq!(join_paths(UNIX, &a, b), text(&Path::new(&a).join(b)), "{:?} {:?}", a, b);
        }
    }
}

#[test]
fn parents_and_names_are_those_of_the_standard_library() {
    for p in samples() {
        let path = Path::new(&p);
        assert_eq!(parent_path(UNIX, &p), path.parent().map(text), "{:?}", p);
        assert_eq!(path_file_name(UNIX, &p), path.file_name().map(|s| s.to_str().unwrap().to_string()), "{:?}", p);
    }
}

#[test]
fn prefixes_are_those_of_the_standard_library() {
    let all = samples();
    for p in &all {
        for base in ["", "/", ".", "..", "a", "/a", "./a", "a/a", "a/./a", "a//", "/.", "a.b/.h", "//a", "a/.."] {
            let path = Path::new(p);
            assert_eq!(path_starts_with(UNIX, p, base), path.starts_with(base), "{:?} {:?}", p, base);
            assert_eq!(path_below(UNIX, p, base), path.strip_prefix(base).ok().map(text), "{:?} {:?}", p, base);
        }
    }
}

#[test]
fn backups_have_another_extension() {
    for p in samples() {
        let path = Path::new(&p);
        let expected = path.with_extension(match path.extension().and_then(|s| s.to_str()) {
            Some(ext) if !ext.is_empty() => format!("{ext}.bak"),
            _ => "bak".to_string(),
        });
        assert_eq!(backup_path_of(UNIX, &p), text(&expected), "{:?}", p);
    }
}

#[test]
fn backup_stands_beside_its_file() {
    assert_eq!(backup_path_of(UNIX, "/w/scripts/a/run.js"), "/w/scripts/a/run.js.bak");
    assert_eq!(backup_path_of(UNIX, "run"), "run.bak");
    assert_eq!(backup_path_of(UNIX, "run."), "run.bak");
    assert_eq!(backup_path_of(UNIX, ".profile"), ".profile.bak");
    assert_eq!(backup_path_of(UNIX, "a/...b"), "a/...b.bak");
    assert_eq!(parent_path(UNIX, "/w/a/run.js.bak"), parent_path(UNIX, "/w/a/run.js"));
}

#[test]
fn path_below_undoes_join() {
    for base in ["/w", "w", "./w", "/w/./x"] {
        for relative in ["a", "a/b", "a b/c.d"] {
            let joined = join_paths(UNIX, base, relative);
            assert_eq!(path_below(UNIX, &joined, base), Some(relative.to_string()));
        }
    }
}

#[test]
fn two_dots_and_an_extension_leave_no_place_for_a_backup() {
    assert_eq!(backup_path_of(UNIX, "/w/logs/..a"), "/w/logs/..");
    assert_eq!(backup_path_of(UNIX, "..a"), "..");
    assert_eq!(backup_path_of(UNIX, "..a/"), "..a.bak");
    assert_eq!(backup_path_of(UNIX, "..a.b"), "..a.b.bak");
    assert_eq!(backup_path_of(WINDOWS, "C:\\w\\..a"), "C:\\w\\..");
}

#[test]
fn windows_paths_are_made_canonical() {
    assert_eq!(canonical_path(WINDOWS, "C:/a\\b/c"), "C:\\a\\b\\c");
    assert_eq!(canonical_path(WINDOWS, "\\\\?\\C:\\a/b"), "\\\\?\\C:\\a/b");
    assert_eq!(canonical_path(UNIX, "a\\b/c"), "a\\b/c");
}

#[test]
fn windows_paths_are_joined() {
    for (a, b, joined) in [
        ("C:\\w", "x", "C:\\w\\x"),
        ("C:\\", "x", "C:\\x"),
        ("C:", "x", "C:x"),
        ("", "x", "x"),
        ("w", "C:x", "C:x"),
        ("C:\\w", "D:\\x", "D:\\x"),
        ("C:\\w", "\\x", "C:\\x"),
        ("C:\\w", "\\\\server\\share", "\\\\server\\share"),
        ("\\\\server\\share", "x", "\\\\server\\share\\x"),
        ("C:\\w", "", "C:\\w\\"),
    ] {
        assert_eq!(join_paths(WINDOWS, a, b), joined, "{:?} {:?}", a, b);
    }
}

#[test]
fn windows_paths_have_parents_and_names() {
    assert_eq!(parent_path(WINDOWS, "C:\\w\\x"), Some("C:\\w".to_string()));
    assert_eq!(parent_path(WINDOWS, "C:\\w"), Some("C:\\".to_string()));
    assert_eq!(parent_path(WINDOWS, "C:w"), Some("C:".to_string()));
    assert_eq!(parent_path(WINDOWS, "C:\\"), None);
    assert_eq!(parent_path(WINDOWS, "C:"), None);
    assert_eq!(path_file_name(WINDOWS, "C:w"), Some("w".to_string()));
    assert_eq!(path_file_name(WINDOWS, "C:"), None);
    assert_eq!(path_file_name(WINDOWS, "a\\..\\b/c"), Some("b/c".to_string()));
}

#[test]
fn windows_prefixes_go_by_components() {
    assert!(path_starts_with(WINDOWS, "c:\\w\\x", "C:\\w"));
    assert!(!path_starts_with(WINDOWS, "C:w\\x", "C:\\w"));
    assert!(!path_starts_with(WINDOWS, "C:\\W\\x", "C:\\w"));
    assert!(!path_starts_with(WINDOWS, "D:\\w", "C:\\w"));
    assert_eq!(path_below(WINDOWS, "C:\\w\\a\\b", "C:\\w"), Some("a\\b".to_string()));
    assert_eq!(path_below(WINDOWS, "C:a", "C:"), Some("a".to_string()));
    assert_eq!(path_below(WINDOWS, "C:\\a", "C:"), Some("\\a".to_string()));
    assert_eq!(path_below(WINDOWS, "C:\\a\\", ""), Some("C:\\a".to_string()));
}

#[test]
fn windows_shares_and_verbatim_paths_are_made_canonical() {
    for (p, canonical) in [
        ("//server/share/x", r"\\server\share\x"),
        (r"\\server/share", r"\\server\share"),
        ("//./COM1", r"\\.\COM1"),
        (r"\\?\UNC/server\share\a/b", r"\\?\UNC\server\share\a/b"),
        (r"\\?\C:/a/b", r"\\?\C:\a/b"),
        (r"\\?\name/x", r"\\?\name/x"),
        ("//?/x/y", r"/\?\x\y"),
        ("//?/", r"\?\"),
        ("//?", r"/\?"),
        (r"\\?", r"\\?"),
    ] {
        assert_eq!(canonical_path(WINDOWS, p), canonical, "{:?}", p);
        assert_eq!(canonical_path(WINDOWS, canonical), canonical, "{:?}", p);
    }
}

#[test]
fn windows_paths_with_prefixes_are_joined() {
    for (a, b, joined) in [
        (r"\\?\C:", "x", r"\\?\C:\x"),
        (r"\\?\C:\w", "x", r"\\?\C:\w\x"),
        (r"\\?\C:\w", r"a\..\b", r"\\?\C:\w\b"),
        (r"\\?\C:\w", r".\x\.\y", r"\\?\C:\w\x\y"),
        (r"\\?\C:\w", r"..\..\..\x", r"\\?\C:\x"),
        (r"\\?\C:\w\..", "..", r"\\?\C:\w\.."),
        (r"\\?\C:\w", r"\x", r"\\?\C:\x"),
        (r"\\?\C:\w", r"D:\x", r"D:\x"),
        (r"\\?\C:\w", "", r"\\?\C:\w\"),
        (r"\\?\UNC\server\share", "x", r"\\?\UNC\server\share\x"),
        (r"\\?\name", "x", r"\\?\name\x"),
        (r"\\server\share\w", r"\x", r"\\server\share\x"),
        (r"\\server\share\w", r"..\x", r"\\server\share\w\..\x"),
        (r"\\.\COM1", "x", r"\\.\COM1\x"),
        (r"/\?\x", r"..\a", r"/\?\x\..\a"),
        ("w", r"\\?\C:\x", r"\\?\C:\x"),
        ("w", r"\\.\COM1", r"\\.\COM1"),
        (r"\\server", "x", r"\\server\x"),
    ] {
        assert_eq!(join_paths(WINDOWS, a, b), joined, "{:?} {:?}", a, b);
    }
}

#[test]
fn windows_paths_with_prefixes_have_parents_and_names() {
    for (p, parent, name) in [
        (r"\\server\share\x", Some(r"\\server\share\"), Some("x")),
        (r"\\server\share", None, None),
        (r"\\server\share\", None, None),
        (r"\\server", Some(r"\"), Some("server")),
        (r"\\.\COM1\x\y", Some(r"\\.\COM1\x"), Some("y")),
        (r"\\?\C:\x", Some(r"\\?\C:\"), Some("x")),
        (r"\\?\C:", None, None),
        (r"\\?\C:\a\.", Some(r"\\?\C:\a"), None),
        (r"\\?\C:\a/b", Some(r"\\?\C:\"), Some("a/b")),
        (r"\\?\UNC\server\share\x", Some(r"\\?\UNC\server\share\"), Some("x")),
        (r"\\?\C:x\y", Some(r"\\?\C:x\"), Some("y")),
        (r"C:.\x", Some("C:"), Some("x")),
    ] {
        assert_eq!(parent_path(WINDOWS, p).as_deref(), parent, "{:?}", p);
        assert_eq!(path_file_name(WINDOWS, p).as_deref(), name, "{:?}", p);
    }
}

#[test]
fn windows_prefixes_of_every_kind_are_compared() {
    assert!(path_starts_with(WINDOWS, r"\\?\c:\w\x", r"\\?\C:\w"));
    assert!(path_starts_with(WINDOWS, r"\\?\c:\w", r"\\?\C:"));
    assert!(!path_starts_with(WINDOWS, r"\\?\C:\w", r"C:\w"));
    assert!(!path_starts_with(WINDOWS, r"\\?\D:\w", r"\\?\C:"));
    assert!(path_starts_with(WINDOWS, r"\\server\share\w", r"\\server\share"));
    assert!(path_starts_with(WINDOWS, r"\\server\share", r"\\server\share\"));
    assert!(!path_starts_with(WINDOWS, r"\\Server\share\w", r"\\server\share"));
    assert!(!path_starts_with(WINDOWS, r"\\server\share\w", r"\\server"));
    assert!(!path_starts_with(WINDOWS, r"\\?\UNC\server\share\w", r"\\server\share"));
    assert!(path_starts_with(WINDOWS, r"\\?\UNC\server\share\w", r"\\?\UNC\server\share"));
    assert!(!path_starts_with(WINDOWS, r"\\?\UNC\server\share\w", r"\\?\UNC\server"));
    assert!(!path_starts_with(WINDOWS, r"\\.\C:\w", r"\\?\C:"));
    assert_eq!(path_below(WINDOWS, r"\\?\C:\a", r"\\?\c:").as_deref(), Some(r"\a"));
    assert_eq!(path_below(WINDOWS, r"\\server\share\a\b\", r"\\server\share").as_deref(), Some(r"a\b"));
    assert_eq!(path_below(WINDOWS, r"\\.\X\a", r"\\.\X").as_deref(), Some("a"));
    assert_eq!(path_below(WINDOWS, r"\\?\UNC\s\h\a\.\b", r"\\?\UNC\s\h\a").as_deref(), Some(r".\b"));
}

#[test]
fn windows_backups_stand_beside_their_files() {
    assert_eq!(backup_path_of(WINDOWS, r"\\server\share\a.txt"), r"\\server\share\a.txt.bak");
    assert_eq!(backup_path_of(WINDOWS, r"\\?\C:\w\a"), r"\\?\C:\w\a.bak");
    assert_eq!(backup_path_of(WINDOWS, r"\\server\share"), r"\\server\share");
}

#[test]
fn windows_names_joined_to_a_base_are_found_below_it() {
    for base in [r"C:\w", r"\\server\share", r"\\?\C:\w", r"\\?\UNC\server\share\w", r"\\.\X", r"C:w", r"\w"] {
        for relative in ["a", r"a\b", r"a b\c.d"] {
            let joined = join_paths(WINDOWS, base, relative);
            assert_eq!(path_below(WINDOWS, &joined, base).as_deref(), Some(relative), "{:?}", base);
        }
    }
}
