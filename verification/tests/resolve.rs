use database_backups::error::ApiError;
use database_backups::join::{backups_dir, join_text};
use database_backups::path::{file_name_of, starts_with, PathStyle};
use database_backups::resolve::{resolve_backup_path, Canonical, CheckedName, ResolvedBackup};

const NAME: &str = "wealthfolio_backup_20260514_150409.db";

fn checked(filename: &str, valid: bool) -> CheckedName {
    CheckedName {
        filename: filename.to_string(),
        valid,
    }
}

fn found(path: &str) -> Canonical {
    Canonical::Found(path.as_bytes().to_vec())
}

fn resolve(name: CheckedName, dir: Canonical, file: Canonical) -> Result<ResolvedBackup, ApiError> {
    let lookup = resolve_backup_path(PathStyle::Posix, "/srv/data", &name)?;
    assert_eq!(lookup.path(), "/srv/data/backups");
    let lookup = lookup.on_canonical(dir)?;
    assert_eq!(
        lookup.path(),
        format!("/srv/data/backups/{}", name.filename)
    );
    lookup.on_canonical(file)
}

#[test]
fn resolve_backup_path_rejects_invalid_filename() {
    let result = resolve_backup_path(
        PathStyle::Posix,
        "/srv/data",
        &checked("../wealthfolio_backup_20260514_150409.db", false),
    );
    assert!(matches!(result, Err(ApiError::BadRequest(_))));
}

#[test]
fn resolve_backup_path_accepts_valid_backup_inside_backup_dir() {
    let resolved = resolve(
        checked(NAME, true),
        found("/mnt/disk/backups"),
        found("/mnt/disk/backups/wealthfolio_backup_20260514_150409.db"),
    )
    .ok()
    .unwrap();
    assert_eq!(
        resolved.path(),
        "/mnt/disk/backups/wealthfolio_backup_20260514_150409.db".as_bytes()
    );
    assert_eq!(resolved.filename(), NAME);
}

#[test]
fn resolve_backup_path_rejects_symlink_escape() {
    let result = resolve(
        checked(NAME, true),
        found("/srv/data/backups"),
        found("/tmp/outside/outside.db"),
    );
    assert!(matches!(result, Err(ApiError::BadRequest(_))));
}

#[test]
fn invalid_filename_is_answered_with_status_400() {
    let error = resolve_backup_path(PathStyle::Posix, "/srv/data", &checked("../x", false))
        .err()
        .unwrap();
    assert_eq!(
        error,
        ApiError::BadRequest("Invalid backup filename".to_string())
    );
    assert_eq!(error.status(), 400);
}

#[test]
fn missing_directory_or_file_is_not_found() {
    let error = resolve(checked(NAME, true), Canonical::Missing, Canonical::Missing)
        .err()
        .unwrap();
    assert_eq!(error, ApiError::NotFound);
    assert_eq!(error.status(), 404);
    let error = resolve(
        checked(NAME, true),
        found("/srv/data/backups"),
        Canonical::Missing,
    )
    .err()
    .unwrap();
    assert_eq!(error, ApiError::NotFound);
}

#[test]
fn unreachable_directory_and_file_are_failures() {
    let error = resolve(
        checked(NAME, true),
        Canonical::Failed("Permission denied (os error 13)".to_string()),
        Canonical::Missing,
    )
    .err()
    .unwrap();
    assert_eq!(
        error,
        ApiError::Failure(
            "Failed to access backup directory /srv/data/backups: Permission denied (os error 13)"
                .to_string()
        )
    );
    assert_eq!(error.status(), 500);
    let error = resolve(
        checked(NAME, true),
        found("/srv/data/backups"),
        Canonical::Failed("I/O error".to_string()),
    )
    .err()
    .unwrap();
    assert_eq!(
        error,
        ApiError::Failure(
            "Backup file not found: wealthfolio_backup_20260514_150409.db: I/O error".to_string()
        )
    );
}

#[test]
fn a_sibling_with_the_same_beginning_is_outside() {
    let result = resolve(
        checked(NAME, true),
        found("/srv/data/backups"),
        found("/srv/data/backups-old/a.db"),
    );
    assert!(matches!(result, Err(ApiError::BadRequest(_))));
}

#[test]
fn paths_that_are_not_text_are_compared_by_bytes() {
    let dir = Canonical::Found(vec![b'/', 0xff, b'd']);
    let file = Canonical::Found(vec![b'/', 0xff, b'd', b'/', b'f']);
    assert!(resolve(checked(NAME, true), dir, file).is_ok());
    let dir = Canonical::Found(vec![b'/', 0xff, b'd']);
    let file = Canonical::Found(vec![b'/', 0xfe, b'd', b'/', b'f']);
    assert!(resolve(checked(NAME, true), dir, file).is_err());
}

#[test]
fn backups_dir_is_below_the_data_root() {
    assert_eq!(backups_dir(PathStyle::Posix, "/srv/data"), "/srv/data/backups");
    assert_eq!(backups_dir(PathStyle::Posix, "/srv/data/"), "/srv/data/backups");
    assert_eq!(backups_dir(PathStyle::Posix, "."), "./backups");
    assert_eq!(backups_dir(PathStyle::Posix, ""), "backups");
    assert_eq!(backups_dir(PathStyle::Posix, "dätä"), "dätä/backups");
}

#[test]
fn backups_dir_is_below_the_data_root_on_windows() {
    let cases = [
        (r"C:\data", r"C:\data\backups"),
        ("C:/data/", "C:/data/backups"),
        ("C:", "C:backups"),
        (r"\data", r"\data\backups"),
        ("data", r"data\backups"),
        ("", "backups"),
        (r"\\server\share", r"\\server\share\backups"),
        (r"\\server\share\data\", r"\\server\share\data\backups"),
        (r"\\?\UNC\server\share\data", r"\\?\UNC\server\share\data\backups"),
        (r"\\?\C:\data\", r"\\?\C:\data\backups"),
    ];
    for (data_root, expected) in cases {
        let dir = backups_dir(PathStyle::Windows, data_root);
        assert_eq!(dir, expected);
        assert!(starts_with(PathStyle::Windows, dir.as_bytes(), data_root.as_bytes()));
        assert_eq!(file_name_of(PathStyle::Windows, &dir).as_deref(), Some("backups"));
    }
}

#[test]
fn join_agrees_with_the_standard_library() {
    let roots = ["", "/", "a", "a/", "/a/b", "a//", "é", "/é/"];
    let names = ["", "b", "/b", "./b", "../b", "b/c", "ü"];
    for root in roots {
        for name in names {
            let expected = std::path::Path::new(root).join(name);
            assert_eq!(join_text(PathStyle::Posix, root, name), expected.to_str().unwrap());
        }
    }
}

#[test]
fn file_name_agrees_with_the_standard_library() {
    let paths = [
        "", "/", "//", ".", "..", "./", "a", "a/", "a/.", "a/..", "a/./", "a//.//", "/a/b.db",
        "/usr/bin/", "tmp/foo.txt", "foo.txt/.", "foo.txt/.//", "foo.txt/..", "...", "a/...",
        "./.", "/.", "/..", ".a", "a.", "/data/bäckups/naïve.db",
    ];
    for path in paths {
        let expected = std::path::Path::new(path)
            .file_name()
            .and_then(|f| f.to_str());
        assert_eq!(file_name_of(PathStyle::Posix, path).as_deref(), expected, "{}", path);
    }
}

#[test]
fn starts_with_agrees_with_the_standard_library() {
    let paths = [
        "", "/", "//", ".", "..", "./a", "a", "a/", "a/.", "a/./b", "a/b", "a//b", "/a", "/a/b",
        "/a/b/", "/ab", "/a/bc", "/./a", "a/../b", "./", "../a", "/a/b/c/../d",
    ];
    for path in paths {
        for base in paths {
            let expected = std::path::Path::new(path).starts_with(base);
            assert_eq!(
                starts_with(PathStyle::Posix, path.as_bytes(), base.as_bytes()),
                expected,
                "{} {}",
                path,
                base
            );
        }
    }
}

#[test]
fn windows_joins_put_a_backslash_where_none_is() {
    let cases = [
        ("", "foo", "foo"),
        ("foo", "bar", r"foo\bar"),
        ("foo/", "bar", "foo/bar"),
        (r"foo\", "bar", r"foo\bar"),
        (r"foo\\", "bar", r"foo\\bar"),
        ("foo/.", "bar", r"foo/.\bar"),
        ("foo", "", r"foo\"),
        ("foo", "..", r"foo\.."),
        (r"a\b", r"c\d", r"a\b\c\d"),
        (r"c:\", "windows", r"c:\windows"),
        ("c:", "windows", "c:windows"),
        ("C:", r"..\a", r"C:..\a"),
        (r"\\server\share\foo", "bar", r"\\server\share\foo\bar"),
        (r"\\server\share", "bar", r"\\server\share\bar"),
        (r"\\.\foo\bar", "baz", r"\\.\foo\bar\baz"),
        (r"\\.\foo", r"..\bar", r"\\.\foo\..\bar"),
        (r"dätä\é", "ü", r"dätä\é\ü"),
    ];
    for (base, rel, expected) in cases {
        assert_eq!(join_text(PathStyle::Windows, base, rel), expected);
    }
}

#[test]
fn windows_joins_start_anew_at_a_root_or_a_drive() {
    let cases = [
        ("foo", "/bar", "/bar"),
        (r"a\b", r"\c\d", r"\c\d"),
        (r"C:\a\b", r"\c", r"C:\c"),
        ("C:a", "/c", "C:/c"),
        (r"\\server\share\foo", r"\c", r"\\server\share\c"),
        (r"a\b", "C:a.txt", "C:a.txt"),
        (r"C:\a", r"C:\b.txt", r"C:\b.txt"),
        (r"C:\a\b\c", "C:d", "C:d"),
        (r"\\server\share\foo", "C:baz", "C:baz"),
        (r"\\?\C:\a\b", r"C:c\d", r"C:c\d"),
        (r"\\?\UNC\server\share", r"C:\a", r"C:\a"),
        (r"C:\a", r"\\?\UNC\server\share", r"\\?\UNC\server\share"),
        (r"\\?\C:", r"D:\foo/./", r"D:\foo/./"),
    ];
    for (base, rel, expected) in cases {
        assert_eq!(join_text(PathStyle::Windows, base, rel), expected);
    }
}

#[test]
fn joins_to_verbatim_windows_paths_are_walked() {
    let cases = [
        (r"\\?\foo\bar", "baz", r"\\?\foo\bar\baz"),
        (r"\\?\UNC\server\share\foo", "bar", r"\\?\UNC\server\share\foo\bar"),
        (r"\\?\UNC\server", "foo", r"\\?\UNC\server\foo"),
        (r"\\?\C:", "foo", r"\\?\C:\foo"),
        (r"\\?\C:\bar", "../foo", r"\\?\C:\foo"),
        (r"\\?\C:\bar", "../../foo", r"\\?\C:\foo"),
        (r"\\?\C:\", "../foo", r"\\?\C:\foo"),
        (r"\\?\A:\x\y", "/foo", r"\\?\A:\foo"),
        (r"\\?\A:", r"..\foo\.", r"\\?\A:\foo"),
        (r"\\?\A:\x\y", r".\foo\.", r"\\?\A:\x\y\foo"),
        (r"\\?\A:\x\y", "", r"\\?\A:\x\y\"),
    ];
    for (base, rel, expected) in cases {
        assert_eq!(join_text(PathStyle::Windows, base, rel), expected);
    }
}

#[test]
fn windows_file_names_follow_either_separator() {
    let cases = [
        ("", None),
        ("foo", Some("foo")),
        (r"foo\bar/", Some("bar")),
        (r"c:\foo.txt", Some("foo.txt")),
        ("c:", None),
        (r"c:\", None),
        ("c:foo", Some("foo")),
        (r"C:\data\backups\a.db", Some("a.db")),
        ("C:/data/backups/a.db", Some("a.db")),
        (r"C:\data\..", None),
        (r"C:\data\.", Some("data")),
        (r"\\server\share", None),
        (r"\\server\share\foo.txt", Some("foo.txt")),
        (r"\\server", Some("server")),
        (r"\\.\foo", None),
        (r"\\.\foo\bar", Some("bar")),
        (r"\\?\bar\foo", Some("foo")),
        (r"\\?\foo/bar", None),
        (r"\\?\UNC\server\share\foo", Some("foo")),
        (r"\\?\C:\foo.txt", Some("foo.txt")),
        (r"\\?\C:\foo/bar.txt", Some("foo/bar.txt")),
        (r"C:\bäckups\naïve.db", Some("naïve.db")),
    ];
    for (path, expected) in cases {
        assert_eq!(file_name_of(PathStyle::Windows, path).as_deref(), expected, "{}", path);
    }
    assert_eq!(
        file_name_of(PathStyle::Posix, r"C:\data\a.db").as_deref(),
        Some(r"C:\data\a.db")
    );
}

#[test]
fn windows_paths_lie_in_one_another_part_by_part() {
    let cases = [
        (r"\\?\C:\data\backups\a.db", r"\\?\C:\data\backups", true),
        (r"\\?\C:\data\backups-old\a.db", r"\\?\C:\data\backups", false),
        (r"\\?\D:\data\backups\a.db", r"\\?\C:\data\backups", false),
        (r"\\?\c:\data\backups\a.db", r"\\?\C:\data\backups", true),
        (r"C:\data\backups\a.db", r"\\?\C:\data\backups", false),
        (r"c:\a\b", r"C:/a", true),
        (r"C:\A\b", r"C:\a", false),
        (r"C:a", r"C:\", false),
        (r"C:a", "C:", true),
        (r"\\?\C:\a/b", r"\\?\C:\a", false),
        (r"\\server\share\a", r"\\server\share", true),
        (r"\\server\share\a", r"\\server\other", false),
        (r"\\?\UNC\server\share\a", r"\\?\UNC\server\share", true),
        (r"a\.\b", r"a\b", true),
        (r"a\..\b", "b", false),
    ];
    for (path, base, expected) in cases {
        assert_eq!(
            starts_with(PathStyle::Windows, path.as_bytes(), base.as_bytes()),
            expected,
            "{} {}",
            path,
            base
        );
    }
}

/// The lookup of a backup below `C:\data`, with these canonical paths.
fn resolve_on_windows(dir: &str, file: &str) -> Result<ResolvedBackup, ApiError> {
    let lookup = resolve_backup_path(PathStyle::Windows, r"C:\data", &checked(NAME, true))?;
    assert_eq!(lookup.path(), r"C:\data\backups");
    let lookup = lookup.on_canonical(found(dir))?;
    assert_eq!(
        lookup.path(),
        r"C:\data\backups\wealthfolio_backup_20260514_150409.db"
    );
    lookup.on_canonical(found(file))
}

#[test]
fn backups_are_looked_up_on_windows() {
    let file = r"\\?\C:\data\backups\wealthfolio_backup_20260514_150409.db";
    let resolved = resolve_on_windows(r"\\?\C:\data\backups", file).ok().unwrap();
    assert_eq!(resolved.path(), file.as_bytes());
    assert_eq!(resolved.style(), PathStyle::Windows);
    let result = resolve_on_windows(r"\\?\C:\data\backups", r"\\?\C:\temp\outside.db");
    assert!(matches!(result, Err(ApiError::BadRequest(_))));
    let error = resolve_backup_path(PathStyle::Windows, r"C:\data", &checked(NAME, true))
        .and_then(|lookup| lookup.on_canonical(Canonical::Failed("denied".to_string())))
        .err()
        .unwrap();
    assert_eq!(
        error,
        ApiError::Failure(
            r"Failed to access backup directory C:\data\backups: denied".to_string()
        )
    );
}
