use database_backups::error::ApiError;
use database_backups::listing::{
    list_backup_files_route, sorted_newest_first, BackupFileResponse, DirReply, EntryReply,
    EntryStep, Listing, MetadataReply, OpenStep,
};
use database_backups::modified::ModifiedTime;
use database_backups::path::PathStyle;
use database_backups::resolve::CheckedName;
use database_backups::text::{eq_ignore_ascii_case, is_before};

fn at(secs: u64, nanos: u32) -> ModifiedTime {
    ModifiedTime {
        before_epoch: false,
        secs,
        nanos,
    }
}

fn before(secs: u64, nanos: u32) -> ModifiedTime {
    ModifiedTime {
        before_epoch: true,
        secs,
        nanos,
    }
}

fn named(filename: &str, valid: bool) -> EntryReply {
    EntryReply::Named(CheckedName {
        filename: filename.to_string(),
        valid,
    })
}

fn file(size_bytes: u64, secs: u64) -> MetadataReply {
    MetadataReply::Found {
        is_file: true,
        size_bytes,
        modified: Ok(at(secs, 0)),
    }
}

fn response(filename: &str, size_bytes: u64, modified_at: &str) -> BackupFileResponse {
    BackupFileResponse {
        filename: filename.to_string(),
        size_bytes,
        modified_at: modified_at.to_string(),
    }
}

fn opened() -> Listing {
    match list_backup_files_route(PathStyle::Posix, "/srv/data", DirReply::Opened) {
        Ok(OpenStep::Read(listing)) => listing,
        _ => panic!("an open directory is read"),
    }
}

/// Runs a listing over entries, each with the reply to a request for its metadata.
fn run(
    entries: Vec<(EntryReply, Option<MetadataReply>)>,
) -> Result<Vec<BackupFileResponse>, ApiError> {
    let mut listing = opened();
    for (entry, metadata) in entries {
        listing = match listing.on_entry(entry)? {
            EntryStep::Next(listing) => {
                assert!(metadata.is_none());
                listing
            }
            EntryStep::Inspect(pending) => pending.on_metadata(metadata.unwrap())?,
            EntryStep::Done(files) => return Ok(files),
        };
    }
    match listing.on_entry(EntryReply::End)? {
        EntryStep::Done(files) => Ok(files),
        _ => panic!("the end of the directory ends the listing"),
    }
}

#[test]
fn a_missing_directory_holds_no_backups() {
    match list_backup_files_route(PathStyle::Posix, "/srv/data", DirReply::Missing) {
        Ok(OpenStep::Done(files)) => assert_eq!(files, vec![]),
        _ => panic!("an empty list was expected"),
    }
}

#[test]
fn a_directory_that_cannot_be_opened_is_a_failure() {
    let failed = || DirReply::Failed("denied".to_string());
    let error = list_backup_files_route(PathStyle::Posix, "/srv/data", failed())
        .err()
        .unwrap();
    assert_eq!(
        error,
        ApiError::Failure(
            "Failed to read backup directory /srv/data/backups: denied".to_string()
        )
    );
    let error = list_backup_files_route(PathStyle::Windows, r"C:\data", failed())
        .err()
        .unwrap();
    assert_eq!(
        error,
        ApiError::Failure(
            r"Failed to read backup directory C:\data\backups: denied".to_string()
        )
    );
}

#[test]
fn backups_are_listed_newest_first() {
    let files = run(vec![
        (named("wealthfolio_backup_20260513_150409.db", true), Some(file(10, 0))),
        (named("wealthfolio_backup_20260514_150409.db", true), Some(file(20, 1431648000))),
        (named("wealthfolio_backup_20251231_235959.db", true), Some(file(30, 1))),
    ])
    .unwrap();
    assert_eq!(
        files,
        vec![
            response("wealthfolio_backup_20260514_150409.db", 20, "2015-05-15T00:00:00+00:00"),
            response("wealthfolio_backup_20260513_150409.db", 10, "1970-01-01T00:00:00+00:00"),
            response("wealthfolio_backup_20251231_235959.db", 30, "1970-01-01T00:00:01+00:00"),
        ]
    );
}

#[test]
fn other_entries_are_left_out() {
    let files = run(vec![
        (named("notes.txt", false), None),
        (EntryReply::Unnamed, None),
        (
            named("wealthfolio_backup_20260514_150409.db", true),
            Some(MetadataReply::Found {
                is_file: false,
                size_bytes: 4096,
                modified: Err("not asked for".to_string()),
            }),
        ),
    ])
    .unwrap();
    assert_eq!(files, vec![]);
}

/// Three backups, a note and an entry whose name is not text, in this order of the five.
fn directory(order: [usize; 5]) -> Vec<(EntryReply, Option<MetadataReply>)> {
    order
        .into_iter()
        .map(|i| match i {
            0 => (named("a.db", true), Some(file(1, 1))),
            1 => (named("b.db", true), Some(file(2, 2))),
            2 => (named("c.db", true), Some(file(3, 3))),
            3 => (named("notes.txt", false), None),
            _ => (EntryReply::Unnamed, None),
        })
        .collect()
}

#[test]
fn the_order_of_the_directory_does_not_count() {
    let files = run(directory([0, 1, 2, 3, 4])).unwrap();
    let sizes: Vec<u64> = files.iter().map(|f| f.size_bytes).collect();
    assert_eq!(sizes, vec![3, 2, 1]);
    assert_eq!(run(directory([4, 2, 1, 0, 3])).unwrap(), files);
    assert_eq!(run(directory([1, 3, 0, 4, 2])).unwrap(), files);
}

#[test]
fn entries_of_other_kinds_change_nothing() {
    let backups = || -> Vec<_> { directory([1, 2, 0, 3, 4]).into_iter().take(3).collect() };
    let files = run(backups()).unwrap();
    for at in 0..4 {
        let mut entries = backups();
        entries.insert(at, (named("notes.txt", false), None));
        assert_eq!(run(entries).unwrap(), files);
        let mut entries = backups();
        entries.insert(at, (EntryReply::Unnamed, None));
        assert_eq!(run(entries).unwrap(), files);
    }
}

#[test]
fn a_deleted_backup_is_off_the_list() {
    let files = run(directory([0, 1, 2, 3, 4])).unwrap();
    for (at, off) in [(0, 2), (1, 1), (2, 0)] {
        let mut entries = directory([0, 1, 2, 3, 4]);
        entries.remove(at);
        let mut left = run(directory([0, 1, 2, 3, 4])).unwrap();
        assert_eq!(left, files);
        left.remove(off);
        assert_eq!(run(entries).unwrap(), left);
    }
}

#[test]
fn an_entry_that_cannot_be_read_ends_the_listing() {
    let error = run(vec![(EntryReply::Failed("bad sector".to_string()), None)])
        .err()
        .unwrap();
    assert_eq!(
        error,
        ApiError::Context {
            doing: "Failed to read backup directory entry".to_string(),
            cause: "bad sector".to_string(),
        }
    );
    assert_eq!(error.status(), 500);
}

#[test]
fn the_first_failure_is_reported() {
    let error = run(vec![
        (named("a.db", true), Some(file(1, 1))),
        (named("b.db", true), Some(MetadataReply::Failed("gone".to_string()))),
        (named("c.db", true), Some(MetadataReply::Failed("gone too".to_string()))),
    ])
    .err()
    .unwrap();
    assert_eq!(
        error,
        ApiError::Context {
            doing: "Failed to read backup metadata for b.db".to_string(),
            cause: "gone".to_string(),
        }
    );
}

#[test]
fn an_unknown_modified_time_ends_the_listing() {
    let error = run(vec![(
        named("b.db", true),
        Some(MetadataReply::Found {
            is_file: true,
            size_bytes: 1,
            modified: Err("unsupported".to_string()),
        }),
    )])
    .err()
    .unwrap();
    assert_eq!(
        error,
        ApiError::Context {
            doing: "Failed to read backup modified time for b.db".to_string(),
            cause: "unsupported".to_string(),
        }
    );
}

#[test]
fn files_of_one_name_keep_their_order() {
    let listed = sorted_newest_first(vec![
        response("a", 1, ""),
        response("b", 2, ""),
        response("a", 3, ""),
        response("b", 4, ""),
        response("c", 5, ""),
    ]);
    let sizes: Vec<u64> = listed.iter().map(|f| f.size_bytes).collect();
    assert_eq!(sizes, vec![5, 2, 4, 1, 3]);
}

#[test]
fn sorting_agrees_with_the_standard_library() {
    let names = ["b", "a", "", "ab", "é", "z", "\u{10000}", "\u{ffff}", "Z", "ab.db", "a.db"];
    let files = || -> Vec<BackupFileResponse> { names.iter().map(|n| response(n, 0, "")).collect() };
    let mut expected = files();
    expected.sort_by(|a, b| b.filename.cmp(&a.filename));
    assert_eq!(sorted_newest_first(files()), expected);
}

#[test]
fn order_agrees_with_the_standard_library() {
    let names = ["", "a", "ab", "abc", "abd", "b", "B", "é", "\u{ffff}", "\u{10000}", "a\u{0}"];
    for a in names {
        for b in names {
            assert_eq!(is_before(a, b), a < b);
        }
    }
}

#[test]
fn case_is_ignored_for_ascii_only() {
    let words = ["false", "FALSE", "FaLsE", "fals", "falsey", "éclair", "Éclair", "@", "`", "[", "{"];
    for a in words {
        for b in words {
            assert_eq!(eq_ignore_ascii_case(a, b), a.eq_ignore_ascii_case(b));
        }
    }
}

#[test]
fn moments_are_written_as_dates() {
    assert_eq!(at(0, 0).to_rfc3339(), "1970-01-01T00:00:00+00:00");
    assert_eq!(at(0, 500_000_000).to_rfc3339(), "1970-01-01T00:00:00.500+00:00");
    assert_eq!(at(1, 1_000).to_rfc3339(), "1970-01-01T00:00:01.000001+00:00");
    assert_eq!(at(1, 1).to_rfc3339(), "1970-01-01T00:00:01.000000001+00:00");
    assert_eq!(before(1, 0).to_rfc3339(), "1969-12-31T23:59:59+00:00");
    assert_eq!(before(0, 250_000_000).to_rfc3339(), "1969-12-31T23:59:59.750+00:00");
}

#[test]
fn moments_are_written_as_the_time_library_writes_them() {
    let epoch = std::time::UNIX_EPOCH;
    for (secs, nanos) in [(0, 0), (0, 1), (1, 0), (86_399, 999_999_999), (1_778_771_049, 123_456_789)] {
        let distance = std::time::Duration::new(secs, nanos);
        let after = chrono::DateTime::<chrono::Utc>::from(epoch + distance);
        assert_eq!(at(secs, nanos).to_rfc3339(), after.to_rfc3339());
        let earlier = chrono::DateTime::<chrono::Utc>::from(epoch - distance);
        assert_eq!(before(secs, nanos).to_rfc3339(), earlier.to_rfc3339());
    }
}

#[test]
fn the_range_of_dates_is_that_of_the_time_library() {
    let first = chrono::DateTime::<chrono::Utc>::MIN_UTC;
    let last = chrono::DateTime::<chrono::Utc>::MAX_UTC;
    let earliest = first.timestamp().unsigned_abs();
    let latest = last.timestamp().unsigned_abs();
    assert!(before(earliest, 0).is_date());
    assert_eq!(before(earliest, 0).to_rfc3339(), first.to_rfc3339());
    assert!(!before(earliest, 1).is_date());
    assert!(!before(earliest + 1, 0).is_date());
    assert!(at(latest, 999_999_999).is_date());
    assert_eq!(at(latest, 999_999_999).to_rfc3339(), last.to_rfc3339());
    assert!(!at(latest + 1, 0).is_date());
    assert!(!at(0, 1_000_000_000).is_date());
    assert!(!at(u64::MAX, 0).is_date());
    assert!(!before(u64::MAX, 999_999_999).is_date());
}
