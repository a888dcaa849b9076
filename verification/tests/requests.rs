use database_backups::backup::{backup_database_route, confirm_backup, BackupReply};
use database_backups::delete::delete_backup_file_route;
use database_backups::download::{
    download_backup_file_route, read_buffer, stream_file, StreamStep, CHUNK_BYTES,
};
use database_backups::error::ApiError;
use database_backups::limit::TOO_MANY_REQUESTS;
use database_backups::listing::{
    list_backup_files_route, DirReply, EntryReply, EntryStep, MetadataReply, OpenStep,
};
use database_backups::modified::ModifiedTime;
use database_backups::path::PathStyle;
use database_backups::resolve::{resolve_backup_path, Canonical, CheckedName, ResolvedBackup};
use database_backups::restore::{
    restart_on_restore_enabled, restore_broken_off, restore_database_route, Restart,
};
use database_backups::routes::{router, Endpoint, LimitKey, Method, RateLimit};
use tower_governor::governor::GovernorConfigBuilder;
use tower_governor::key_extractor::PeerIpKeyExtractor;
use tower_governor::GovernorError;

const NAME: &str = "wealthfolio_backup_20260514_150409.db";

fn checked(filename: &str, valid: bool) -> CheckedName {
    CheckedName {
        filename: filename.to_string(),
        valid,
    }
}

/// A backup of that name, found at `path` in `/d`.
fn target(filename: &str, path: Vec<u8>) -> ResolvedBackup {
    resolve_backup_path(PathStyle::Posix, "/srv", &checked(filename, true))
        .and_then(|lookup| lookup.on_canonical(Canonical::Found(b"/d".to_vec())))
        .and_then(|lookup| lookup.on_canonical(Canonical::Found(path)))
        .ok()
        .unwrap()
}

/// The file names that are listed for a backup directory with these files in it.
fn list(names: &[String]) -> Vec<String> {
    let mut listing = match list_backup_files_route(PathStyle::Posix, "/srv/data", DirReply::Opened) {
        Ok(OpenStep::Read(listing)) => listing,
        _ => panic!("an open directory is read"),
    };
    for name in names {
        listing = match listing.on_entry(EntryReply::Named(checked(name, true))) {
            Ok(EntryStep::Inspect(pending)) => pending
                .on_metadata(MetadataReply::Found {
                    is_file: true,
                    size_bytes: 1,
                    modified: Ok(ModifiedTime {
                        before_epoch: false,
                        secs: 1,
                        nanos: 0,
                    }),
                })
                .ok()
                .unwrap(),
            _ => panic!("a backup is looked at"),
        };
    }
    match listing.on_entry(EntryReply::End) {
        Ok(EntryStep::Done(files)) => files.into_iter().map(|f| f.filename).collect(),
        _ => panic!("the end of the directory ends the listing"),
    }
}

#[test]
fn backup_then_restore_from_server_backup() {
    let mut disk: Vec<String> = vec![];

    // Create a backup.
    disk.push(NAME.to_string());
    let reply = BackupReply::Written(format!("/srv/data/backups/{}", NAME));
    let filename = backup_database_route(PathStyle::Posix, reply).unwrap();
    let filename = confirm_backup(checked(&filename, true)).unwrap().filename;

    // It shows up in the list.
    assert!(
        list(&disk).iter().any(|b| *b == filename),
        "created backup should be listed"
    );

    // Restore from it.
    let lookup = resolve_backup_path(PathStyle::Posix, "/srv/data", &checked(&filename, true)).ok().unwrap();
    let lookup = lookup
        .on_canonical(Canonical::Found(b"/srv/data/backups".to_vec()))
        .ok()
        .unwrap();
    let path = lookup.path().as_bytes().to_vec();
    let backup = lookup.on_canonical(Canonical::Found(path)).ok().unwrap();
    let copy = restore_database_route("/srv/data", &backup).ok().unwrap();
    assert_eq!(copy.data_root(), "/srv/data");
    disk.push("wealthfolio_backup_20260514_150410.db".to_string());
    let swap = copy
        .on_backup(Ok(
            "/srv/data/backups/wealthfolio_backup_20260514_150410.db".to_string()
        ))
        .ok()
        .unwrap();
    assert_eq!(swap.data_root(), "/srv/data");
    assert_eq!(swap.source(), format!("/srv/data/backups/{}", NAME));
    let (response, restart) = swap.on_restored(Ok(())).ok().unwrap().finish(Some("false"));
    assert_eq!(response.restored_from, filename);
    assert_eq!(response.restarting, false);
    assert!(restart.is_none());
    assert!(
        !response.safety_backup.is_empty(),
        "a pre-restore safety backup should be created"
    );

    // The safety backup is a listed backup that the user can roll back to.
    assert!(
        list(&disk).iter().any(|b| *b == response.safety_backup),
        "the pre-restore safety backup should appear in the backups list"
    );
}

#[test]
fn restore_rejects_path_traversal_filename() {
    let name = checked("../wealthfolio_backup_20260514_150409.db", false);
    let error = resolve_backup_path(PathStyle::Posix, "/srv/data", &name).err().unwrap();
    assert_eq!(
        error.status(),
        400,
        "traversal filename must be rejected as a bad request"
    );
}

#[test]
fn a_backup_is_answered_with_its_file_name() {
    assert_eq!(
        backup_database_route(PathStyle::Posix, BackupReply::Written("/srv/backups/a.db".to_string())),
        Ok("a.db".to_string())
    );
    assert_eq!(
        backup_database_route(PathStyle::Posix, BackupReply::Written("/srv/backups/..".to_string())),
        Err(ApiError::Failure("Invalid backup filename".to_string()))
    );
    let reply = BackupReply::Written(r"C:\srv\backups\a.db".to_string());
    assert_eq!(backup_database_route(PathStyle::Windows, reply), Ok("a.db".to_string()));
    assert_eq!(
        backup_database_route(PathStyle::Posix, BackupReply::Refused("disk full".to_string())),
        Err(ApiError::Storage("disk full".to_string()))
    );
    assert_eq!(
        backup_database_route(PathStyle::Posix, BackupReply::BrokenOff("task 7 panicked".to_string())),
        Err(ApiError::Failure(
            "Failed to execute backup task: task 7 panicked".to_string()
        ))
    );
}

#[test]
fn a_backup_with_another_name_is_an_internal_error() {
    assert_eq!(
        confirm_backup(checked("a.txt", false)),
        Err(ApiError::Internal(
            "Backup service returned an invalid filename".to_string()
        ))
    );
}

#[test]
fn a_deletion_is_answered_without_contents() {
    let backup = target("a.db", b"/d/a.db".to_vec());
    assert_eq!(delete_backup_file_route(&backup, Ok(())), Ok(204));
    assert_eq!(
        delete_backup_file_route(&backup, Err("busy".to_string())),
        Err(ApiError::Context {
            doing: "Failed to delete backup file a.db".to_string(),
            cause: "busy".to_string(),
        })
    );
}

#[test]
fn a_download_names_its_file() {
    let backup = target("a.db", b"/d/a.db".to_vec());
    let head = download_backup_file_route(&backup, Ok(())).unwrap();
    assert_eq!(head.status, 200);
    assert_eq!(head.content_type, "application/octet-stream");
    assert_eq!(head.content_disposition, "attachment; filename=\"a.db\"");
    assert_eq!(
        download_backup_file_route(&backup, Err("busy".to_string())),
        Err(ApiError::Context {
            doing: "Failed to open backup file a.db".to_string(),
            cause: "busy".to_string(),
        })
    );
}

#[test]
fn a_name_that_no_header_can_hold_is_a_failure() {
    let failure = Err(ApiError::Failure(
        "Failed to build backup download response: failed to parse header value".to_string(),
    ));
    for name in ["a\nb", "a\u{7f}", "\u{0}", "\u{1f}"] {
        let backup = target(name, b"/d/a".to_vec());
        assert_eq!(download_backup_file_route(&backup, Ok(())), failure);
    }
    for name in ["a\tb", "a b", "~", "é", "\u{80}", "\u{10ffff}"] {
        let backup = target(name, b"/d/a".to_vec());
        assert!(download_backup_file_route(&backup, Ok(())).is_ok());
    }
}

#[test]
fn the_stream_sends_what_was_read() {
    assert_eq!(CHUNK_BYTES, 65536);
    assert_eq!(read_buffer(), vec![0u8; 65536]);
    match stream_file::<u8>(vec![1, 2, 3, 4], Ok(3)) {
        StreamStep::Chunk(chunk) => assert_eq!(chunk, vec![1, 2, 3]),
        _ => panic!("bytes were read"),
    }
    assert!(matches!(stream_file::<u8>(vec![1, 2], Ok(0)), StreamStep::End));
    assert!(matches!(stream_file::<u8>(vec![1, 2], Err(9)), StreamStep::Fault(9)));
}

#[test]
fn the_stream_sends_the_whole_file() {
    let file: Vec<u8> = (0..200_000u32).map(|i| (i % 251) as u8).collect();
    let mut position = 0;
    let mut sent = vec![];
    loop {
        let mut buffer = read_buffer();
        let count = (file.len() - position).min(buffer.len());
        buffer[..count].copy_from_slice(&file[position..position + count]);
        position += count;
        match stream_file::<u8>(buffer, Ok(count)) {
            StreamStep::Chunk(chunk) => sent.extend(chunk),
            _ => break,
        }
    }
    assert_eq!(sent, file);
}

#[test]
fn a_path_that_is_not_text_is_not_restored_from() {
    let backup = target("a.db", vec![b'/', b'd', b'/', 0xff]);
    assert_eq!(
        restore_database_route("/srv", &backup).err(),
        Some(ApiError::Internal("Backup path is not valid UTF-8".to_string()))
    );
    let backup = target("a.db", "/d/ä.db".as_bytes().to_vec());
    let swap = restore_database_route("/srv", &backup)
        .and_then(|copy| copy.on_backup(Ok("/d/s.db".to_string())))
        .ok()
        .unwrap();
    assert_eq!(swap.source(), "/d/ä.db");
}

#[test]
fn a_restore_stops_at_the_first_failure() {
    let backup = target("a.db", b"/d/a.db".to_vec());
    let copy = restore_database_route("/srv", &backup).ok().unwrap();
    assert_eq!(
        copy.on_backup(Err("disk full".to_string())).err(),
        Some(ApiError::Internal(
            "Failed to create pre-restore backup: disk full".to_string()
        ))
    );
    let copy = restore_database_route("/srv", &backup).ok().unwrap();
    let swap = copy.on_backup(Ok("/d/s.db".to_string())).ok().unwrap();
    assert_eq!(
        swap.on_restored(Err("locked".to_string())).err(),
        Some(ApiError::Internal("Failed to restore database: locked".to_string()))
    );
    assert_eq!(
        restore_broken_off("cancelled"),
        ApiError::Failure("Failed to execute restore task: cancelled".to_string())
    );
}

#[test]
fn a_safety_copy_without_a_file_name_is_answered_as_empty() {
    let backup = target("a.db", b"/d/a.db".to_vec());
    let copy = restore_database_route("/srv", &backup).ok().unwrap();
    let swap = copy.on_backup(Ok("/".to_string())).ok().unwrap();
    let (response, restart) = swap.on_restored(Ok(())).ok().unwrap().finish(None);
    assert_eq!(response.safety_backup, "");
    assert_eq!(response.restored_from, "a.db");
    assert_eq!(response.restarting, true);
    assert_eq!(
        restart,
        Some(Restart {
            delay_millis: 500,
            exit_code: 0
        })
    );
}

#[test]
fn a_restore_on_windows_names_its_safety_copy() {
    let path = r"\\?\C:\data\backups\a.db";
    let backup = resolve_backup_path(PathStyle::Windows, r"C:\data", &checked("a.db", true))
        .and_then(|lookup| {
            lookup.on_canonical(Canonical::Found(br"\\?\C:\data\backups".to_vec()))
        })
        .and_then(|lookup| lookup.on_canonical(Canonical::Found(path.as_bytes().to_vec())))
        .ok()
        .unwrap();
    let swap = restore_database_route(r"C:\data", &backup)
        .and_then(|copy| copy.on_backup(Ok(r"C:\data\backups\s.db".to_string())))
        .ok()
        .unwrap();
    assert_eq!(swap.source(), path);
    let (response, _) = swap.on_restored(Ok(())).ok().unwrap().finish(None);
    assert_eq!(response.safety_backup, "s.db");
}

/// What a file system with these files in `/disk/backups`, which is linked from
/// `/srv/data/backups`, says of the canonical form of a path.
fn canonical(files: &[String], path: &str) -> Canonical {
    match path.strip_prefix("/srv/data/backups") {
        Some("") => Canonical::Found(b"/disk/backups".to_vec()),
        Some(name) if files.iter().any(|f| format!("/{}", f) == name) => {
            Canonical::Found(format!("/disk/backups{}", name).into_bytes())
        }
        _ => Canonical::Missing,
    }
}

fn look_up(files: &[String], filename: &str) -> Result<ResolvedBackup, ApiError> {
    let lookup = resolve_backup_path(PathStyle::Posix, "/srv/data", &checked(filename, true))?;
    let reply = canonical(files, lookup.path());
    let lookup = lookup.on_canonical(reply)?;
    let reply = canonical(files, lookup.path());
    lookup.on_canonical(reply)
}

#[test]
fn every_listed_backup_is_found() {
    let files = vec!["b.db".to_string(), "a.db".to_string(), "ä.db".to_string()];
    let listed = list(&files);
    assert_eq!(listed, vec!["ä.db", "b.db", "a.db"]);
    for filename in listed {
        let backup = look_up(&files, &filename).ok().unwrap();
        assert_eq!(backup.path(), format!("/disk/backups/{}", filename).as_bytes());
        assert_eq!(backup.filename(), filename);
    }
}

#[test]
fn a_deleted_backup_is_not_found() {
    let mut files = vec!["b.db".to_string(), "a.db".to_string()];
    let backup = look_up(&files, "a.db").ok().unwrap();
    assert_eq!(delete_backup_file_route(&backup, Ok(())), Ok(204));
    files.pop();
    let download = look_up(&files, "a.db")
        .and_then(|backup| download_backup_file_route(&backup, Ok(())));
    assert_eq!(download, Err(ApiError::NotFound));
    let deletion = look_up(&files, "a.db")
        .and_then(|backup| delete_backup_file_route(&backup, Ok(())));
    assert_eq!(deletion, Err(ApiError::NotFound));
    assert_eq!(ApiError::NotFound.status(), 404);
    let other = look_up(&files, "b.db")
        .and_then(|backup| download_backup_file_route(&backup, Ok(())))
        .unwrap();
    assert_eq!(other.content_disposition, "attachment; filename=\"b.db\"");
}

#[test]
fn the_limit_is_per_address_and_on_restores_alone() {
    for route in router() {
        match route.limit {
            Some(limit) => {
                assert_eq!(route.endpoint, Endpoint::RestoreDatabase);
                assert_eq!(limit.key, LimitKey::PeerIp);
            }
            None => assert_ne!(route.endpoint, Endpoint::RestoreDatabase),
        }
    }
}

#[test]
fn the_limiter_lets_three_restores_through_at_once() {
    let limit = router().into_iter().find_map(|route| route.limit).unwrap();
    let config = GovernorConfigBuilder::default()
        .key_extractor(PeerIpKeyExtractor)
        .per_second(limit.period_secs)
        .burst_size(limit.burst)
        .finish()
        .unwrap();
    let pass = |peer: &str| config.limiter().check_key(&peer.parse().unwrap()).is_ok();
    let first: Vec<bool> = (0..4).map(|_| pass("192.0.2.1")).collect();
    assert_eq!(first, vec![true, true, true, false]);
    let other: Vec<bool> = (0..4).map(|_| pass("192.0.2.2")).collect();
    assert_eq!(other, vec![true, true, true, false]);
}

#[test]
fn a_request_over_the_limit_is_answered_with_429() {
    let refusal = GovernorError::TooManyRequests {
        wait_time: 20,
        headers: None,
    };
    assert_eq!(refusal.into_response().status().as_u16(), TOO_MANY_REQUESTS);
    assert_eq!(TOO_MANY_REQUESTS, 429);
}

#[test]
fn a_made_backup_can_be_restored() {
    let reply = BackupReply::Written("/srv/data/backups/a.db".to_string());
    let filename = backup_database_route(PathStyle::Posix, reply).unwrap();
    let made = confirm_backup(checked(&filename, true)).unwrap().filename;
    let backup = look_up(&["a.db".to_string()], &made).ok().unwrap();
    let swap = restore_database_route("/srv/data", &backup)
        .and_then(|copy| copy.on_backup(Ok("/srv/data/backups/s.db".to_string())))
        .ok()
        .unwrap();
    assert_eq!(swap.source(), "/disk/backups/a.db");
    let (response, restart) = swap.on_restored(Ok(())).ok().unwrap().finish(Some("FALSE"));
    assert_eq!(response.restored_from, "a.db");
    assert_eq!(response.safety_backup, "s.db");
    assert_eq!(response.restarting, false);
    assert!(restart.is_none());
    let files = vec!["a.db".to_string(), response.safety_backup];
    assert_eq!(list(&files), vec!["s.db", "a.db"]);
}

#[test]
fn the_server_restarts_unless_told_otherwise() {
    assert!(restart_on_restore_enabled(None));
    assert!(restart_on_restore_enabled(Some("")));
    assert!(restart_on_restore_enabled(Some("true")));
    assert!(restart_on_restore_enabled(Some("0")));
    assert!(restart_on_restore_enabled(Some(" false")));
    assert!(!restart_on_restore_enabled(Some("false")));
    assert!(!restart_on_restore_enabled(Some("FALSE")));
    assert!(!restart_on_restore_enabled(Some("False")));
}

#[test]
fn the_routes_are_mounted() {
    let routes: Vec<_> = router()
        .into_iter()
        .map(|r| (r.method, r.path, r.endpoint, r.limit))
        .collect();
    let limit = RateLimit {
        key: LimitKey::PeerIp,
        period_secs: 20,
        burst: 3,
    };
    let at = |path: &str| path.to_string();
    assert_eq!(
        routes,
        vec![
            (Method::Post, at("/utilities/database/backup"), Endpoint::BackupDatabase, None),
            (Method::Get, at("/utilities/database/backups"), Endpoint::ListBackupFiles, None),
            (
                Method::Get,
                at("/utilities/database/backups/{filename}/download"),
                Endpoint::DownloadBackupFile,
                None
            ),
            (
                Method::Delete,
                at("/utilities/database/backups/{filename}"),
                Endpoint::DeleteBackupFile,
                None
            ),
            (
                Method::Post,
                at("/utilities/database/restore"),
                Endpoint::RestoreDatabase,
                Some(limit)
            ),
        ]
    );
}
