//! Making a backup.

use crate::error::{outcome, ApiError, ErrorView};
use crate::join::{join, joins_below, law_join_adds_one_part};
use crate::path::{
    file_name, file_name_of, law_file_name_is_one_name, one_name, plain_name, separators, PathStyle,
};
use crate::resolve::{
    dir_answered, started, CanonicalView, CheckedName, DirLookupView, FileLookupView,
};
use crate::spelling::{law_drive_file_name, law_posix_file_name, on_a_drive};
use crate::text::joined;
use vstd::prelude::*;

verus! {

/// What came of asking the storage layer for a backup.
#[derive(Debug, PartialEq, Eq)]
pub enum BackupReply {
    /// The backup was written to this path.
    Written(String),
    /// The storage layer failed, with this message.
    Refused(String),
    /// The work was broken off, for the reason given.
    BrokenOff(String),
}

/// The contents of a `BackupReply`.
pub enum BackupReplyView {
    Written(Seq<char>),
    Refused(Seq<char>),
    BrokenOff(Seq<char>),
}

impl View for BackupReply {
    type V = BackupReplyView;

    open spec fn view(&self) -> BackupReplyView {
        match self {
            BackupReply::Written(path) => BackupReplyView::Written(path@),
            BackupReply::Refused(message) => BackupReplyView::Refused(message@),
            BackupReply::BrokenOff(reason) => BackupReplyView::BrokenOff(reason@),
        }
    }
}

/// The answer to a request for a backup.
#[derive(Debug, PartialEq, Eq)]
pub struct BackupDatabaseResponse {
    pub filename: String,
}

/// The contents of a `BackupDatabaseResponse`.
pub struct BackupDatabaseView {
    pub filename: Seq<char>,
}

impl View for BackupDatabaseResponse {
    type V = BackupDatabaseView;

    open spec fn view(&self) -> BackupDatabaseView {
        BackupDatabaseView { filename: self.filename@ }
    }
}

/// The file name of a backup that was asked for.
pub open spec fn written_as(style: PathStyle, reply: BackupReplyView) -> Result<
    Seq<char>,
    ErrorView,
> {
    match reply {
        BackupReplyView::Written(path) => match file_name(style, path) {
            Some(filename) => Ok(filename),
            None => Err(ErrorView::Failure("Invalid backup filename"@)),
        },
        BackupReplyView::Refused(message) => Err(ErrorView::Storage(message)),
        BackupReplyView::BrokenOff(reason) => Err(
            ErrorView::Failure("Failed to execute backup task: "@ + reason),
        ),
    }
}

/// The answer where a backup was written under that name.
pub open spec fn confirmed(filename: Seq<char>, valid: bool) -> Result<
    BackupDatabaseView,
    ErrorView,
> {
    if valid {
        Ok(BackupDatabaseView { filename })
    } else {
        Err(ErrorView::Internal("Backup service returned an invalid filename"@))
    }
}

/// The answer to a request for a backup, on what the storage layer replies and its verdict on each
/// name.
pub open spec fn backed_up(
    style: PathStyle,
    reply: BackupReplyView,
    verdict: spec_fn(Seq<char>) -> bool,
) -> Result<BackupDatabaseView, ErrorView> {
    match written_as(style, reply) {
        Ok(filename) => confirmed(filename, verdict(filename)),
        Err(error) => Err(error),
    }
}

/// The file name of the backup, with what came of asking the storage layer for it.
pub fn backup_database_route(style: PathStyle, reply: BackupReply) -> (r: Result<String, ApiError>)
    ensures
        outcome(r) == written_as(style, reply@),
        match reply {
            BackupReply::Written(path) => match file_name(style, path@) {
                Some(name) => r matches Ok(filename) && filename@ == name,
                None => r matches Err(ApiError::Failure(message)) && message@
                    == "Invalid backup filename"@,
            },
            BackupReply::Refused(said) => r matches Err(ApiError::Storage(message)) && message@
                == said@,
            BackupReply::BrokenOff(reason) => r matches Err(ApiError::Failure(message)) && message@
                == "Failed to execute backup task: "@ + reason@,
        },
{
    match reply {
        BackupReply::Written(path) => match file_name_of(style, path.as_str()) {
            Some(filename) => Ok(filename),
            None => Err(ApiError::Failure("Invalid backup filename".to_owned())),
        },
        BackupReply::Refused(message) => Err(ApiError::Storage(message)),
        BackupReply::BrokenOff(reason) => Err(
            ApiError::Failure(joined("Failed to execute backup task: ", reason.as_str())),
        ),
    }
}

/// The answer where a backup was written under `name`.
pub fn confirm_backup(name: CheckedName) -> (r: Result<BackupDatabaseResponse, ApiError>)
    ensures
        outcome(r) == confirmed(name.filename@, name.valid),
        name.valid ==> (r matches Ok(response) && response.filename@ == name.filename@),
        !name.valid ==> (r matches Err(ApiError::Internal(message)) && message@
            == "Backup service returned an invalid filename"@),
{
    if !name.valid {
        return Err(
            ApiError::Internal("Backup service returned an invalid filename".to_owned()),
        );
    }
    Ok(BackupDatabaseResponse { filename: name.filename })
}

/// A backup that is written to the backup directory is answered with the name under which it was
/// written, and looking that name up asks the file system for the file that was written.
pub proof fn law_backup_can_be_looked_up(
    style: PathStyle,
    data_root: Seq<char>,
    name: Seq<char>,
    canonical_dir: Seq<u8>,
)
    requires
        plain_name(style, name),
        style == PathStyle::Windows ==> joins_below(
            style,
            join(style, data_root, "backups"@),
            name,
        ),
    ensures
        ({
            let dir = join(style, data_root, "backups"@);
            let path = join(style, dir, name);
            let lookup = DirLookupView { style, dir, filename: name };
            &&& written_as(style, BackupReplyView::Written(path)) == Ok::<Seq<char>, ErrorView>(
                name,
            )
            &&& confirmed(name, true) == Ok::<BackupDatabaseView, ErrorView>(
                BackupDatabaseView { filename: name },
            )
            &&& started(style, data_root, name, true) == Ok::<DirLookupView, ErrorView>(lookup)
            &&& dir_answered(lookup, CanonicalView::Found(canonical_dir)) == Ok::<
                FileLookupView,
                ErrorView,
            >(FileLookupView { style, canonical_dir, requested: path, filename: name })
        }),
{
    law_join_adds_one_part(style, join(style, data_root, "backups"@), name);
}

/// The name that a backup is answered with is one name between the separators of the path that
/// the storage layer gave, and so is never empty.
pub proof fn law_backup_has_one_name(style: PathStyle, path: Seq<char>)
    ensures
        written_as(style, BackupReplyView::Written(path)) matches Ok(filename) ==> one_name(
            separators(style, path),
            filename,
        ),
{
    law_file_name_is_one_name(style, path);
}

/// What a request for a backup is answered with: the name that the storage layer wrote the backup
/// under, if the path has one and it is valid; else what went wrong, in the words of whoever said
/// so.
pub proof fn law_backup_is_answered(
    style: PathStyle,
    path: Seq<char>,
    text: Seq<char>,
    verdict: spec_fn(Seq<char>) -> bool,
)
    ensures
        backed_up(style, BackupReplyView::Refused(text), verdict) == Err::<
            BackupDatabaseView,
            ErrorView,
        >(ErrorView::Storage(text)),
        backed_up(style, BackupReplyView::BrokenOff(text), verdict) == Err::<
            BackupDatabaseView,
            ErrorView,
        >(ErrorView::Failure("Failed to execute backup task: "@ + text)),
        written_as(style, BackupReplyView::Written(path)) matches Ok(name) ==> (backed_up(
            style,
            BackupReplyView::Written(path),
            verdict,
        ) == if verdict(name) {
            Ok::<BackupDatabaseView, ErrorView>(BackupDatabaseView { filename: name })
        } else {
            Err(ErrorView::Internal("Backup service returned an invalid filename"@))
        }),
        written_as(style, BackupReplyView::Written(path)) matches Err(error) ==> error
            == ErrorView::Failure("Invalid backup filename"@),
{
}

/// A backup is answered by what follows the last `/` of its POSIX path, whole, and on a Windows
/// drive by what follows the last separator; a path that ends with `..` has no such name.
pub proof fn law_backup_is_named(
    style: PathStyle,
    dir: Seq<char>,
    separator: char,
    name: Seq<char>,
)
    requires
        name.len() > 0,
        name != seq!['.'],
        forall|i: int|
            0 <= i < name.len() ==> #[trigger] name[i] != '/' && (style == PathStyle::Windows
                ==> name[i] != '\\'),
        match style {
            PathStyle::Posix => separator == '/',
            PathStyle::Windows => (separator == '/' || separator == '\\') && on_a_drive(dir),
        },
    ensures
        written_as(style, BackupReplyView::Written(dir.push(separator) + name)) == if name == seq![
            '.',
            '.',
        ] {
            Err::<Seq<char>, ErrorView>(ErrorView::Failure("Invalid backup filename"@))
        } else {
            Ok(name)
        },
{
    match style {
        PathStyle::Posix => law_posix_file_name(dir, name),
        PathStyle::Windows => law_drive_file_name(dir, separator, name),
    }
}

} // verus!
