//! Restoring the database from a backup.
//!
//! A restore has three steps. `restore_database_route` starts it and hands out the database of
//! which a safety copy is to be made. `SafetyCopy::on_backup` takes what came of that, and only
//! with a safety copy made hands out the restore itself. `Swap::on_restored` takes what came of
//! that. `Restored::finish` then gives the answer, and says whether the server is to restart.

use crate::error::{done, outcome, ApiError, ErrorView};
use crate::path::{file_name, file_name_of, law_file_name_is_one_name, within, PathStyle};
use crate::resolve::{ResolvedBackup, ResolvedBackupView};
use crate::spelling::{law_drive_file_name, law_posix_file_name, on_a_drive};
use crate::text::{eq_ignore_ascii_case, joined, same_but_case};
use vstd::prelude::*;
use vstd::utf8::{decode_utf8, encode_utf8, valid_utf8};

verus! {

/// How long the server goes on before it restarts, so that the answer is out by then.
pub const RESTART_DELAY_MILLIS: u64 = 500;

/// Reads bytes as text with `std::str::from_utf8`.
///
/// Trusted: there is a text if and only if the bytes are valid UTF-8, and the bytes are then the
/// UTF-8 form of the text.
#[verifier::external_body]
fn text_of(bytes: &[u8]) -> (text: Option<String>)
    ensures
        text is Some <==> valid_utf8(bytes@),
        text matches Some(text) ==> encode_utf8(text@) == bytes@,
{
    match std::str::from_utf8(bytes) {
        Ok(text) => Some(text.to_owned()),
        Err(_) => None,
    }
}

/// Whether the server restarts after a restore. It does, unless the setting is the word `false`,
/// in whatever case.
pub open spec fn restarts(setting: Option<Seq<char>>) -> bool {
    match setting {
        Some(value) => !same_but_case(value, "false"@),
        None => true,
    }
}

/// The contents of a setting.
pub open spec fn setting_view(setting: Option<&str>) -> Option<Seq<char>> {
    match setting {
        Some(value) => Some(value@),
        None => None,
    }
}

/// Whether the server restarts after a restore, so that whatever supervises it brings it up again
/// with the restored database. It does, unless the setting is `false`.
pub fn restart_on_restore_enabled(setting: Option<&str>) -> (r: bool)
    ensures
        r == restarts(setting_view(setting)),
        setting is None ==> r,
        setting matches Some(value) ==> r == restarts(Some(value@)),
{
    match setting {
        Some(value) => !eq_ignore_ascii_case(value, "false"),
        None => true,
    }
}

/// The answer to a request to restore the database.
#[derive(Debug, PartialEq, Eq)]
pub struct RestoreDatabaseResponse {
    /// The backup that the database was restored from.
    pub restored_from: String,
    /// The backup that was made of the database before that.
    pub safety_backup: String,
    /// Whether the server is about to restart.
    pub restarting: bool,
}

/// The contents of a `RestoreDatabaseResponse`.
pub struct RestoreDatabaseView {
    pub restored_from: Seq<char>,
    pub safety_backup: Seq<char>,
    pub restarting: bool,
}

impl View for RestoreDatabaseResponse {
    type V = RestoreDatabaseView;

    open spec fn view(&self) -> RestoreDatabaseView {
        RestoreDatabaseView {
            restored_from: self.restored_from@,
            safety_backup: self.safety_backup@,
            restarting: self.restarting,
        }
    }
}

/// A restart of the server.
#[derive(Debug, PartialEq, Eq)]
pub struct Restart {
    pub delay_millis: u64,
    pub exit_code: i32,
}

/// A restore that waits for a safety copy of the database.
pub struct SafetyCopy {
    style: PathStyle,
    data_root: String,
    source: String,
    filename: String,
}

/// The contents of a `SafetyCopy`.
pub struct SafetyCopyView {
    /// The syntax of paths.
    pub style: PathStyle,
    /// The directory of the database.
    pub data_root: Seq<char>,
    /// The path of the backup to restore from.
    pub source: Seq<char>,
    /// The name of that backup.
    pub filename: Seq<char>,
}

impl View for SafetyCopy {
    type V = SafetyCopyView;

    closed spec fn view(&self) -> SafetyCopyView {
        SafetyCopyView {
            style: self.style,
            data_root: self.data_root@,
            source: self.source@,
            filename: self.filename@,
        }
    }
}

/// A restore that has its safety copy and waits for the database to be replaced.
pub struct Swap {
    style: PathStyle,
    data_root: String,
    source: String,
    filename: String,
    safety: String,
}

/// The contents of a `Swap`.
pub struct SwapView {
    /// The syntax of paths.
    pub style: PathStyle,
    /// The directory of the database.
    pub data_root: Seq<char>,
    /// The path of the backup to restore from.
    pub source: Seq<char>,
    /// The name of that backup.
    pub filename: Seq<char>,
    /// The path of the safety copy.
    pub safety: Seq<char>,
}

impl View for Swap {
    type V = SwapView;

    closed spec fn view(&self) -> SwapView {
        SwapView {
            style: self.style,
            data_root: self.data_root@,
            source: self.source@,
            filename: self.filename@,
            safety: self.safety@,
        }
    }
}

/// A restore that is done.
pub struct Restored {
    filename: String,
    safety_backup: String,
}

/// The contents of a `Restored`.
pub struct RestoredView {
    /// The name of the backup that was restored from.
    pub filename: Seq<char>,
    /// The file name of the safety copy.
    pub safety_backup: Seq<char>,
}

impl View for Restored {
    type V = RestoredView;

    closed spec fn view(&self) -> RestoredView {
        RestoredView { filename: self.filename@, safety_backup: self.safety_backup@ }
    }
}

/// How a restore from the backup `target` starts.
pub open spec fn restore_started(data_root: Seq<char>, target: ResolvedBackupView) -> Result<
    SafetyCopyView,
    ErrorView,
> {
    if valid_utf8(target.path) {
        Ok(
            SafetyCopyView {
                style: target.style,
                data_root,
                source: decode_utf8(target.path),
                filename: target.filename,
            },
        )
    } else {
        Err(ErrorView::Internal("Backup path is not valid UTF-8"@))
    }
}

/// The contents of what the storage layer replies: the path of a backup, or an error message.
pub open spec fn reply_view(reply: Result<String, String>) -> Result<Seq<char>, Seq<char>> {
    match reply {
        Ok(path) => Ok(path@),
        Err(message) => Err(message@),
    }
}

/// How a restore goes on from what came of the safety copy.
pub open spec fn backup_answered(copy: SafetyCopyView, reply: Result<Seq<char>, Seq<char>>) -> Result<
    SwapView,
    ErrorView,
> {
    match reply {
        Ok(safety) => Ok(
            SwapView {
                style: copy.style,
                data_root: copy.data_root,
                source: copy.source,
                filename: copy.filename,
                safety,
            },
        ),
        Err(message) => Err(
            ErrorView::Internal("Failed to create pre-restore backup: "@ + message),
        ),
    }
}

/// How a restore goes on from what came of replacing the database.
pub open spec fn restore_answered(swap: SwapView, reply: Result<(), Seq<char>>) -> Result<
    RestoredView,
    ErrorView,
> {
    match reply {
        Ok(()) => Ok(
            RestoredView {
                filename: swap.filename,
                safety_backup: match file_name(swap.style, swap.safety) {
                    Some(name) => name,
                    None => Seq::empty(),
                },
            },
        ),
        Err(message) => Err(ErrorView::Internal("Failed to restore database: "@ + message)),
    }
}

/// The answer where a restore is done.
pub open spec fn finished(restored: RestoredView, setting: Option<Seq<char>>) -> RestoreDatabaseView {
    RestoreDatabaseView {
        restored_from: restored.filename,
        safety_backup: restored.safety_backup,
        restarting: restarts(setting),
    }
}

/// Starts the restore of the database in `data_root` from the backup `target`. The path to restore
/// from lies in the backup directory.
pub fn restore_database_route(data_root: &str, target: &ResolvedBackup) -> (r: Result<
    SafetyCopy,
    ApiError,
>)
    ensures
        outcome(r) == restore_started(data_root@, target@),
        r is Ok <==> valid_utf8(target@.path),
        r matches Ok(copy) ==> copy@.style == target@.style && copy@.data_root == data_root@
            && encode_utf8(copy@.source) == target@.path && copy@.filename == target@.filename,
        r matches Err(error) ==> (error matches ApiError::Internal(message) && message@
            == "Backup path is not valid UTF-8"@),
        r matches Ok(copy) ==> within(
            target@.style,
            target@.canonical_dir,
            encode_utf8(copy@.source),
        ),
{
    match text_of(target.path()) {
        Some(source) => {
            proof {
                vstd::utf8::encode_utf8_decode_utf8(source@);
            }
            Ok(
                SafetyCopy {
                    style: target.style(),
                    data_root: data_root.to_owned(),
                    source,
                    filename: target.filename().to_owned(),
                },
            )
        },
        None => Err(ApiError::Internal("Backup path is not valid UTF-8".to_owned())),
    }
}

/// The answer where the work of a restore was broken off.
pub fn restore_broken_off(reason: &str) -> (error: ApiError)
    ensures
        error@ == ErrorView::Failure("Failed to execute restore task: "@ + reason@),
        error matches ApiError::Failure(message) && message@ == "Failed to execute restore task: "@
            + reason@,
{
    ApiError::Failure(joined("Failed to execute restore task: ", reason))
}

impl SafetyCopy {
    /// The directory of the database of which a copy is to be made.
    pub fn data_root(&self) -> (data_root: &str)
        ensures
            data_root@ == self@.data_root,
    {
        self.data_root.as_str()
    }

    /// Goes on with what came of the copy: its path, or an error message.
    pub fn on_backup(self, reply: Result<String, String>) -> (r: Result<Swap, ApiError>)
        ensures
            outcome(r) == backup_answered(self@, reply_view(reply)),
            match reply {
                Ok(safety) => r matches Ok(swap) && swap@ == (SwapView {
                    style: self@.style,
                    data_root: self@.data_root,
                    source: self@.source,
                    filename: self@.filename,
                    safety: safety@,
                }),
                Err(said) => r matches Err(ApiError::Internal(message)) && message@
                    == "Failed to create pre-restore backup: "@ + said@,
            },
    {
        match reply {
            Ok(safety) => Ok(
                Swap {
                    style: self.style,
                    data_root: self.data_root,
                    source: self.source,
                    filename: self.filename,
                    safety,
                },
            ),
            Err(message) => Err(
                ApiError::Internal(
                    joined("Failed to create pre-restore backup: ", message.as_str()),
                ),
            ),
        }
    }
}

impl Swap {
    /// The directory of the database that is to be replaced.
    pub fn data_root(&self) -> (data_root: &str)
        ensures
            data_root@ == self@.data_root,
    {
        self.data_root.as_str()
    }

    /// The path of the backup that is to take its place.
    pub fn source(&self) -> (source: &str)
        ensures
            source@ == self@.source,
    {
        self.source.as_str()
    }

    /// Goes on with what came of replacing the database.
    pub fn on_restored(self, reply: Result<(), String>) -> (r: Result<Restored, ApiError>)
        ensures
            outcome(r) == restore_answered(self@, done(reply)),
            match reply {
                Ok(()) => r matches Ok(restored) && restored@.filename == self@.filename
                    && match file_name(self@.style, self@.safety) {
                    Some(name) => restored@.safety_backup == name,
                    None => restored@.safety_backup.len() == 0,
                },
                Err(said) => r matches Err(ApiError::Internal(message)) && message@
                    == "Failed to restore database: "@ + said@,
            },
    {
        match reply {
            Ok(()) => {
                let safety_backup = match file_name_of(self.style, self.safety.as_str()) {
                    Some(name) => name,
                    None => String::new(),
                };
                Ok(Restored { filename: self.filename, safety_backup })
            },
            Err(message) => Err(
                ApiError::Internal(joined("Failed to restore database: ", message.as_str())),
            ),
        }
    }
}

impl Restored {
    /// The answer, and the restart where one is due.
    pub fn finish(self, setting: Option<&str>) -> (r: (RestoreDatabaseResponse, Option<Restart>))
        ensures
            r.0@ == finished(self@, setting_view(setting)),
            r.0.restored_from@ == self@.filename,
            r.0.safety_backup@ == self@.safety_backup,
            setting is None ==> r.0.restarting,
            setting matches Some(value) ==> r.0.restarting == restarts(Some(value@)),
            r.1 is Some <==> r.0.restarting,
            r.1 matches Some(restart) ==> restart.delay_millis == 500 && restart.exit_code == 0,
            r.1 == if restarts(setting_view(setting)) {
                Some(Restart { delay_millis: RESTART_DELAY_MILLIS, exit_code: 0 })
            } else {
                None
            },
    {
        let restarting = restart_on_restore_enabled(setting);
        let response = RestoreDatabaseResponse {
            restored_from: self.filename,
            safety_backup: self.safety_backup,
            restarting,
        };
        if restarting {
            (response, Some(Restart { delay_millis: RESTART_DELAY_MILLIS, exit_code: 0 }))
        } else {
            (response, None)
        }
    }
}

/// A whole restore of the database in `data_root` from the backup `target`, on what the storage
/// layer replies to the safety copy and to the replacement.
pub open spec fn restoration(
    data_root: Seq<char>,
    target: ResolvedBackupView,
    backup_reply: Result<Seq<char>, Seq<char>>,
    restore_reply: Result<(), Seq<char>>,
) -> Result<RestoredView, ErrorView> {
    match restore_started(data_root, target) {
        Err(error) => Err(error),
        Ok(copy) => match backup_answered(copy, backup_reply) {
            Err(error) => Err(error),
            Ok(swap) => restore_answered(swap, restore_reply),
        },
    }
}

/// The database is replaced only where a safety copy was made, and then from the file of the
/// backup that was asked for; without a safety copy the answer does not depend on what replacing
/// the database would give.
pub proof fn law_safety_copy_comes_first(
    data_root: Seq<char>,
    target: ResolvedBackupView,
    backup_reply: Result<Seq<char>, Seq<char>>,
    one: Result<(), Seq<char>>,
    other: Result<(), Seq<char>>,
)
    ensures
        restore_started(data_root, target) matches Ok(copy) ==> (backup_answered(
            copy,
            backup_reply,
        ) is Ok <==> backup_reply is Ok),
        restore_started(data_root, target) matches Ok(copy) ==> (backup_answered(
            copy,
            backup_reply,
        ) matches Ok(swap) ==> {
            &&& swap.style == target.style
            &&& swap.data_root == data_root
            &&& encode_utf8(swap.source) == target.path
            &&& swap.filename == target.filename
            &&& backup_reply == Ok::<Seq<char>, Seq<char>>(swap.safety)
        }),
        backup_reply is Err ==> restoration(data_root, target, backup_reply, one) == restoration(
            data_root,
            target,
            backup_reply,
            other,
        ),
{
    if valid_utf8(target.path) {
        vstd::utf8::decode_utf8_encode_utf8(target.path);
    }
}

/// A restore succeeds if and only if the path of the backup is text, a safety copy was made and
/// the database was replaced; it then names the backup that was asked for, and the safety copy by
/// its file name, which is not empty where the path of the copy has one.
pub proof fn law_restoration_succeeds(
    data_root: Seq<char>,
    target: ResolvedBackupView,
    backup_reply: Result<Seq<char>, Seq<char>>,
    restore_reply: Result<(), Seq<char>>,
)
    ensures
        restoration(data_root, target, backup_reply, restore_reply) is Ok <==> valid_utf8(
            target.path,
        ) && backup_reply is Ok && restore_reply is Ok,
        restoration(data_root, target, backup_reply, restore_reply) matches Ok(restored) ==> {
            &&& restored.filename == target.filename
            &&& backup_reply matches Ok(safety) && (file_name(target.style, safety) matches Some(
                name,
            ) ==> restored.safety_backup == name && restored.safety_backup.len() > 0)
        },
{
    if let Ok(safety) = backup_reply {
        law_file_name_is_one_name(target.style, safety);
    }
}

/// The server does not restart after a restore if and only if the setting is there and is spelled
/// `f`, `a`, `l`, `s`, `e`, each letter in upper or in lower case.
pub proof fn law_only_false_prevents_a_restart(value: Seq<char>)
    ensures
        restarts(None),
        restarts(Some(value)) <==> !(value.len() == 5 && (value[0] == 'f' || value[0] == 'F') && (
        value[1] == 'a' || value[1] == 'A') && (value[2] == 'l' || value[2] == 'L') && (value[3]
            == 's' || value[3] == 'S') && (value[4] == 'e' || value[4] == 'E')),
{
    reveal_strlit("false");
    let word = "false"@;
    assert(word.len() == 5 && word[0] == 'f' && word[1] == 'a' && word[2] == 'l' && word[3] == 's'
        && word[4] == 'e');
    if same_but_case(value, word) {
        assert(value[0] == 'f' || value[0] == 'F');
        assert(value[1] == 'a' || value[1] == 'A');
        assert(value[2] == 'l' || value[2] == 'L');
        assert(value[3] == 's' || value[3] == 'S');
        assert(value[4] == 'e' || value[4] == 'E');
    }
}

/// What a restore is answered with. A path that is not text is refused before anything is done; a
/// safety copy that fails, and a replacement that fails, are reported with what the storage layer
/// said; and a restore that is done has the name that was asked for. No two reasons are reported
/// alike, and no name or reason is cut.
pub proof fn law_restore_is_reported(
    data_root: Seq<char>,
    target: ResolvedBackupView,
    safety: Seq<char>,
    message: Seq<char>,
    backup_reply: Result<Seq<char>, Seq<char>>,
    restore_reply: Result<(), Seq<char>>,
    setting: Option<Seq<char>>,
)
    ensures
        !valid_utf8(target.path) ==> restoration(data_root, target, backup_reply, restore_reply)
            == Err::<RestoredView, ErrorView>(
            ErrorView::Internal("Backup path is not valid UTF-8"@),
        ),
        valid_utf8(target.path) ==> {
            &&& restoration(data_root, target, Err(message), restore_reply) == Err::<
                RestoredView,
                ErrorView,
            >(ErrorView::Internal("Failed to create pre-restore backup: "@ + message))
            &&& restoration(data_root, target, Ok(safety), Err(message)) == Err::<
                RestoredView,
                ErrorView,
            >(ErrorView::Internal("Failed to restore database: "@ + message))
            &&& restoration(data_root, target, Ok(safety), Ok(())) matches Ok(restored) && {
                &&& restored.filename == target.filename
                &&& finished(restored, setting).restored_from == target.filename
                &&& finished(restored, setting).safety_backup == restored.safety_backup
                &&& finished(restored, setting).restarting == restarts(setting)
            }
        },
{
}

/// The safety copy is answered by what follows the last `/` of its POSIX path, whole, and on a
/// Windows drive by what follows the last separator.
pub proof fn law_safety_copy_is_named(
    data_root: Seq<char>,
    target: ResolvedBackupView,
    dir: Seq<char>,
    separator: char,
    name: Seq<char>,
)
    requires
        valid_utf8(target.path),
        name.len() > 0,
        name != seq!['.'],
        name != seq!['.', '.'],
        forall|i: int|
            0 <= i < name.len() ==> #[trigger] name[i] != '/' && (target.style
                == PathStyle::Windows ==> name[i] != '\\'),
        match target.style {
            PathStyle::Posix => separator == '/',
            PathStyle::Windows => (separator == '/' || separator == '\\') && on_a_drive(dir),
        },
    ensures
        restoration(data_root, target, Ok(dir.push(separator) + name), Ok(())) matches Ok(restored)
            && restored.safety_backup == name,
{
    match target.style {
        PathStyle::Posix => law_posix_file_name(dir, name),
        PathStyle::Windows => law_drive_file_name(dir, separator, name),
    }
}

} // verus!
