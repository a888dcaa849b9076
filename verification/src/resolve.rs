//! From the name of a backup to its file. The lookup goes through the file system, and what
//! comes out of it lies in the backup directory.
//!
//! The lookup has three steps. `resolve_backup_path` starts it and hands out the directory whose
//! canonical path is needed. `DirLookup::on_canonical` takes the answer and hands out the file
//! whose canonical path is needed. `FileLookup::on_canonical` takes that answer and hands out the
//! file. Each step may refuse the request instead.

use crate::error::{outcome, status_of, ApiError, ErrorView};
use crate::join::{backups_dir, join, join_text, joins_below, law_join_adds_one_part};
use crate::path::{plain_name, starts_with, within, PathStyle};
use crate::spelling::{
    law_posix_join_reads, law_posix_path_lies_below, law_windows_join_reads,
    law_windows_path_lies_below, on_a_drive, on_a_verbatim_drive, tidy,
};
use vstd::prelude::*;

verus! {

/// A file name, with the storage layer's verdict on whether it is the name of a backup.
#[derive(Debug, PartialEq, Eq)]
pub struct CheckedName {
    pub filename: String,
    pub valid: bool,
}

/// What the file system says of the canonical form of a path.
#[derive(Debug, PartialEq, Eq)]
pub enum Canonical {
    /// The canonical path, as raw bytes.
    Found(Vec<u8>),
    /// There is nothing at the path.
    Missing,
    /// The path could not be followed, for the reason given.
    Failed(String),
}

/// The contents of a `Canonical`.
pub enum CanonicalView {
    Found(Seq<u8>),
    Missing,
    Failed(Seq<char>),
}

impl View for Canonical {
    type V = CanonicalView;

    open spec fn view(&self) -> CanonicalView {
        match self {
            Canonical::Found(path) => CanonicalView::Found(path@),
            Canonical::Missing => CanonicalView::Missing,
            Canonical::Failed(reason) => CanonicalView::Failed(reason@),
        }
    }
}

/// A lookup that waits for the canonical path of the backup directory.
pub struct DirLookup {
    style: PathStyle,
    dir: String,
    filename: String,
}

/// The contents of a `DirLookup`.
pub struct DirLookupView {
    /// The syntax of paths.
    pub style: PathStyle,
    /// The path of the backup directory.
    pub dir: Seq<char>,
    /// The name that was asked for.
    pub filename: Seq<char>,
}

impl View for DirLookup {
    type V = DirLookupView;

    closed spec fn view(&self) -> DirLookupView {
        DirLookupView { style: self.style, dir: self.dir@, filename: self.filename@ }
    }
}

/// A lookup that waits for the canonical path of the backup file.
pub struct FileLookup {
    style: PathStyle,
    canonical_dir: Vec<u8>,
    requested: String,
    filename: String,
}

/// The contents of a `FileLookup`.
pub struct FileLookupView {
    /// The syntax of paths.
    pub style: PathStyle,
    /// The canonical path of the backup directory.
    pub canonical_dir: Seq<u8>,
    /// The path of the file in that directory.
    pub requested: Seq<char>,
    /// The name that was asked for.
    pub filename: Seq<char>,
}

impl View for FileLookup {
    type V = FileLookupView;

    closed spec fn view(&self) -> FileLookupView {
        FileLookupView {
            style: self.style,
            canonical_dir: self.canonical_dir@,
            requested: self.requested@,
            filename: self.filename@,
        }
    }
}

/// A backup file that was found in the backup directory.
pub struct ResolvedBackup {
    style: PathStyle,
    canonical_dir: Vec<u8>,
    path: Vec<u8>,
    filename: String,
}

/// The contents of a `ResolvedBackup`.
pub struct ResolvedBackupView {
    /// The syntax of paths.
    pub style: PathStyle,
    /// The canonical path of the backup directory.
    pub canonical_dir: Seq<u8>,
    /// The canonical path of the file.
    pub path: Seq<u8>,
    /// The name that was asked for.
    pub filename: Seq<char>,
}

impl View for ResolvedBackup {
    type V = ResolvedBackupView;

    closed spec fn view(&self) -> ResolvedBackupView {
        ResolvedBackupView {
            style: self.style,
            canonical_dir: self.canonical_dir@,
            path: self.path@,
            filename: self.filename@,
        }
    }
}

/// The answer to a name that is not that of a backup in the backup directory.
pub open spec fn invalid_filename() -> ErrorView {
    ErrorView::BadRequest("Invalid backup filename"@)
}

/// The answer where the backup directory cannot be reached.
pub open spec fn dir_failure(dir: Seq<char>, reason: Seq<char>) -> ErrorView {
    ErrorView::Failure("Failed to access backup directory "@ + dir + ": "@ + reason)
}

/// The answer where the backup file cannot be reached.
pub open spec fn file_failure(filename: Seq<char>, reason: Seq<char>) -> ErrorView {
    ErrorView::Failure("Backup file not found: "@ + filename + ": "@ + reason)
}

/// How a lookup starts.
pub open spec fn started(
    style: PathStyle,
    data_root: Seq<char>,
    filename: Seq<char>,
    valid: bool,
) -> Result<DirLookupView, ErrorView> {
    if valid {
        Ok(DirLookupView { style, dir: join(style, data_root, "backups"@), filename })
    } else {
        Err(invalid_filename())
    }
}

/// How a lookup goes on from what the file system says of the backup directory.
pub open spec fn dir_answered(lookup: DirLookupView, reply: CanonicalView) -> Result<
    FileLookupView,
    ErrorView,
> {
    match reply {
        CanonicalView::Found(canonical_dir) => Ok(
            FileLookupView {
                style: lookup.style,
                canonical_dir,
                requested: join(lookup.style, lookup.dir, lookup.filename),
                filename: lookup.filename,
            },
        ),
        CanonicalView::Missing => Err(ErrorView::NotFound),
        CanonicalView::Failed(reason) => Err(dir_failure(lookup.dir, reason)),
    }
}

/// How a lookup ends with what the file system says of the backup file.
pub open spec fn file_answered(lookup: FileLookupView, reply: CanonicalView) -> Result<
    ResolvedBackupView,
    ErrorView,
> {
    match reply {
        CanonicalView::Found(path) => if within(lookup.style, lookup.canonical_dir, path) {
            Ok(
                ResolvedBackupView {
                    style: lookup.style,
                    canonical_dir: lookup.canonical_dir,
                    path,
                    filename: lookup.filename,
                },
            )
        } else {
            Err(invalid_filename())
        },
        CanonicalView::Missing => Err(ErrorView::NotFound),
        CanonicalView::Failed(reason) => Err(file_failure(lookup.filename, reason)),
    }
}

/// Starts the lookup of the backup `name` below `data_root`, on a platform with that syntax of
/// paths.
pub fn resolve_backup_path(style: PathStyle, data_root: &str, name: &CheckedName) -> (r: Result<
    DirLookup,
    ApiError,
>)
    ensures
        outcome(r) == started(style, data_root@, name.filename@, name.valid),
        name.valid ==> (r matches Ok(lookup) && lookup@ == (DirLookupView {
            style,
            dir: join(style, data_root@, "backups"@),
            filename: name.filename@,
        })),
        !name.valid ==> (r matches Err(ApiError::BadRequest(message)) && message@
            == "Invalid backup filename"@),
{
    if !name.valid {
        return Err(ApiError::BadRequest("Invalid backup filename".to_owned()));
    }
    Ok(DirLookup { style, dir: backups_dir(style, data_root), filename: name.filename.clone() })
}

impl DirLookup {
    /// The path of the backup directory.
    pub fn path(&self) -> (path: &str)
        ensures
            path@ == self@.dir,
    {
        self.dir.as_str()
    }

    /// Goes on with what the file system says of the backup directory.
    pub fn on_canonical(self, reply: Canonical) -> (r: Result<FileLookup, ApiError>)
        ensures
            outcome(r) == dir_answered(self@, reply@),
            match reply {
                Canonical::Found(dir) => r matches Ok(lookup) && lookup@ == (FileLookupView {
                    style: self@.style,
                    canonical_dir: dir@,
                    requested: join(self@.style, self@.dir, self@.filename),
                    filename: self@.filename,
                }),
                Canonical::Missing => r matches Err(error) && error is NotFound,
                Canonical::Failed(reason) => r matches Err(ApiError::Failure(message)) && message@
                    == "Failed to access backup directory "@ + self@.dir + ": "@ + reason@,
            },
    {
        match reply {
            Canonical::Found(canonical_dir) => {
                let requested = join_text(self.style, self.dir.as_str(), self.filename.as_str());
                Ok(
                    FileLookup {
                        style: self.style,
                        canonical_dir,
                        requested,
                        filename: self.filename,
                    },
                )
            },
            Canonical::Missing => Err(ApiError::NotFound),
            Canonical::Failed(reason) => {
                let mut message = "Failed to access backup directory ".to_owned();
                message.append(self.dir.as_str());
                message.append(": ");
                message.append(reason.as_str());
                Err(ApiError::Failure(message))
            },
        }
    }
}

impl FileLookup {
    /// The path of the backup file.
    pub fn path(&self) -> (path: &str)
        ensures
            path@ == self@.requested,
    {
        self.requested.as_str()
    }

    /// Ends the lookup with what the file system says of the backup file.
    pub fn on_canonical(self, reply: Canonical) -> (r: Result<ResolvedBackup, ApiError>)
        ensures
            outcome(r) == file_answered(self@, reply@),
            match reply {
                Canonical::Found(path) => if within(self@.style, self@.canonical_dir, path@) {
                    r matches Ok(target) && target@ == (ResolvedBackupView {
                        style: self@.style,
                        canonical_dir: self@.canonical_dir,
                        path: path@,
                        filename: self@.filename,
                    })
                } else {
                    r matches Err(ApiError::BadRequest(message)) && message@
                        == "Invalid backup filename"@
                },
                Canonical::Missing => r matches Err(error) && error is NotFound,
                Canonical::Failed(reason) => r matches Err(ApiError::Failure(message)) && message@
                    == "Backup file not found: "@ + self@.filename + ": "@ + reason@,
            },
    {
        match reply {
            Canonical::Found(path) => {
                if !starts_with(self.style, path.as_slice(), self.canonical_dir.as_slice()) {
                    return Err(ApiError::BadRequest("Invalid backup filename".to_owned()));
                }
                Ok(
                    ResolvedBackup {
                        style: self.style,
                        canonical_dir: self.canonical_dir,
                        path,
                        filename: self.filename,
                    },
                )
            },
            Canonical::Missing => Err(ApiError::NotFound),
            Canonical::Failed(reason) => {
                let mut message = "Backup file not found: ".to_owned();
                message.append(self.filename.as_str());
                message.append(": ");
                message.append(reason.as_str());
                Err(ApiError::Failure(message))
            },
        }
    }
}

impl ResolvedBackup {
    #[verifier::type_invariant]
    spec fn in_backup_dir(self) -> bool {
        within(self.style, self.canonical_dir@, self.path@)
    }

    /// The canonical path of the file, as raw bytes. It lies in the backup directory.
    pub fn path(&self) -> (path: &[u8])
        ensures
            path@ == self@.path,
            within(self@.style, self@.canonical_dir, path@),
    {
        proof {
            use_type_invariant(self);
        }
        self.path.as_slice()
    }

    /// The syntax of paths.
    pub fn style(&self) -> (style: PathStyle)
        ensures
            style == self@.style,
    {
        self.style
    }

    /// The name that was asked for.
    pub fn filename(&self) -> (filename: &str)
        ensures
            filename@ == self@.filename,
    {
        self.filename.as_str()
    }
}

/// The whole lookup of the backup `filename` below `data_root`, on what the storage layer says
/// of the name and the file system says of the backup directory and the file.
pub open spec fn resolution(
    style: PathStyle,
    data_root: Seq<char>,
    filename: Seq<char>,
    valid: bool,
    dir_reply: CanonicalView,
    file_reply: CanonicalView,
) -> Result<ResolvedBackupView, ErrorView> {
    match started(style, data_root, filename, valid) {
        Err(error) => Err(error),
        Ok(lookup) => match dir_answered(lookup, dir_reply) {
            Err(error) => Err(error),
            Ok(lookup) => file_answered(lookup, file_reply),
        },
    }
}

/// A lookup succeeds if and only if the name is that of a backup, the directory and the file are
/// both found, and the file lies in the directory; it then gives the file that was found.
pub proof fn law_resolution_succeeds(
    style: PathStyle,
    data_root: Seq<char>,
    filename: Seq<char>,
    valid: bool,
    dir_reply: CanonicalView,
    file_reply: CanonicalView,
)
    ensures
        resolution(style, data_root, filename, valid, dir_reply, file_reply) is Ok <==> valid && (
        dir_reply matches CanonicalView::Found(dir) && file_reply matches CanonicalView::Found(path)
            && within(style, dir, path)),
        resolution(style, data_root, filename, valid, dir_reply, file_reply) matches Ok(found) ==> {
            &&& dir_reply == CanonicalView::Found(found.canonical_dir)
            &&& file_reply == CanonicalView::Found(found.path)
            &&& within(style, found.canonical_dir, found.path)
            &&& found.filename == filename
            &&& found.style == style
        },
{
}

/// A bad request is the answer to a name that is not that of a backup, whatever is on disk, and
/// to a file outside the backup directory; and to nothing else. Its HTTP status is 400.
pub proof fn law_escape_is_refused(
    style: PathStyle,
    data_root: Seq<char>,
    filename: Seq<char>,
    valid: bool,
    dir_reply: CanonicalView,
    file_reply: CanonicalView,
)
    ensures
        resolution(style, data_root, filename, valid, dir_reply, file_reply) == Err::<
            ResolvedBackupView,
            ErrorView,
        >(invalid_filename()) <==> !valid || (dir_reply matches CanonicalView::Found(dir)
            && file_reply matches CanonicalView::Found(path) && !within(style, dir, path)),
        status_of(invalid_filename()) == 400,
{
}

/// A backup that is an entry of the backup directory itself is accepted.
pub proof fn law_backup_in_the_directory_is_accepted(
    style: PathStyle,
    data_root: Seq<char>,
    filename: Seq<char>,
    canonical_dir: Seq<u8>,
    entry: Seq<u8>,
)
    requires
        plain_name(style, entry),
        style == PathStyle::Windows ==> joins_below(style, canonical_dir, entry),
    ensures
        resolution(
            style,
            data_root,
            filename,
            true,
            CanonicalView::Found(canonical_dir),
            CanonicalView::Found(join(style, canonical_dir, entry)),
        ) == Ok::<ResolvedBackupView, ErrorView>(
            ResolvedBackupView {
                style,
                canonical_dir,
                path: join(style, canonical_dir, entry),
                filename,
            },
        ),
{
    law_join_adds_one_part(style, canonical_dir, entry);
}

/// A lookup of a valid name answers that nothing was found if and only if the directory is
/// missing, or it is there and the file is missing.
pub proof fn law_missing_is_not_found(
    style: PathStyle,
    data_root: Seq<char>,
    filename: Seq<char>,
    dir_reply: CanonicalView,
    file_reply: CanonicalView,
)
    ensures
        resolution(style, data_root, filename, true, dir_reply, file_reply) == Err::<
            ResolvedBackupView,
            ErrorView,
        >(ErrorView::NotFound) <==> dir_reply is Missing || (dir_reply is Found
            && file_reply is Missing),
{
}

/// What a lookup that fails is answered with, and what it asks the file system before that. The
/// answer depends on the replies and holds the names and the reasons whole.
pub proof fn law_lookup_is_answered(
    style: PathStyle,
    data_root: Seq<char>,
    filename: Seq<char>,
    reason: Seq<char>,
    dir: Seq<u8>,
    path: Seq<u8>,
    reply: CanonicalView,
)
    ensures
        resolution(style, data_root, filename, false, reply, CanonicalView::Found(path)) == Err::<
            ResolvedBackupView,
            ErrorView,
        >(ErrorView::BadRequest("Invalid backup filename"@)),
        resolution(style, data_root, filename, true, CanonicalView::Missing, reply) == Err::<
            ResolvedBackupView,
            ErrorView,
        >(ErrorView::NotFound),
        resolution(style, data_root, filename, true, CanonicalView::Failed(reason), reply) == Err::<
            ResolvedBackupView,
            ErrorView,
        >(
            ErrorView::Failure(
                "Failed to access backup directory "@ + join(style, data_root, "backups"@) + ": "@
                    + reason,
            ),
        ),
        resolution(
            style,
            data_root,
            filename,
            true,
            CanonicalView::Found(dir),
            CanonicalView::Missing,
        ) == Err::<ResolvedBackupView, ErrorView>(ErrorView::NotFound),
        resolution(
            style,
            data_root,
            filename,
            true,
            CanonicalView::Found(dir),
            CanonicalView::Failed(reason),
        ) == Err::<ResolvedBackupView, ErrorView>(
            ErrorView::Failure("Backup file not found: "@ + filename + ": "@ + reason),
        ),
        resolution(
            style,
            data_root,
            filename,
            true,
            CanonicalView::Found(dir),
            CanonicalView::Found(path),
        ) matches Err(error) ==> error == ErrorView::BadRequest("Invalid backup filename"@),
        resolution(
            style,
            data_root,
            filename,
            true,
            CanonicalView::Found(dir),
            CanonicalView::Found(path),
        ) matches Ok(found) ==> found.path == path && found.canonical_dir == dir && found.filename
            == filename && found.style == style,
        started(style, data_root, filename, true) matches Ok(lookup) && {
            &&& lookup.dir == join(style, data_root, "backups"@)
            &&& dir_answered(lookup, CanonicalView::Found(dir)) matches Ok(lookup)
                && lookup.requested == join(style, join(style, data_root, "backups"@), filename)
        },
{
}

/// What a lookup asks for below an ordinary data directory: the directory `backups` in it, and the
/// file of that name in that. On POSIX the data directory is any that neither is empty nor ends
/// with a `/`, on Windows one on a drive that does not end with a separator.
pub proof fn law_lookup_asks_for_the_file(
    style: PathStyle,
    data_root: Seq<char>,
    filename: Seq<char>,
    dir: Seq<u8>,
)
    requires
        filename.len() > 0,
        forall|i: int|
            0 <= i < filename.len() ==> #[trigger] filename[i] != '/' && (style
                == PathStyle::Windows ==> filename[i] != '\\'),
        match style {
            PathStyle::Posix => data_root.len() > 0 && data_root.last() != '/',
            PathStyle::Windows => data_root.len() > 2 && on_a_drive(data_root) && data_root.last()
                != '/' && data_root.last() != '\\' && !on_a_drive(filename),
        },
    ensures
        ({
            let separator = match style {
                PathStyle::Posix => seq!['/'],
                PathStyle::Windows => seq!['\\'],
            };
            let asked = data_root + separator + "backups"@;
            &&& started(style, data_root, filename, true) matches Ok(lookup) && lookup.dir == asked
                && (dir_answered(lookup, CanonicalView::Found(dir)) matches Ok(lookup)
                && lookup.requested == asked + separator + filename)
        }),
{
    reveal_strlit("backups");
    let backups = "backups"@;
    let asked = join(style, data_root, backups);
    assert(backups[0] == 'b' && backups[1] == 'a');
    match style {
        PathStyle::Posix => {
            law_posix_join_reads(data_root, backups);
            assert(asked.last() == backups.last());
            law_posix_join_reads(asked, filename);
        },
        PathStyle::Windows => {
            law_windows_join_reads(data_root, backups);
            assert(asked[0] == data_root[0] && asked[1] == data_root[1]);
            assert(asked.last() == backups.last());
            law_windows_join_reads(asked, filename);
        },
    }
}

/// A file is accepted if and only if it lies in the backup directory, told by the bytes of the two
/// canonical POSIX paths: the path of the file starts with all of that of the directory and a `/`.
pub proof fn law_only_files_in_the_directory(
    data_root: Seq<char>,
    filename: Seq<char>,
    dir: Seq<u8>,
    path: Seq<u8>,
)
    requires
        dir.len() > 1,
        dir[0] == '/' as u8,
        tidy('/' as u8, dir.skip(1)),
        path.len() > 1,
        path[0] == '/' as u8,
        tidy('/' as u8, path.skip(1)),
        path != dir,
    ensures
        resolution(
            PathStyle::Posix,
            data_root,
            filename,
            true,
            CanonicalView::Found(dir),
            CanonicalView::Found(path),
        ) is Ok <==> dir.len() + 1 < path.len() && path.take(dir.len() as int) == dir
            && path[dir.len() as int] == '/' as u8,
{
    law_posix_path_lies_below(dir, path);
    if path.len() == dir.len() + 1 && path[dir.len() as int] == '/' as u8 {
        let names = path.skip(1);
        let last = names.len() as int;
        assert(names[last - 1] == '/' as u8);
        assert(names.subrange(last, last).len() == 0);
    }
}

/// A file is accepted on Windows, on a drive, if and only if the canonical paths are on the same
/// drive and what follows it in that of the file starts with all that follows it in that of the
/// directory and a `\`.
pub proof fn law_only_files_in_the_windows_directory(
    data_root: Seq<char>,
    filename: Seq<char>,
    dir: Seq<u8>,
    path: Seq<u8>,
)
    requires
        on_a_verbatim_drive(dir),
        on_a_verbatim_drive(path),
        dir.len() > 7,
        tidy('\\' as u8, dir.skip(7)),
        path.len() > 7,
        tidy('\\' as u8, path.skip(7)),
        path.skip(7) != dir.skip(7),
    ensures
        resolution(
            PathStyle::Windows,
            data_root,
            filename,
            true,
            CanonicalView::Found(dir),
            CanonicalView::Found(path),
        ) is Ok <==> (dir[4] == path[4] || dir[4] == path[4] + 32 || path[4] == dir[4] + 32)
            && dir.len() < path.len() && path.skip(7).take(dir.len() - 7) == dir.skip(7)
            && path[dir.len() as int] == '\\' as u8,
{
    law_windows_path_lies_below(dir, path);
}

} // verus!
