//! What holds from one request to the next, on one file system.

use crate::backup::{backed_up, BackupDatabaseView, BackupReplyView};
use crate::delete::{delete_answer, NO_CONTENT};
use crate::download::{download_answer, law_head_names_the_file, DownloadHeadView};
use crate::encoding::law_plain_name_survives_encoding;
use crate::error::{status_of, ErrorView};
use crate::join::{join, joins_below, law_join_adds_one_part};
use crate::listing::{
    law_order_keeps_the_files, law_scan_finds_every_backup, listed_as, lists_as, scanned,
    BackupFileView, EntryView, MetadataView,
};
use crate::path::{
    file_name, law_file_name_is_one_name, parts, plain_name, prefix, rooted, within, PathStyle,
    Prefix,
};
use crate::resolve::{
    law_backup_in_the_directory_is_accepted, law_missing_is_not_found, law_resolution_succeeds,
    resolution, CanonicalView, ResolvedBackupView,
};
use crate::restore::{finished, restarts, restoration, RestoreDatabaseView};
use vstd::prelude::*;
use vstd::utf8::{encode_utf8, valid_utf8};

verus! {

/// The canonical form of every path, as the file system gives it. Paths are bytes here.
pub struct FileSystem {
    pub canonical: spec_fn(Seq<u8>) -> CanonicalView,
}

impl FileSystem {
    /// What the file system says of a path that is text.
    pub open spec fn answer(self, path: Seq<char>) -> CanonicalView {
        (self.canonical)(encode_utf8(path))
    }

    /// Whether a canonical path is absolute, goes neither up nor in place, and is its own
    /// canonical form.
    pub open spec fn canonicalizes(self, style: PathStyle) -> bool {
        forall|path: Seq<u8>| #[trigger]
            (self.canonical)(path) matches CanonicalView::Found(found) ==> self.settled(
                style,
                found,
            )
    }

    /// Whether a path is absolute, goes neither up nor in place, and is its own canonical form.
    pub open spec fn settled(self, style: PathStyle, path: Seq<u8>) -> bool {
        &&& absolute(style, path)
        &&& straight(style, path)
        &&& (self.canonical)(path) == CanonicalView::Found(path)
    }

    /// Whether this is `before` without the file at the canonical path `removed`: what led to that
    /// file leads nowhere, and what led to something else still does.
    pub open spec fn lacks(self, before: FileSystem, removed: Seq<u8>) -> bool {
        forall|path: Seq<u8>| #[trigger]
            (before.canonical)(path) matches CanonicalView::Found(found) ==> (self.canonical)(path)
                == if found == removed {
                CanonicalView::Missing
            } else {
                CanonicalView::Found(found)
            }
    }
}

/// Whether a path says where it starts: at a root and, on Windows, of which drive, share or device.
pub open spec fn absolute(style: PathStyle, path: Seq<u8>) -> bool {
    match style {
        PathStyle::Posix => rooted(style, path),
        PathStyle::Windows => match prefix(style, path) {
            Some(Prefix::Disk(_)) => rooted(style, path),
            Some(_) => true,
            None => false,
        },
    }
}

/// Whether a path goes down by names only.
pub open spec fn straight(style: PathStyle, path: Seq<u8>) -> bool {
    forall|i: int|
        0 <= i < parts(style, path).len() ==> (#[trigger] parts(style, path)[i]) !is Up && parts(
            style,
            path,
        )[i] !is Here
}

/// A request for one backup: where the data is, and the name that was asked for with the storage
/// layer's verdict on it.
pub struct Request {
    pub style: PathStyle,
    pub data_root: Seq<char>,
    pub filename: Seq<char>,
    pub valid: bool,
}

impl Request {
    /// The path of the backup directory.
    pub open spec fn dir(self) -> Seq<char> {
        join(self.style, self.data_root, "backups"@)
    }

    /// The path of the backup.
    pub open spec fn file(self) -> Seq<char> {
        join(self.style, self.dir(), self.filename)
    }

    /// The lookup of the backup on the file system `fs`.
    pub open spec fn looked_up(self, fs: FileSystem) -> Result<ResolvedBackupView, ErrorView> {
        resolution(
            self.style,
            self.data_root,
            self.filename,
            self.valid,
            fs.answer(self.dir()),
            fs.answer(self.file()),
        )
    }

    /// The answer to a download on the file system `fs`, with what would come of opening the file.
    pub open spec fn downloaded(self, fs: FileSystem, opened: Result<(), Seq<char>>) -> Result<
        DownloadHeadView,
        ErrorView,
    > {
        match self.looked_up(fs) {
            Ok(target) => download_answer(target.filename, opened),
            Err(error) => Err(error),
        }
    }

    /// The answer to a deletion on the file system `fs`, with what would come of removing the
    /// file.
    pub open spec fn deleted(self, fs: FileSystem, removed: Result<(), Seq<char>>) -> Result<
        u16,
        ErrorView,
    > {
        match self.looked_up(fs) {
            Ok(target) => delete_answer(target.filename, removed),
            Err(error) => Err(error),
        }
    }

    /// The answer to a restore on the file system `fs`, with what would come of the safety copy and
    /// of replacing the database, both in the data directory of the lookup, and with the setting
    /// on restarts.
    pub open spec fn restored(
        self,
        fs: FileSystem,
        copied: Result<Seq<char>, Seq<char>>,
        swapped: Result<(), Seq<char>>,
        setting: Option<Seq<char>>,
    ) -> Result<RestoreDatabaseView, ErrorView> {
        match self.looked_up(fs) {
            Ok(target) => match restoration(self.data_root, target, copied, swapped) {
                Ok(restored) => Ok(finished(restored, setting)),
                Err(error) => Err(error),
            },
            Err(error) => Err(error),
        }
    }
}

/// What a lookup gives is settled: an absolute path that goes neither up nor in place, is its own
/// canonical form and lies in the backup directory, of whose canonical path the same holds.
pub proof fn law_resolved_path_is_canonical(fs: FileSystem, request: Request)
    requires
        fs.canonicalizes(request.style),
    ensures
        request.looked_up(fs) matches Ok(target) ==> {
            &&& fs.settled(request.style, target.path)
            &&& fs.settled(request.style, target.canonical_dir)
            &&& within(request.style, target.canonical_dir, target.path)
        },
{
    if let Ok(target) = request.looked_up(fs) {
        law_resolution_succeeds(
            request.style,
            request.data_root,
            request.filename,
            request.valid,
            fs.answer(request.dir()),
            fs.answer(request.file()),
        );
        let (dir, file) = (encode_utf8(request.dir()), encode_utf8(request.file()));
        assert((fs.canonical)(dir) == CanonicalView::Found(target.canonical_dir));
        assert((fs.canonical)(file) == CanonicalView::Found(target.path));
    }
}

/// Every name on the list of backups can be asked for: its lookup gives its file in the canonical
/// backup directory, provided that the file system knows that file by its own name there, as it
/// does where the file is not a symbolic link. The names in a directory are plain, and the
/// storage layer says the same of a name on the list and of that name in a request.
pub proof fn law_listed_backup_is_found(
    fs: FileSystem,
    style: PathStyle,
    data_root: Seq<char>,
    verdict: spec_fn(Seq<char>) -> bool,
    entries: Seq<EntryView>,
    listed: Seq<BackupFileView>,
    k: int,
    canonical_dir: Seq<u8>,
)
    requires
        lists_as(entries, listed),
        0 <= k < listed.len(),
        forall|i: int|
            0 <= i < entries.len() ==> (#[trigger] entries[i] matches EntryView::Named {
                filename,
                valid,
                ..
            } ==> plain_name(style, filename) && valid == verdict(filename)),
        ({
            let dir = join(style, data_root, "backups"@);
            let name = listed[k].filename;
            let file = join(style, canonical_dir, encode_utf8(name));
            &&& fs.answer(dir) == CanonicalView::Found(canonical_dir)
            &&& fs.answer(join(style, dir, name)) == CanonicalView::Found(file)
            &&& style == PathStyle::Windows ==> joins_below(
                style,
                canonical_dir,
                encode_utf8(name),
            )
        }),
    ensures
        ({
            let filename = listed[k].filename;
            let request = Request { style, data_root, filename, valid: verdict(filename) };
            request.looked_up(fs) == Ok::<ResolvedBackupView, ErrorView>(
                ResolvedBackupView {
                    style,
                    canonical_dir,
                    path: join(style, canonical_dir, encode_utf8(filename)),
                    filename,
                },
            )
        }),
{
    let file = listed[k];
    law_scan_finds_every_backup(entries);
    law_order_keeps_the_files(scanned(entries)->Ok_0, listed);
    assert(listed.contains(file));
    let i = choose|i: int|
        0 <= i < entries.len() && listed_as(#[trigger] entries[i]) == Ok::<
            Option<BackupFileView>,
            ErrorView,
        >(Some(file));
    assert(entries[i] matches EntryView::Named { filename, valid, .. } && filename == file.filename
        && valid);
    law_plain_name_survives_encoding(style, file.filename);
    law_backup_in_the_directory_is_accepted(
        style,
        data_root,
        file.filename,
        canonical_dir,
        encode_utf8(file.filename),
    );
}

/// Once a backup was deleted, a lookup of it finds nothing.
proof fn lemma_deleted_is_missing(before: FileSystem, after: FileSystem, request: Request)
    requires
        request.looked_up(before) is Ok,
        after.lacks(before, request.looked_up(before)->Ok_0.path),
    ensures
        request.looked_up(after) == Err::<ResolvedBackupView, ErrorView>(ErrorView::NotFound),
{
    let target = request.looked_up(before)->Ok_0;
    law_resolution_succeeds(
        request.style,
        request.data_root,
        request.filename,
        request.valid,
        before.answer(request.dir()),
        before.answer(request.file()),
    );
    let (dir, file) = (encode_utf8(request.dir()), encode_utf8(request.file()));
    assert((before.canonical)(dir) == CanonicalView::Found(target.canonical_dir));
    assert((before.canonical)(file) == CanonicalView::Found(target.path));
    law_missing_is_not_found(
        request.style,
        request.data_root,
        request.filename,
        after.answer(request.dir()),
        after.answer(request.file()),
    );
}

/// Once a backup was deleted, a download of it is answered with not found.
pub proof fn law_deleted_backup_is_not_downloaded(
    before: FileSystem,
    after: FileSystem,
    request: Request,
    opened: Result<(), Seq<char>>,
)
    requires
        request.deleted(before, Ok(())) == Ok::<u16, ErrorView>(NO_CONTENT),
        after.lacks(before, request.looked_up(before)->Ok_0.path),
    ensures
        request.downloaded(after, opened) == Err::<DownloadHeadView, ErrorView>(
            ErrorView::NotFound,
        ),
        status_of(ErrorView::NotFound) == 404,
{
    lemma_deleted_is_missing(before, after, request);
}

/// Once a backup was deleted, a second deletion of it is answered with not found.
pub proof fn law_deleted_backup_is_not_deleted_again(
    before: FileSystem,
    after: FileSystem,
    request: Request,
    removed: Result<(), Seq<char>>,
)
    requires
        request.deleted(before, Ok(())) == Ok::<u16, ErrorView>(NO_CONTENT),
        after.lacks(before, request.looked_up(before)->Ok_0.path),
    ensures
        request.deleted(after, removed) == Err::<u16, ErrorView>(ErrorView::NotFound),
        status_of(ErrorView::NotFound) == 404,
{
    lemma_deleted_is_missing(before, after, request);
}

/// A deletion leaves the other backups where they were: what is looked up at another path than
/// that of the removed file, which is not the backup directory itself, is found as before.
pub proof fn law_deletion_leaves_the_others(
    before: FileSystem,
    after: FileSystem,
    removed: Seq<u8>,
    other: Request,
)
    requires
        after.lacks(before, removed),
        other.looked_up(before) matches Ok(target) && target.path != removed
            && target.canonical_dir != removed,
    ensures
        other.looked_up(after) == other.looked_up(before),
{
    let target = other.looked_up(before)->Ok_0;
    law_resolution_succeeds(
        other.style,
        other.data_root,
        other.filename,
        other.valid,
        before.answer(other.dir()),
        before.answer(other.file()),
    );
    let (dir, file) = (encode_utf8(other.dir()), encode_utf8(other.file()));
    assert((before.canonical)(dir) == CanonicalView::Found(target.canonical_dir));
    assert((before.canonical)(file) == CanonicalView::Found(target.path));
}

/// A backup that was just made can be restored. If the storage layer wrote it to the backup
/// directory under a plain name that is valid, the backup is answered with that name; and if the
/// file system finds the file in the directory under a path that is text, a restore by that name
/// whose safety copy and replacement both go well is answered with that name and with that of the
/// safety copy, which is not empty. It says that the server does not restart if that is the
/// setting.
pub proof fn law_made_backup_can_be_restored(
    fs: FileSystem,
    style: PathStyle,
    data_root: Seq<char>,
    verdict: spec_fn(Seq<char>) -> bool,
    name: Seq<char>,
    canonical_dir: Seq<u8>,
    canonical: Seq<u8>,
    safety: Seq<char>,
    setting: Option<Seq<char>>,
)
    requires
        plain_name(style, name),
        verdict(name),
        file_name(style, safety) is Some,
        ({
            let dir = join(style, data_root, "backups"@);
            &&& style == PathStyle::Windows ==> joins_below(style, dir, name)
            &&& fs.answer(dir) == CanonicalView::Found(canonical_dir)
            &&& fs.answer(join(style, dir, name)) == CanonicalView::Found(canonical)
        }),
        within(style, canonical_dir, canonical),
        valid_utf8(canonical),
    ensures
        ({
            let path = join(style, join(style, data_root, "backups"@), name);
            let request = Request { style, data_root, filename: name, valid: verdict(name) };
            let answer = request.restored(fs, Ok(safety), Ok(()), setting);
            &&& backed_up(style, BackupReplyView::Written(path), verdict) == Ok::<
                BackupDatabaseView,
                ErrorView,
            >(BackupDatabaseView { filename: name })
            &&& answer matches Ok(answer) && {
                &&& answer.restored_from == name
                &&& file_name(style, safety) == Some(answer.safety_backup)
                &&& answer.safety_backup.len() > 0
                &&& answer.restarting == restarts(setting)
                &&& setting == Some("false"@) ==> !answer.restarting
            }
        }),
{
    law_join_adds_one_part(style, join(style, data_root, "backups"@), name);
    law_file_name_is_one_name(style, safety);
}

/// A restore goes through if and only if its lookup does, the canonical path of the backup is text,
/// a safety copy was made and the database was replaced. It then names the backup that was asked
/// for.
pub proof fn law_restore_succeeds(
    fs: FileSystem,
    request: Request,
    copied: Result<Seq<char>, Seq<char>>,
    swapped: Result<(), Seq<char>>,
    setting: Option<Seq<char>>,
)
    ensures
        request.restored(fs, copied, swapped, setting) is Ok <==> (request.looked_up(
            fs,
        ) matches Ok(target) && valid_utf8(target.path)) && copied is Ok && swapped is Ok,
        request.restored(fs, copied, swapped, setting) matches Ok(answer) ==> answer.restored_from
            == request.filename,
{
}

/// Whether every entry of the directory can be read, as far as a listing asks for it.
pub open spec fn readable(entries: Seq<EntryView>) -> bool {
    forall|i: int| 0 <= i < entries.len() ==> listed_as(#[trigger] entries[i]) is Ok
}

/// Whether an entry is a file of that name, with that verdict of the storage layer on the name.
pub open spec fn file_named(entry: EntryView, name: Seq<char>, verdict: bool) -> bool {
    entry matches EntryView::Named { filename, valid, metadata } && filename == name && valid
        == verdict && !(metadata matches MetadataView::Found { is_file: false, .. })
}

/// Whether a file of that name is on the list.
pub open spec fn on_the_list(listed: Seq<BackupFileView>, name: Seq<char>) -> bool {
    exists|k: int| 0 <= k < listed.len() && (#[trigger] listed[k]).filename == name
}

proof fn lemma_backup_is_listed(entries: Seq<EntryView>, at: int, name: Seq<char>)
    requires
        readable(entries),
        0 <= at < entries.len(),
        file_named(entries[at], name, true),
    ensures
        scanned(entries) is Ok,
        forall|listed: Seq<BackupFileView>| #[trigger]
            lists_as(entries, listed) ==> on_the_list(listed, name),
{
    law_scan_finds_every_backup(entries);
    let found = scanned(entries)->Ok_0;
    assert(listed_as(entries[at]) is Ok);
    let file = listed_as(entries[at])->Ok_0->Some_0;
    assert(listed_as(entries[at]) == Ok::<Option<BackupFileView>, ErrorView>(Some(file)));
    assert(found.contains(file));
    assert forall|listed: Seq<BackupFileView>| #[trigger] lists_as(
        entries,
        listed,
    ) implies on_the_list(listed, name) by {
        law_order_keeps_the_files(found, listed);
        assert(listed.contains(file));
        let k = choose|k: int| 0 <= k < listed.len() && listed[k] == file;
        assert(listed[k].filename == name);
    }
}

/// A backup that was made is on the list. If the storage layer wrote it to the backup directory
/// under a plain name and the request was answered, then it was answered with that name; and if the
/// directory, which can be read, holds a file of that name, the listing goes through and that name
/// is on the list.
pub proof fn law_made_backup_is_listed(
    style: PathStyle,
    data_root: Seq<char>,
    verdict: spec_fn(Seq<char>) -> bool,
    name: Seq<char>,
    made: BackupDatabaseView,
    entries: Seq<EntryView>,
    at: int,
)
    requires
        plain_name(style, name),
        ({
            let dir = join(style, data_root, "backups"@);
            &&& style == PathStyle::Windows ==> joins_below(style, dir, name)
            &&& backed_up(style, BackupReplyView::Written(join(style, dir, name)), verdict) == Ok::<
                BackupDatabaseView,
                ErrorView,
            >(made)
        }),
        readable(entries),
        0 <= at < entries.len(),
        file_named(entries[at], name, verdict(name)),
    ensures
        made.filename == name,
        scanned(entries) is Ok,
        forall|listed: Seq<BackupFileView>| #[trigger]
            lists_as(entries, listed) ==> on_the_list(listed, made.filename),
{
    law_join_adds_one_part(style, join(style, data_root, "backups"@), name);
    lemma_backup_is_listed(entries, at, name);
}

/// The safety copy of a restore is on the list. If the storage layer wrote it to the backup
/// directory under a plain name, a restore that goes through is answered with that name; and if the
/// directory, which can be read, holds a file of that name, and that is the name of a backup, the
/// listing goes through and that name is on the list.
pub proof fn law_safety_copy_is_listed(
    fs: FileSystem,
    request: Request,
    name: Seq<char>,
    setting: Option<Seq<char>>,
    answer: RestoreDatabaseView,
    entries: Seq<EntryView>,
    at: int,
)
    requires
        plain_name(request.style, name),
        request.style == PathStyle::Windows ==> joins_below(request.style, request.dir(), name),
        request.restored(fs, Ok(join(request.style, request.dir(), name)), Ok(()), setting) == Ok::<
            RestoreDatabaseView,
            ErrorView,
        >(answer),
        readable(entries),
        0 <= at < entries.len(),
        file_named(entries[at], name, true),
    ensures
        answer.safety_backup == name,
        scanned(entries) is Ok,
        forall|listed: Seq<BackupFileView>| #[trigger]
            lists_as(entries, listed) ==> on_the_list(listed, answer.safety_backup),
{
    law_join_adds_one_part(request.style, request.dir(), name);
    lemma_backup_is_listed(entries, at, name);
}

/// A deletion whose lookup goes through is answered with 204 if and only if the file was removed,
/// whatever the name; and a deletion whose lookup fails is answered with the error of the lookup.
pub proof fn law_deletion_is_answered(
    fs: FileSystem,
    request: Request,
    removed: Result<(), Seq<char>>,
)
    ensures
        request.looked_up(fs) is Ok && removed is Ok ==> request.deleted(fs, removed) == Ok::<
            u16,
            ErrorView,
        >(204),
        request.looked_up(fs) is Ok && removed is Err ==> request.deleted(fs, removed) is Err
            && status_of(request.deleted(fs, removed)->Err_0) == 500,
        request.looked_up(fs) matches Err(error) ==> request.deleted(fs, removed) == Err::<
            u16,
            ErrorView,
        >(error),
{
}

/// A download whose lookup goes through and whose file opens is answered with a head that has the
/// name that was asked for between quotes, whole, if that name holds no control character but
/// tabs; and a download whose lookup fails is answered with the error of the lookup.
pub proof fn law_download_is_answered(
    fs: FileSystem,
    request: Request,
    opened: Result<(), Seq<char>>,
)
    ensures
        request.looked_up(fs) is Ok ==> (request.downloaded(fs, opened) is Ok <==> opened is Ok
            && forall|i: int|
            0 <= i < request.filename.len() ==> {
                let c = #[trigger] request.filename[i];
                c == '\t' || (' ' <= c && c != '\u{7f}')
            }),
        request.downloaded(fs, opened) matches Ok(head) ==> head.status == 200
            && head.content_disposition == "attachment; filename=\""@ + request.filename + "\""@,
        request.looked_up(fs) matches Err(error) ==> request.downloaded(fs, opened) == Err::<
            DownloadHeadView,
            ErrorView,
        >(error),
{
    law_resolution_succeeds(
        request.style,
        request.data_root,
        request.filename,
        request.valid,
        fs.answer(request.dir()),
        fs.answer(request.file()),
    );
    law_head_names_the_file(request.filename, request.filename, opened);
}

} // verus!
