//! The list of backups: which directory entries are on it, and in what order.

use crate::error::{outcome, ApiError, ErrorView};
use crate::join::{backups_dir, join};
use crate::modified::ModifiedTime;
use crate::path::PathStyle;
use crate::resolve::CheckedName;
use crate::text::{
    comes_before, is_before, joined, law_order_is_by_code_points, law_order_is_strict,
    law_order_is_total, law_order_is_transitive, law_smaller_number_comes_first, number,
};
use vstd::prelude::*;

verus! {

/// One backup on the list.
#[derive(Debug, PartialEq, Eq)]
pub struct BackupFileResponse {
    pub filename: String,
    pub size_bytes: u64,
    /// When the file was last changed, as a date and time in UTC in the form of RFC 3339.
    pub modified_at: String,
}

/// The contents of a `BackupFileResponse`.
pub struct BackupFileView {
    pub filename: Seq<char>,
    pub size_bytes: u64,
    pub modified_at: Seq<char>,
}

impl View for BackupFileResponse {
    type V = BackupFileView;

    open spec fn view(&self) -> BackupFileView {
        BackupFileView {
            filename: self.filename@,
            size_bytes: self.size_bytes,
            modified_at: self.modified_at@,
        }
    }
}

/// The contents of a list of files.
pub open spec fn files_view(files: Seq<BackupFileResponse>) -> Seq<BackupFileView> {
    files.map_values(|file: BackupFileResponse| file@)
}

/// Whether a file has the name `filename`.
pub open spec fn named(filename: Seq<char>) -> spec_fn(BackupFileView) -> bool {
    |file: BackupFileView| file.filename == filename
}

/// Whether no file stands before one with a later name.
pub open spec fn descending(files: Seq<BackupFileView>) -> bool {
    forall|i: int, j: int|
        0 <= i < j < files.len() ==> !comes_before(
            (#[trigger] files[i]).filename,
            (#[trigger] files[j]).filename,
        )
}

/// Whether `listed` holds the files of `found` ordered by name, the last name first; files of the
/// same name keep their order.
pub open spec fn newest_first(found: Seq<BackupFileView>, listed: Seq<BackupFileView>) -> bool {
    &&& descending(listed)
    &&& forall|filename: Seq<char>| #[trigger]
        listed.filter(named(filename)) == found.filter(named(filename))
}

proof fn lemma_filter_first(files: Seq<BackupFileView>, filename: Seq<char>)
    requires
        files.len() > 0,
    ensures
        files.filter(named(filename)) == if files[0].filename == filename {
            seq![files[0]] + files.drop_first().filter(named(filename))
        } else {
            files.drop_first().filter(named(filename))
        },
{
    let head = seq![files[0]];
    assert(files == head + files.drop_first());
    Seq::filter_distributes_over_add(head, files.drop_first(), named(filename));
    reveal_with_fuel(Seq::filter, 2);
    assert(head.drop_last() == Seq::<BackupFileView>::empty());
    assert(head.last() == files[0]);
    assert(Seq::<BackupFileView>::empty() + files.drop_first().filter(named(filename))
        == files.drop_first().filter(named(filename)));
    assert(Seq::<BackupFileView>::empty().push(files[0]) == head);
}

proof fn lemma_filter_nothing(files: Seq<BackupFileView>, filename: Seq<char>)
    requires
        forall|i: int| 0 <= i < files.len() ==> (#[trigger] files[i]).filename != filename,
    ensures
        files.filter(named(filename)) == Seq::<BackupFileView>::empty(),
    decreases files.len(),
{
    if files.len() == 0 {
        reveal_with_fuel(Seq::filter, 1);
    } else {
        lemma_filter_first(files, filename);
        lemma_filter_nothing(files.drop_first(), filename);
    }
}

/// Putting `file` behind the files with a later name, and before the others, keeps the list
/// ordered.
proof fn lemma_insert(
    found: Seq<BackupFileView>,
    listed: Seq<BackupFileView>,
    file: BackupFileView,
    at: int,
)
    requires
        newest_first(found, listed),
        0 <= at <= listed.len(),
        forall|i: int|
            0 <= i < at ==> comes_before(file.filename, (#[trigger] listed[i]).filename),
        at < listed.len() ==> !comes_before(file.filename, listed[at].filename),
    ensures
        newest_first(seq![file] + found, listed.insert(at, file)),
{
    let grown = listed.insert(at, file);
    let all = seq![file] + found;
    let front = listed.take(at);
    let back = listed.skip(at);
    assert(listed == front + back);
    assert(grown == front + (seq![file] + back));
    assert(all.drop_first() == found);
    assert((seq![file] + back).drop_first() == back);
    assert forall|filename: Seq<char>| #[trigger]
        grown.filter(named(filename)) == all.filter(named(filename)) by {
        Seq::filter_distributes_over_add(front, back, named(filename));
        Seq::filter_distributes_over_add(front, seq![file] + back, named(filename));
        lemma_filter_first(all, filename);
        lemma_filter_first(seq![file] + back, filename);
        assert(listed.filter(named(filename)) == found.filter(named(filename)));
        if filename == file.filename {
            assert forall|i: int| 0 <= i < front.len() implies (#[trigger] front[i]).filename
                != filename by {
                assert(front[i] == listed[i]);
                law_order_is_strict(file.filename, listed[i].filename);
            }
            lemma_filter_nothing(front, filename);
            assert(Seq::<BackupFileView>::empty() + back.filter(named(filename)) == back.filter(
                named(filename),
            ));
            assert(Seq::<BackupFileView>::empty() + (seq![file] + back.filter(named(filename)))
                == seq![file] + back.filter(named(filename)));
        }
    }
    assert forall|i: int, j: int| 0 <= i < j < grown.len() implies !comes_before(
        (#[trigger] grown[i]).filename,
        (#[trigger] grown[j]).filename,
    ) by {
        if j < at {
            assert(grown[i] == listed[i] && grown[j] == listed[j]);
        } else if j == at {
            assert(grown[i] == listed[i]);
            law_order_is_strict(file.filename, listed[i].filename);
        } else if i < at {
            assert(grown[i] == listed[i] && grown[j] == listed[j - 1]);
        } else if i > at {
            assert(grown[i] == listed[i - 1] && grown[j] == listed[j - 1]);
        } else {
            assert(grown[j] == listed[j - 1]);
            if comes_before(file.filename, listed[j - 1].filename) {
                if j - 1 > at {
                    assert(!comes_before(listed[at].filename, listed[j - 1].filename));
                    law_order_is_total(listed[at].filename, listed[j - 1].filename);
                    if comes_before(listed[j - 1].filename, listed[at].filename) {
                        law_order_is_transitive(
                            file.filename,
                            listed[j - 1].filename,
                            listed[at].filename,
                        );
                    }
                }
            }
        }
    }
}

/// The files of `found` ordered by name, the last name first.
pub fn sorted_newest_first(found: Vec<BackupFileResponse>) -> (listed: Vec<BackupFileResponse>)
    ensures
        newest_first(files_view(found@), files_view(listed@)),
{
    let ghost all = files_view(found@);
    let mut left = found;
    let mut listed: Vec<BackupFileResponse> = Vec::new();
    proof {
        assert(all.skip(all.len() as int) == files_view(listed@));
    }
    while left.len() > 0
        invariant
            left@.len() <= all.len(),
            files_view(left@) == all.take(left@.len() as int),
            newest_first(all.skip(left@.len() as int), files_view(listed@)),
        decreases left@.len(),
    {
        let ghost before = left@;
        let ghost view_before = files_view(listed@);
        let last: usize = left.len() - 1;
        let file = left.remove(last);
        assert(file@ == all[last as int]) by {
            assert(files_view(before)[last as int] == file@);
        }
        let mut at: usize = 0;
        while at < listed.len() && is_before(
            file.filename.as_str(),
            listed[at].filename.as_str(),
        )
            invariant
                at <= listed@.len(),
                forall|i: int|
                    0 <= i < at ==> comes_before(
                        file.filename@,
                        (#[trigger] files_view(listed@)[i]).filename,
                    ),
            decreases listed@.len() - at,
        {
            at = at + 1;
        }
        let ghost entry = file@;
        listed.insert(at, file);
        proof {
            lemma_insert(all.skip(last + 1), view_before, entry, at as int);
            assert(files_view(listed@) == view_before.insert(at as int, entry));
            assert(all.skip(last as int) == seq![entry] + all.skip(last + 1));
            assert(files_view(left@) == all.take(last as int));
        }
    }
    proof {
        assert(all.skip(0) == all);
    }
    listed
}

/// What comes of opening the backup directory.
#[derive(Debug, PartialEq, Eq)]
pub enum DirReply {
    Opened,
    /// There is no such directory.
    Missing,
    /// The directory could not be opened, for the reason given.
    Failed(String),
}

/// What comes of asking for the next directory entry.
#[derive(Debug, PartialEq, Eq)]
pub enum EntryReply {
    /// There are no more entries.
    End,
    /// The next entry could not be read, for the reason given.
    Failed(String),
    /// An entry whose name is not text.
    Unnamed,
    /// An entry with this name.
    Named(CheckedName),
}

/// What comes of asking for the metadata of a directory entry.
#[derive(Debug, PartialEq, Eq)]
pub enum MetadataReply {
    /// The metadata could not be read, for the reason given.
    Failed(String),
    Found {
        is_file: bool,
        size_bytes: u64,
        /// When the entry was last changed, or why that is not known.
        modified: Result<ModifiedTime, String>,
    },
}

/// The contents of a `MetadataReply`.
pub enum MetadataView {
    Failed(Seq<char>),
    Found { is_file: bool, size_bytes: u64, modified: Result<ModifiedTime, Seq<char>> },
}

impl View for MetadataReply {
    type V = MetadataView;

    open spec fn view(&self) -> MetadataView {
        match self {
            MetadataReply::Failed(reason) => MetadataView::Failed(reason@),
            MetadataReply::Found { is_file, size_bytes, modified } => MetadataView::Found {
                is_file: *is_file,
                size_bytes: *size_bytes,
                modified: match modified {
                    Ok(time) => Ok(*time),
                    Err(reason) => Err(reason@),
                },
            },
        }
    }
}

impl MetadataView {
    /// Whether the time that a file was last changed, where it is known, can be written as a date.
    pub open spec fn datable(self) -> bool {
        match self {
            MetadataView::Found { is_file: true, modified: Ok(time), .. } => time.has_date(),
            _ => true,
        }
    }
}

/// The answer where the backup directory cannot be opened.
pub open spec fn open_failure(dir: Seq<char>, reason: Seq<char>) -> ErrorView {
    ErrorView::Failure("Failed to read backup directory "@ + dir + ": "@ + reason)
}

/// The answer where a directory entry cannot be read.
pub open spec fn entry_failure(reason: Seq<char>) -> ErrorView {
    ErrorView::Context { doing: "Failed to read backup directory entry"@, cause: reason }
}

/// The answer where the metadata of a backup cannot be read.
pub open spec fn metadata_failure(filename: Seq<char>, reason: Seq<char>) -> ErrorView {
    ErrorView::Context { doing: "Failed to read backup metadata for "@ + filename, cause: reason }
}

/// The answer where it is not known when a backup was last changed.
pub open spec fn modified_failure(filename: Seq<char>, reason: Seq<char>) -> ErrorView {
    ErrorView::Context {
        doing: "Failed to read backup modified time for "@ + filename,
        cause: reason,
    }
}

/// A directory entry, with all that can be asked of it.
pub enum EntryView {
    /// An entry whose name is not text.
    Unnamed,
    Named { filename: Seq<char>, valid: bool, metadata: MetadataView },
}

/// What a directory entry puts on the list: a file, or nothing; or the error that it ends the
/// listing with.
pub open spec fn listed_as(entry: EntryView) -> Result<Option<BackupFileView>, ErrorView> {
    match entry {
        EntryView::Unnamed => Ok(None),
        EntryView::Named { valid: false, .. } => Ok(None),
        EntryView::Named { filename, metadata, .. } => match metadata {
            MetadataView::Failed(reason) => Err(metadata_failure(filename, reason)),
            MetadataView::Found { is_file: false, .. } => Ok(None),
            MetadataView::Found { modified: Err(reason), .. } => Err(
                modified_failure(filename, reason),
            ),
            MetadataView::Found { size_bytes, modified: Ok(time), .. } => Ok(
                Some(BackupFileView { filename, size_bytes, modified_at: time.date_text() }),
            ),
        },
    }
}

/// The files found so far, after one more entry.
pub open spec fn after_entry(found: Seq<BackupFileView>, entry: EntryView) -> Result<
    Seq<BackupFileView>,
    ErrorView,
> {
    match listed_as(entry) {
        Ok(Some(file)) => Ok(found.push(file)),
        Ok(None) => Ok(found),
        Err(error) => Err(error),
    }
}

/// The files found in a directory with these entries, in the order of the directory.
pub open spec fn scanned(entries: Seq<EntryView>) -> Result<Seq<BackupFileView>, ErrorView>
    decreases entries.len(),
{
    if entries.len() == 0 {
        Ok(Seq::empty())
    } else {
        match scanned(entries.drop_last()) {
            Ok(found) => after_entry(found, entries.last()),
            Err(error) => Err(error),
        }
    }
}

/// A listing that waits for the next directory entry.
pub struct Listing {
    found: Vec<BackupFileResponse>,
}

impl View for Listing {
    type V = Seq<BackupFileView>;

    /// The files found so far, in the order of the directory.
    closed spec fn view(&self) -> Seq<BackupFileView> {
        files_view(self.found@)
    }
}

/// A listing that waits for the metadata of a directory entry.
pub struct PendingFile {
    listing: Listing,
    filename: String,
}

/// The contents of a `PendingFile`.
pub struct PendingFileView {
    /// The files found so far, in the order of the directory.
    pub found: Seq<BackupFileView>,
    /// The name of the entry.
    pub filename: Seq<char>,
}

impl View for PendingFile {
    type V = PendingFileView;

    closed spec fn view(&self) -> PendingFileView {
        PendingFileView { found: self.listing@, filename: self.filename@ }
    }
}

/// How a listing starts.
pub enum OpenStep {
    /// The entries of the directory are to be read.
    Read(Listing),
    /// There is nothing to read; this is the list.
    Done(Vec<BackupFileResponse>),
}

/// How a listing goes on after a directory entry.
pub enum EntryStep {
    /// The next entry is to be read.
    Next(Listing),
    /// The metadata of the entry is to be read.
    Inspect(PendingFile),
    /// That was all; this is the list.
    Done(Vec<BackupFileResponse>),
}

/// Starts the listing of the backups below `data_root`, with what came of opening the backup
/// directory. A missing directory holds no backups.
pub fn list_backup_files_route(style: PathStyle, data_root: &str, reply: DirReply) -> (r: Result<
    OpenStep,
    ApiError,
>)
    ensures
        match reply {
            DirReply::Opened => r matches Ok(OpenStep::Read(listing))
                && listing@ == Seq::<BackupFileView>::empty(),
            DirReply::Missing => r matches Ok(OpenStep::Done(files)) && files@.len() == 0,
            DirReply::Failed(reason) => r matches Err(error) && error@ == open_failure(
                join(style, data_root@, "backups"@),
                reason@,
            ),
        },
        reply matches DirReply::Failed(reason) ==> (r matches Err(ApiError::Failure(message))
            && message@ == "Failed to read backup directory "@ + join(
            style,
            data_root@,
            "backups"@,
        ) + ": "@ + reason@),
{
    match reply {
        DirReply::Opened => {
            let listing = Listing { found: Vec::new() };
            assert(listing@ == Seq::<BackupFileView>::empty());
            Ok(OpenStep::Read(listing))
        },
        DirReply::Missing => Ok(OpenStep::Done(Vec::new())),
        DirReply::Failed(reason) => {
            let dir = backups_dir(style, data_root);
            let mut message = "Failed to read backup directory ".to_owned();
            message.append(dir.as_str());
            message.append(": ");
            message.append(reason.as_str());
            Err(ApiError::Failure(message))
        },
    }
}

impl Listing {
    /// The listing with one more file found.
    pub fn with_file(self, file: BackupFileResponse) -> (listing: Listing)
        ensures
            listing@ == self@.push(file@),
    {
        let ghost before = self@;
        let mut found = self.found;
        let ghost entry = file@;
        found.push(file);
        let listing = Listing { found };
        assert(listing@ == before.push(entry));
        listing
    }

    /// Goes on with what came of asking for the next directory entry.
    pub fn on_entry(self, reply: EntryReply) -> (r: Result<EntryStep, ApiError>)
        ensures
            match reply {
                EntryReply::End => r matches Ok(EntryStep::Done(files)) && newest_first(
                    self@,
                    files_view(files@),
                ),
                EntryReply::Failed(reason) => r matches Err(error) && error@ == entry_failure(
                    reason@,
                ),
                EntryReply::Unnamed => r matches Ok(EntryStep::Next(listing)) && listing@ == self@,
                EntryReply::Named(name) => if name.valid {
                    r matches Ok(EntryStep::Inspect(pending)) && pending@ == (PendingFileView {
                        found: self@,
                        filename: name.filename@,
                    })
                } else {
                    r matches Ok(EntryStep::Next(listing)) && listing@ == self@
                },
            },
            reply matches EntryReply::Failed(reason) ==> (r matches Err(
                ApiError::Context { doing, cause },
            ) && doing@ == "Failed to read backup directory entry"@ && cause@ == reason@),
    {
        match reply {
            EntryReply::End => Ok(EntryStep::Done(sorted_newest_first(self.found))),
            EntryReply::Failed(reason) => Err(
                ApiError::Context {
                    doing: "Failed to read backup directory entry".to_owned(),
                    cause: reason,
                },
            ),
            EntryReply::Unnamed => Ok(EntryStep::Next(self)),
            EntryReply::Named(name) => {
                if !name.valid {
                    return Ok(EntryStep::Next(self));
                }
                Ok(EntryStep::Inspect(PendingFile { listing: self, filename: name.filename }))
            },
        }
    }
}

impl PendingFile {
    /// The name of the entry.
    pub fn filename(&self) -> (filename: &str)
        ensures
            filename@ == self@.filename,
    {
        self.filename.as_str()
    }

    /// Goes on with what came of asking for the metadata of the entry.
    pub fn on_metadata(self, reply: MetadataReply) -> (r: Result<Listing, ApiError>)
        requires
            reply@.datable(),
        ensures
            outcome(r) == after_entry(
                self@.found,
                EntryView::Named { filename: self@.filename, valid: true, metadata: reply@ },
            ),
            match reply {
                MetadataReply::Failed(reason) => r matches Err(ApiError::Context { doing, cause })
                    && doing@ == "Failed to read backup metadata for "@ + self@.filename && cause@
                    == reason@,
                MetadataReply::Found { is_file: false, .. } => r matches Ok(listing) && listing@
                    == self@.found,
                MetadataReply::Found { modified: Err(reason), .. } => r matches Err(
                    ApiError::Context { doing, cause },
                ) && doing@ == "Failed to read backup modified time for "@ + self@.filename && cause@
                    == reason@,
                MetadataReply::Found { size_bytes, modified: Ok(time), .. } => r matches Ok(listing)
                    && listing@ == self@.found.push(
                    BackupFileView {
                        filename: self@.filename,
                        size_bytes,
                        modified_at: time.date_text(),
                    },
                ),
            },
    {
        match reply {
            MetadataReply::Failed(reason) => Err(
                ApiError::Context {
                    doing: joined("Failed to read backup metadata for ", self.filename.as_str()),
                    cause: reason,
                },
            ),
            MetadataReply::Found { is_file, size_bytes, modified } => {
                if !is_file {
                    return Ok(self.listing);
                }
                match modified {
                    Err(reason) => Err(
                        ApiError::Context {
                            doing: joined(
                                "Failed to read backup modified time for ",
                                self.filename.as_str(),
                            ),
                            cause: reason,
                        },
                    ),
                    Ok(time) => {
                        let modified_at = time.to_rfc3339();
                        Ok(
                            self.listing.with_file(
                                BackupFileResponse {
                                    filename: self.filename,
                                    size_bytes,
                                    modified_at,
                                },
                            ),
                        )
                    },
                }
            },
        }
    }
}

/// Reading one more entry takes a listing from what the entries before it gave to what all of
/// them give.
pub proof fn law_scan_goes_on(entries: Seq<EntryView>, entry: EntryView)
    ensures
        scanned(Seq::empty()) == Ok::<Seq<BackupFileView>, ErrorView>(Seq::empty()),
        scanned(entries.push(entry)) == match scanned(entries) {
            Ok(found) => after_entry(found, entry),
            Err(error) => Err(error),
        },
{
    assert(entries.push(entry).drop_last() == entries);
}

/// A listing goes through if and only if no entry ends it with an error, and it then finds
/// exactly the files that the entries put on the list.
pub proof fn law_scan_finds_every_backup(entries: Seq<EntryView>)
    ensures
        scanned(entries) is Ok <==> forall|i: int|
            0 <= i < entries.len() ==> listed_as(#[trigger] entries[i]) is Ok,
        scanned(entries) matches Ok(found) ==> forall|file: BackupFileView| #[trigger]
            found.contains(file) <==> exists|i: int|
                0 <= i < entries.len() && listed_as(#[trigger] entries[i]) == Ok::<
                    Option<BackupFileView>,
                    ErrorView,
                >(Some(file)),
    decreases entries.len(),
{
    if entries.len() > 0 {
        let front = entries.drop_last();
        law_scan_finds_every_backup(front);
        assert forall|i: int| 0 <= i < front.len() implies front[i] == entries[i] by {}
        let last = entries.len() - 1;
        if scanned(entries) is Ok {
            assert forall|i: int| 0 <= i < entries.len() implies listed_as(
                #[trigger] entries[i],
            ) is Ok by {
                if i < last {
                    assert(listed_as(front[i]) is Ok);
                }
            }
            let before = scanned(front)->Ok_0;
            let found = scanned(entries)->Ok_0;
            assert forall|file: BackupFileView| #[trigger]
                found.contains(file) <==> exists|i: int|
                    0 <= i < entries.len() && listed_as(#[trigger] entries[i]) == Ok::<
                        Option<BackupFileView>,
                        ErrorView,
                    >(Some(file)) by {
                if before.contains(file) {
                    let i = choose|i: int|
                        0 <= i < front.len() && listed_as(#[trigger] front[i]) == Ok::<
                            Option<BackupFileView>,
                            ErrorView,
                        >(Some(file));
                    assert(entries[i] == front[i]);
                    let k = choose|k: int| 0 <= k < before.len() && before[k] == file;
                    assert(found[k] == file);
                }
                if found.contains(file) && !before.contains(file) {
                    let k = choose|k: int| 0 <= k < found.len() && found[k] == file;
                    if k < before.len() {
                        assert(before[k] == file);
                    }
                    assert(listed_as(entries[last]) == Ok::<Option<BackupFileView>, ErrorView>(
                        Some(file),
                    ));
                }
                if exists|i: int|
                    0 <= i < entries.len() && listed_as(#[trigger] entries[i]) == Ok::<
                        Option<BackupFileView>,
                        ErrorView,
                    >(Some(file)) {
                    let i = choose|i: int|
                        0 <= i < entries.len() && listed_as(#[trigger] entries[i]) == Ok::<
                            Option<BackupFileView>,
                            ErrorView,
                        >(Some(file));
                    if i < last {
                        assert(front[i] == entries[i]);
                        assert(before.contains(file));
                    } else {
                        assert(found.last() == file);
                    }
                }
            }
        } else if scanned(front) is Err {
            let i = choose|i: int| 0 <= i < front.len() && listed_as(#[trigger] front[i]) is Err;
            assert(listed_as(entries[i]) is Err);
        } else {
            assert(listed_as(entries[last]) is Err);
        }
    }
}

/// A listing that fails, fails with the error of the first entry that has one.
pub proof fn law_first_failure_is_reported(entries: Seq<EntryView>, at: int)
    requires
        0 <= at < entries.len(),
        listed_as(entries[at]) is Err,
        forall|i: int| 0 <= i < at ==> listed_as(#[trigger] entries[i]) is Ok,
    ensures
        scanned(entries) == Err::<Seq<BackupFileView>, ErrorView>(listed_as(entries[at])->Err_0),
    decreases entries.len(),
{
    let front = entries.drop_last();
    if at == entries.len() - 1 {
        assert forall|i: int| 0 <= i < front.len() implies listed_as(#[trigger] front[i]) is Ok by {
            assert(front[i] == entries[i]);
        }
        law_scan_finds_every_backup(front);
    } else {
        assert(front[at] == entries[at]);
        assert forall|i: int| 0 <= i < at implies listed_as(#[trigger] front[i]) is Ok by {
            assert(front[i] == entries[i]);
        }
        law_first_failure_is_reported(front, at);
    }
}

/// Ordering the list neither adds nor drops a file.
pub proof fn law_order_keeps_the_files(found: Seq<BackupFileView>, listed: Seq<BackupFileView>)
    requires
        newest_first(found, listed),
    ensures
        forall|file: BackupFileView| #[trigger] listed.contains(file) <==> found.contains(file),
        listed.len() == found.len(),
{
    assert forall|file: BackupFileView| #[trigger] listed.contains(file) <==> found.contains(
        file,
    ) by {
        lemma_contains_by_name(listed, file);
        lemma_contains_by_name(found, file);
    }
    lemma_same_len(found, listed);
}

proof fn lemma_contains_by_name(files: Seq<BackupFileView>, file: BackupFileView)
    ensures
        files.contains(file) <==> files.filter(named(file.filename)).contains(file),
{
    if files.contains(file) {
        let i = choose|i: int| 0 <= i < files.len() && files[i] == file;
        files.lemma_filter_contains(named(file.filename), i);
    }
    if files.filter(named(file.filename)).contains(file) {
        files.lemma_filter_contains_rev(named(file.filename), file);
    }
}

/// The two lists hold the same files under each name, so they are of one length: taking the
/// files of one name out of both leaves two shorter lists of which the same holds.
proof fn lemma_same_len(a: Seq<BackupFileView>, b: Seq<BackupFileView>)
    requires
        forall|filename: Seq<char>| #[trigger]
            b.filter(named(filename)) == a.filter(named(filename)),
    ensures
        a.len() == b.len(),
    decreases a.len(),
{
    if a.len() == 0 {
        if b.len() > 0 {
            let filename = b[0].filename;
            lemma_filter_first(b, filename);
            reveal_with_fuel(Seq::filter, 1);
            assert(b.filter(named(filename)).len() > 0);
            assert(a.filter(named(filename)).len() == 0);
        }
    } else {
        let file = a[0];
        lemma_contains_by_name(a, file);
        lemma_contains_by_name(b, file);
        assert(a.contains(file));
        assert(b.filter(named(file.filename)) == a.filter(named(file.filename)));
        lemma_filter_first(a, file.filename);
        let at = first_named(b, file.filename);
        lemma_first_named(b, file.filename);
        let front = b.take(at);
        let back = b.skip(at + 1);
        assert(b == front + (seq![b[at]] + back));
        let rest = front + back;
        assert((seq![b[at]] + back).drop_first() == back);
        assert forall|filename: Seq<char>| #[trigger]
            rest.filter(named(filename)) == a.drop_first().filter(named(filename)) by {
            Seq::filter_distributes_over_add(front, seq![b[at]] + back, named(filename));
            Seq::filter_distributes_over_add(front, back, named(filename));
            lemma_filter_first(seq![b[at]] + back, filename);
            lemma_filter_first(a, filename);
            assert(b.filter(named(filename)) == a.filter(named(filename)));
            if filename == file.filename {
                lemma_filter_nothing(front, filename);
                let kept = back.filter(named(filename));
                assert(Seq::<BackupFileView>::empty() + kept == kept);
                assert(b.filter(named(filename)) == seq![b[at]] + kept);
                assert((seq![b[at]] + kept).drop_first() == kept);
                assert((seq![file] + a.drop_first().filter(named(filename))).drop_first()
                    == a.drop_first().filter(named(filename)));
            }
        }
        lemma_same_len(a.drop_first(), rest);
    }
}

/// The place of the first file with that name.
spec fn first_named(files: Seq<BackupFileView>, filename: Seq<char>) -> int
    decreases files.len(),
{
    if files.len() == 0 || files[0].filename == filename {
        0
    } else {
        1 + first_named(files.drop_first(), filename)
    }
}

proof fn lemma_first_named(files: Seq<BackupFileView>, filename: Seq<char>)
    requires
        files.filter(named(filename)).len() > 0,
    ensures
        0 <= first_named(files, filename) < files.len(),
        files[first_named(files, filename)].filename == filename,
        forall|i: int|
            0 <= i < first_named(files, filename) ==> (#[trigger] files[i]).filename != filename,
    decreases files.len(),
{
    if files.len() == 0 {
        reveal_with_fuel(Seq::filter, 1);
    } else if files[0].filename != filename {
        lemma_filter_first(files, filename);
        lemma_first_named(files.drop_first(), filename);
        assert forall|i: int| 0 <= i < first_named(files, filename) implies (
        #[trigger] files[i]).filename != filename by {
            if i > 0 {
                assert(files[i] == files.drop_first()[i - 1]);
            }
        }
    }
}

/// There is one order only: what was found determines the list.
pub proof fn law_order_is_determined(
    found: Seq<BackupFileView>,
    a: Seq<BackupFileView>,
    b: Seq<BackupFileView>,
)
    requires
        newest_first(found, a),
        newest_first(found, b),
    ensures
        a == b,
{
    assert forall|filename: Seq<char>| #[trigger]
        b.filter(named(filename)) == a.filter(named(filename)) by {
        assert(b.filter(named(filename)) == found.filter(named(filename)));
        assert(a.filter(named(filename)) == found.filter(named(filename)));
    }
    lemma_same_order(a, b);
}

proof fn lemma_same_order(a: Seq<BackupFileView>, b: Seq<BackupFileView>)
    requires
        descending(a),
        descending(b),
        forall|filename: Seq<char>| #[trigger]
            b.filter(named(filename)) == a.filter(named(filename)),
    ensures
        a == b,
    decreases a.len(),
{
    lemma_same_len(a, b);
    if a.len() > 0 {
        let first = a[0];
        let other = b[0];
        lemma_contains_by_name(a, first);
        lemma_contains_by_name(b, first);
        lemma_contains_by_name(a, other);
        lemma_contains_by_name(b, other);
        assert(a.contains(first) && b.contains(other));
        assert(b.filter(named(first.filename)) == a.filter(named(first.filename)));
        assert(b.filter(named(other.filename)) == a.filter(named(other.filename)));
        let i = choose|i: int| 0 <= i < b.len() && b[i] == first;
        let j = choose|j: int| 0 <= j < a.len() && a[j] == other;
        law_order_is_total(first.filename, other.filename);
        assert(first.filename == other.filename);
        lemma_filter_first(a, first.filename);
        lemma_filter_first(b, first.filename);
        assert(a.filter(named(first.filename))[0] == first);
        assert(b.filter(named(first.filename))[0] == other);
        assert forall|filename: Seq<char>| #[trigger]
            b.drop_first().filter(named(filename)) == a.drop_first().filter(named(filename)) by {
            lemma_filter_first(a, filename);
            lemma_filter_first(b, filename);
            assert(b.filter(named(filename)) == a.filter(named(filename)));
            if first.filename == filename {
                let left = a.drop_first().filter(named(filename));
                let right = b.drop_first().filter(named(filename));
                assert((seq![first] + left).drop_first() == left);
                assert((seq![first] + right).drop_first() == right);
            }
        }
        assert forall|x: int, y: int|
            0 <= x < y < a.drop_first().len() implies !comes_before(
            (#[trigger] a.drop_first()[x]).filename,
            (#[trigger] a.drop_first()[y]).filename,
        ) by {
            assert(a.drop_first()[x] == a[x + 1]);
            assert(a.drop_first()[y] == a[y + 1]);
        }
        assert forall|x: int, y: int|
            0 <= x < y < b.drop_first().len() implies !comes_before(
            (#[trigger] b.drop_first()[x]).filename,
            (#[trigger] b.drop_first()[y]).filename,
        ) by {
            assert(b.drop_first()[x] == b[x + 1]);
            assert(b.drop_first()[y] == b[y + 1]);
        }
        lemma_same_order(a.drop_first(), b.drop_first());
        assert(a == seq![first] + a.drop_first());
        assert(b == seq![other] + b.drop_first());
    } else {
        assert(a == b);
    }
}

/// A backup in the directory is on the list: whatever else the directory holds, if the listing
/// goes through, an entry that is a file with the name of a backup is listed with its size and
/// date.
pub proof fn law_created_backup_is_listed(
    entries: Seq<EntryView>,
    at: int,
    filename: Seq<char>,
    size_bytes: u64,
    time: ModifiedTime,
    listed: Seq<BackupFileView>,
)
    requires
        0 <= at < entries.len(),
        entries[at] == (EntryView::Named {
            filename,
            valid: true,
            metadata: MetadataView::Found { is_file: true, size_bytes, modified: Ok(time) },
        }),
        scanned(entries) is Ok,
        newest_first(scanned(entries)->Ok_0, listed),
    ensures
        listed.contains(BackupFileView { filename, size_bytes, modified_at: time.date_text() }),
{
    let file = BackupFileView { filename, size_bytes, modified_at: time.date_text() };
    law_scan_finds_every_backup(entries);
    assert(listed_as(entries[at]) == Ok::<Option<BackupFileView>, ErrorView>(Some(file)));
    assert(scanned(entries)->Ok_0.contains(file));
    law_order_keeps_the_files(scanned(entries)->Ok_0, listed);
}

/// Whether a directory with these entries is answered with that list.
pub open spec fn lists_as(entries: Seq<EntryView>, listed: Seq<BackupFileView>) -> bool {
    scanned(entries) matches Ok(found) && newest_first(found, listed)
}

/// Whether no two entries have the same name, as in a directory.
pub open spec fn distinct_entries(entries: Seq<EntryView>) -> bool {
    forall|i: int, j: int|
        0 <= i < j < entries.len() ==> !same_name(#[trigger] entries[i], #[trigger] entries[j])
}

/// Whether two entries have one name, which is text.
pub open spec fn same_name(a: EntryView, b: EntryView) -> bool {
    a matches EntryView::Named { filename: x, .. } && b matches EntryView::Named {
        filename: y,
        ..
    } && x == y
}

/// Whether no two files have the same name.
pub open spec fn distinct_files(files: Seq<BackupFileView>) -> bool {
    forall|i: int, j: int|
        0 <= i < j < files.len() ==> (#[trigger] files[i]).filename != (
        #[trigger] files[j]).filename
}

/// A listing finds at most one file for each entry, under the name of the entry.
proof fn lemma_scan_keeps_names_distinct(entries: Seq<EntryView>)
    requires
        distinct_entries(entries),
        scanned(entries) is Ok,
    ensures
        distinct_files(scanned(entries)->Ok_0),
    decreases entries.len(),
{
    if entries.len() > 0 {
        let front = entries.drop_last();
        let last = entries.len() - 1;
        assert forall|i: int, j: int| 0 <= i < j < front.len() implies !same_name(
            #[trigger] front[i],
            #[trigger] front[j],
        ) by {
            assert(front[i] == entries[i] && front[j] == entries[j]);
        }
        lemma_scan_keeps_names_distinct(front);
        law_scan_finds_every_backup(front);
        let before = scanned(front)->Ok_0;
        let found = scanned(entries)->Ok_0;
        assert forall|i: int, j: int| 0 <= i < j < found.len() implies (
        #[trigger] found[i]).filename != (#[trigger] found[j]).filename by {
            assert(found[i] == before[i]);
            if j < before.len() {
                assert(found[j] == before[j]);
            } else {
                assert(before.contains(before[i]));
                let k = choose|k: int|
                    0 <= k < front.len() && listed_as(#[trigger] front[k]) == Ok::<
                        Option<BackupFileView>,
                        ErrorView,
                    >(Some(before[i]));
                assert(front[k] == entries[k]);
                assert(!same_name(entries[k], entries[last]));
            }
        }
    }
}

/// Where names are distinct, the files with the name of `file` are `file` alone.
proof fn lemma_filter_alone(files: Seq<BackupFileView>, file: BackupFileView)
    requires
        distinct_files(files),
        files.contains(file),
    ensures
        files.filter(named(file.filename)) == seq![file],
    decreases files.len(),
{
    let rest = files.drop_first();
    let k = choose|k: int| 0 <= k < files.len() && files[k] == file;
    lemma_filter_first(files, file.filename);
    assert forall|i: int, j: int| 0 <= i < j < rest.len() implies (#[trigger] rest[i]).filename
        != (#[trigger] rest[j]).filename by {
        assert(rest[i] == files[i + 1] && rest[j] == files[j + 1]);
    }
    if k == 0 {
        assert forall|i: int| 0 <= i < rest.len() implies (#[trigger] rest[i]).filename
            != file.filename by {
            assert(rest[i] == files[i + 1]);
        }
        lemma_filter_nothing(rest, file.filename);
        assert(seq![file] + Seq::<BackupFileView>::empty() == seq![file]);
    } else {
        assert(rest[k - 1] == file);
        lemma_filter_alone(rest, file);
    }
}

/// Where names are distinct, what a list holds determines the files under each name.
proof fn lemma_same_files_same_filters(a: Seq<BackupFileView>, b: Seq<BackupFileView>)
    requires
        distinct_files(a),
        distinct_files(b),
        forall|file: BackupFileView| #[trigger] a.contains(file) <==> b.contains(file),
    ensures
        forall|filename: Seq<char>| #[trigger]
            b.filter(named(filename)) == a.filter(named(filename)),
{
    assert forall|filename: Seq<char>| #[trigger]
        b.filter(named(filename)) == a.filter(named(filename)) by {
        if exists|k: int| 0 <= k < a.len() && (#[trigger] a[k]).filename == filename {
            let k = choose|k: int| 0 <= k < a.len() && (#[trigger] a[k]).filename == filename;
            assert(a.contains(a[k]));
            lemma_filter_alone(a, a[k]);
            lemma_filter_alone(b, a[k]);
        } else {
            assert forall|i: int| 0 <= i < b.len() implies (#[trigger] b[i]).filename
                != filename by {
                assert(b.contains(b[i]));
                assert(a.contains(b[i]));
            }
            lemma_filter_nothing(a, filename);
            lemma_filter_nothing(b, filename);
        }
    }
}

/// The order in which the directory hands out its entries does not count: two listings that meet
/// the same entries, whose names are distinct, both go through or both fail, and give one list.
pub proof fn law_directory_order_does_not_count(
    one: Seq<EntryView>,
    other: Seq<EntryView>,
    listed: Seq<BackupFileView>,
    relisted: Seq<BackupFileView>,
)
    requires
        distinct_entries(one),
        distinct_entries(other),
        forall|entry: EntryView| #[trigger] one.contains(entry) <==> other.contains(entry),
    ensures
        scanned(one) is Ok <==> scanned(other) is Ok,
        lists_as(one, listed) && lists_as(other, relisted) ==> listed == relisted,
{
    law_scan_finds_every_backup(one);
    law_scan_finds_every_backup(other);
    lemma_same_entries_listed(one, other);
    lemma_same_entries_listed(other, one);
    if scanned(one) is Ok && scanned(other) is Ok {
        let a = scanned(one)->Ok_0;
        let b = scanned(other)->Ok_0;
        lemma_scan_keeps_names_distinct(one);
        lemma_scan_keeps_names_distinct(other);
        lemma_same_files_same_filters(a, b);
        if newest_first(a, listed) && newest_first(b, relisted) {
            assert forall|filename: Seq<char>| #[trigger]
                relisted.filter(named(filename)) == a.filter(named(filename)) by {
                assert(relisted.filter(named(filename)) == b.filter(named(filename)));
                assert(b.filter(named(filename)) == a.filter(named(filename)));
            }
            law_order_is_determined(a, listed, relisted);
        }
    }
}

proof fn lemma_same_entries_listed(one: Seq<EntryView>, other: Seq<EntryView>)
    requires
        forall|entry: EntryView| #[trigger] one.contains(entry) ==> other.contains(entry),
    ensures
        scanned(other) is Ok ==> scanned(one) is Ok,
        scanned(other) is Ok ==> forall|file: BackupFileView| #[trigger]
            scanned(one)->Ok_0.contains(file) ==> scanned(other)->Ok_0.contains(file),
{
    law_scan_finds_every_backup(one);
    law_scan_finds_every_backup(other);
    if scanned(other) is Ok {
        assert forall|i: int| 0 <= i < one.len() implies listed_as(#[trigger] one[i]) is Ok by {
            assert(one.contains(one[i]));
            let k = choose|k: int| 0 <= k < other.len() && other[k] == one[i];
            assert(listed_as(other[k]) is Ok);
        }
        let a = scanned(one)->Ok_0;
        let b = scanned(other)->Ok_0;
        assert forall|file: BackupFileView| #[trigger] a.contains(file) implies b.contains(file) by {
            let i = choose|i: int|
                0 <= i < one.len() && listed_as(#[trigger] one[i]) == Ok::<
                    Option<BackupFileView>,
                    ErrorView,
                >(Some(file));
            assert(one.contains(one[i]));
            let k = choose|k: int| 0 <= k < other.len() && other[k] == one[i];
            assert(listed_as(other[k]) == Ok::<Option<BackupFileView>, ErrorView>(Some(file)));
        }
    }
}

/// Whether an entry is passed over by its name: the name is not text, or not that of a backup.
pub open spec fn passed_over(entry: EntryView) -> bool {
    match entry {
        EntryView::Unnamed => true,
        EntryView::Named { valid, .. } => !valid,
    }
}

/// An entry that is passed over by its name changes nothing, wherever in the directory it stands
/// and whatever its metadata: a listing with it goes as the listing without it.
pub proof fn law_other_entries_change_nothing(
    entries: Seq<EntryView>,
    at: int,
    entry: EntryView,
    listed: Seq<BackupFileView>,
)
    requires
        0 <= at <= entries.len(),
        passed_over(entry),
    ensures
        scanned(entries.insert(at, entry)) == scanned(entries),
        lists_as(entries.insert(at, entry), listed) <==> lists_as(entries, listed),
    decreases entries.len() - at,
{
    let more = entries.insert(at, entry);
    if at == entries.len() {
        assert(more.drop_last() == entries);
    } else {
        let front = entries.drop_last();
        law_other_entries_change_nothing(front, at, entry, listed);
        assert(more.drop_last() == front.insert(at, entry));
        assert(more.last() == entries.last());
    }
}

/// Taking a backup out of the directory takes it off the list, and nothing else: if the file at
/// `k` on the list came from the entry at `at`, the listing without that entry goes through and
/// gives the list without that file, the others in their order.
pub proof fn law_deleted_backup_leaves_the_list(
    entries: Seq<EntryView>,
    at: int,
    listed: Seq<BackupFileView>,
    k: int,
)
    requires
        distinct_entries(entries),
        lists_as(entries, listed),
        0 <= k < listed.len(),
        0 <= at < entries.len(),
        entries[at] matches EntryView::Named { filename, .. } && filename == listed[k].filename,
    ensures
        lists_as(entries.remove(at), listed.remove(k)),
        forall|relisted: Seq<BackupFileView>| #[trigger]
            lists_as(entries.remove(at), relisted) ==> relisted == listed.remove(k),
        forall|i: int|
            0 <= i < listed.remove(k).len() ==> (#[trigger] listed.remove(k)[i]).filename
                != listed[k].filename,
{
    let fewer = entries.remove(at);
    let kept = listed.remove(k);
    let file = listed[k];
    let found = scanned(entries)->Ok_0;
    law_scan_finds_every_backup(entries);
    law_scan_finds_every_backup(fewer);
    law_order_keeps_the_files(found, listed);
    lemma_scan_keeps_names_distinct(entries);
    assert forall|i: int| 0 <= i < fewer.len() implies fewer[i] == entries[if i < at {
        i
    } else {
        i + 1
    }] by {}
    assert forall|i: int, j: int| 0 <= i < j < fewer.len() implies !same_name(
        #[trigger] fewer[i],
        #[trigger] fewer[j],
    ) by {
        let x = if i < at { i } else { i + 1 };
        let y = if j < at { j } else { j + 1 };
        assert(!same_name(entries[x], entries[y]));
    }
    assert forall|i: int| 0 <= i < fewer.len() implies listed_as(#[trigger] fewer[i]) is Ok by {
        let x = if i < at { i } else { i + 1 };
        assert(listed_as(entries[x]) is Ok);
    }
    let left = scanned(fewer)->Ok_0;
    lemma_scan_keeps_names_distinct(fewer);
    lemma_order_keeps_names_distinct(found, listed);
    assert forall|i: int, j: int| 0 <= i < j < kept.len() implies (#[trigger] kept[i]).filename != (
    #[trigger] kept[j]).filename by {
        let x = if i < k { i } else { i + 1 };
        let y = if j < k { j } else { j + 1 };
        assert(kept[i] == listed[x] && kept[j] == listed[y]);
    }
    assert forall|i: int| 0 <= i < kept.len() implies (#[trigger] kept[i]).filename
        != file.filename by {
        let x = if i < k { i } else { i + 1 };
        assert(kept[i] == listed[x]);
    }
    assert forall|other: BackupFileView| #[trigger] left.contains(other) <==> kept.contains(
        other,
    ) by {
        if left.contains(other) {
            let i = choose|i: int|
                0 <= i < fewer.len() && listed_as(#[trigger] fewer[i]) == Ok::<
                    Option<BackupFileView>,
                    ErrorView,
                >(Some(other));
            let x = if i < at { i } else { i + 1 };
            assert(fewer[i] == entries[x]);
            if x < at {
                assert(!same_name(entries[x], entries[at]));
            } else {
                assert(!same_name(entries[at], entries[x]));
            }
            assert(listed_as(entries[x]) == Ok::<Option<BackupFileView>, ErrorView>(Some(other)));
            assert(found.contains(other));
            assert(listed.contains(other));
            let y = choose|y: int| 0 <= y < listed.len() && listed[y] == other;
            assert(y != k);
            assert(kept[if y < k { y } else { y - 1 }] == other);
        }
        if kept.contains(other) {
            let i = choose|i: int| 0 <= i < kept.len() && kept[i] == other;
            let x = if i < k { i } else { i + 1 };
            assert(listed[x] == other);
            assert(listed.contains(other));
            assert(found.contains(other));
            let y = choose|y: int|
                0 <= y < entries.len() && listed_as(#[trigger] entries[y]) == Ok::<
                    Option<BackupFileView>,
                    ErrorView,
                >(Some(other));
            assert(y != at);
            let z = if y < at { y } else { y - 1 };
            assert(fewer[z] == entries[y]);
            assert(listed_as(fewer[z]) == Ok::<Option<BackupFileView>, ErrorView>(Some(other)));
        }
    }
    lemma_same_files_same_filters(left, kept);
    assert forall|i: int, j: int| 0 <= i < j < kept.len() implies !comes_before(
        (#[trigger] kept[i]).filename,
        (#[trigger] kept[j]).filename,
    ) by {
        let x = if i < k { i } else { i + 1 };
        let y = if j < k { j } else { j + 1 };
        assert(kept[i] == listed[x] && kept[j] == listed[y]);
    }
    assert(newest_first(left, kept));
    assert forall|relisted: Seq<BackupFileView>| #[trigger] lists_as(fewer, relisted) implies relisted
        == kept by {
        law_order_is_determined(left, relisted, kept);
    }
}

proof fn lemma_order_keeps_names_distinct(
    found: Seq<BackupFileView>,
    listed: Seq<BackupFileView>,
)
    requires
        newest_first(found, listed),
        distinct_files(found),
    ensures
        distinct_files(listed),
{
    law_order_keeps_the_files(found, listed);
    assert forall|i: int, j: int| 0 <= i < j < listed.len() implies (
    #[trigger] listed[i]).filename != (#[trigger] listed[j]).filename by {
        let filename = listed[i].filename;
        if listed[j].filename == filename {
            assert(listed.contains(listed[i]));
            lemma_filter_alone(found, listed[i]);
            assert(listed.filter(named(filename)) == found.filter(named(filename)));
            let front = listed.take(j);
            let back = listed.skip(j);
            assert(listed == front + back);
            Seq::filter_distributes_over_add(front, back, named(filename));
            assert(front[i] == listed[i] && back[0] == listed[j]);
            front.lemma_filter_contains(named(filename), i);
            back.lemma_filter_contains(named(filename), 0);
            assert(front.filter(named(filename)).len() > 0);
            assert(back.filter(named(filename)).len() > 0);
        }
    }
}

/// What a directory entry does to the list. A file with the name of a backup puts itself on it,
/// under its whole name, with its size and date; what is no file, or has another name, puts
/// nothing on it; and what cannot be read ends the listing with the name and the reason.
pub proof fn law_entry_is_listed(
    found: Seq<BackupFileView>,
    filename: Seq<char>,
    size_bytes: u64,
    time: ModifiedTime,
    reason: Seq<char>,
    modified: Result<ModifiedTime, Seq<char>>,
    metadata: MetadataView,
)
    ensures
        after_entry(
            found,
            EntryView::Named {
                filename,
                valid: true,
                metadata: MetadataView::Found { is_file: true, size_bytes, modified: Ok(time) },
            },
        ) == Ok::<Seq<BackupFileView>, ErrorView>(
            found.push(BackupFileView { filename, size_bytes, modified_at: time.date_text() }),
        ),
        after_entry(
            found,
            EntryView::Named {
                filename,
                valid: true,
                metadata: MetadataView::Found { is_file: false, size_bytes, modified },
            },
        ) == Ok::<Seq<BackupFileView>, ErrorView>(found),
        after_entry(found, EntryView::Named { filename, valid: false, metadata }) == Ok::<
            Seq<BackupFileView>,
            ErrorView,
        >(found),
        after_entry(found, EntryView::Unnamed) == Ok::<Seq<BackupFileView>, ErrorView>(found),
        after_entry(
            found,
            EntryView::Named { filename, valid: true, metadata: MetadataView::Failed(reason) },
        ) == Err::<Seq<BackupFileView>, ErrorView>(
            ErrorView::Context {
                doing: "Failed to read backup metadata for "@ + filename,
                cause: reason,
            },
        ),
        after_entry(
            found,
            EntryView::Named {
                filename,
                valid: true,
                metadata: MetadataView::Found { is_file: true, size_bytes, modified: Err(reason) },
            },
        ) == Err::<Seq<BackupFileView>, ErrorView>(
            ErrorView::Context {
                doing: "Failed to read backup modified time for "@ + filename,
                cause: reason,
            },
        ),
{
}

/// The list goes down: of two files on it, where their names first differ, the one that stands
/// first has the greater code point; and a name that another one starts with stands behind it.
pub proof fn law_list_goes_down(
    found: Seq<BackupFileView>,
    listed: Seq<BackupFileView>,
    i: int,
    j: int,
    k: int,
)
    requires
        newest_first(found, listed),
        0 <= i < j < listed.len(),
        0 <= k <= listed[i].filename.len(),
        k <= listed[j].filename.len(),
        forall|n: int| 0 <= n < k ==> listed[i].filename[n] == listed[j].filename[n],
    ensures
        k < listed[i].filename.len() && k < listed[j].filename.len() ==> (
        listed[i].filename[k] as int) >= (listed[j].filename[k] as int),
        k == listed[i].filename.len() ==> k == listed[j].filename.len(),
{
    let (a, b) = (listed[i].filename, listed[j].filename);
    assert(!comes_before(listed[i].filename, listed[j].filename));
    if k == a.len() && k < b.len() {
        law_order_is_by_code_points(a, b, k);
    }
    if k < a.len() && k < b.len() && a[k] != b[k] {
        law_order_is_by_code_points(a, b, k);
    }
}

/// The newer backup stands first: of two backups whose names differ only in a date and time of
/// fixed width, written in digits, the one with the greater number stands before the other.
pub proof fn law_newer_backup_stands_first(
    found: Seq<BackupFileView>,
    listed: Seq<BackupFileView>,
    i: int,
    j: int,
    prefix: Seq<char>,
    a: Seq<char>,
    b: Seq<char>,
    suffix: Seq<char>,
)
    requires
        newest_first(found, listed),
        0 <= i < listed.len(),
        0 <= j < listed.len(),
        listed[i].filename == prefix + a + suffix,
        listed[j].filename == prefix + b + suffix,
        a.len() == b.len(),
        forall|n: int| 0 <= n < a.len() ==> '0' <= #[trigger] a[n] <= '9',
        forall|n: int| 0 <= n < b.len() ==> '0' <= #[trigger] b[n] <= '9',
    ensures
        number(a) > number(b) ==> i < j,
{
    law_smaller_number_comes_first(prefix, b, a, suffix);
    if number(a) > number(b) {
        assert(comes_before(listed[j].filename, listed[i].filename));
        if j < i {
            assert(!comes_before(listed[j].filename, listed[i].filename));
        } else if i == j {
            law_order_is_strict(listed[j].filename, listed[i].filename);
        }
    }
}

/// The list holds each file that was found, as often as it was found, and no other.
pub proof fn law_list_is_what_was_found(found: Seq<BackupFileView>, listed: Seq<BackupFileView>)
    requires
        newest_first(found, listed),
    ensures
        listed.to_multiset() == found.to_multiset(),
        listed.len() == found.len(),
{
    law_order_keeps_the_files(found, listed);
    assert forall|file: BackupFileView| #[trigger]
        listed.to_multiset().count(file) == found.to_multiset().count(file) by {
        lemma_count_by_name(listed, file);
        lemma_count_by_name(found, file);
        assert(listed.filter(named(file.filename)) == found.filter(named(file.filename)));
    }
    assert(listed.to_multiset() =~= found.to_multiset());
}

proof fn lemma_count_by_name(files: Seq<BackupFileView>, file: BackupFileView)
    ensures
        files.to_multiset().count(file) == files.filter(named(file.filename)).to_multiset().count(
            file,
        ),
    decreases files.len(),
{
    broadcast use vstd::seq_lib::group_to_multiset_ensures;

    reveal_with_fuel(Seq::filter, 2);
    if files.len() == 0 {
        assert(files.filter(named(file.filename)) == files);
    } else {
        let front = files.drop_last();
        lemma_count_by_name(front, file);
        assert(files == front.push(files.last()));
    }
}

/// The contents of a list leave nothing out: each file is there with its name, size and date.
pub proof fn law_contents_are_whole(files: Seq<BackupFileResponse>, i: int)
    requires
        0 <= i < files.len(),
    ensures
        files_view(files).len() == files.len(),
        files_view(files)[i].filename == files[i].filename@,
        files_view(files)[i].size_bytes == files[i].size_bytes,
        files_view(files)[i].modified_at == files[i].modified_at@,
{
}

} // verus!
