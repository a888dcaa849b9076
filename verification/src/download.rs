//! Downloading a backup: the head of the response, and the stream of its contents.

use crate::error::{done, outcome, ApiError, ErrorView};
use crate::resolve::ResolvedBackup;
use crate::text::joined;
use vstd::prelude::*;

verus! {

/// The HTTP status of an answer with contents.
pub const OK: u16 = 200;

/// The most bytes of a file that are sent in one piece.
pub const CHUNK_BYTES: usize = 64 * 1024;

/// The head of a download.
#[derive(Debug, PartialEq, Eq)]
pub struct DownloadHead {
    pub status: u16,
    pub content_type: String,
    pub content_disposition: String,
}

/// The contents of a `DownloadHead`.
pub struct DownloadHeadView {
    pub status: u16,
    pub content_type: Seq<char>,
    pub content_disposition: Seq<char>,
}

impl View for DownloadHead {
    type V = DownloadHeadView;

    open spec fn view(&self) -> DownloadHeadView {
        DownloadHeadView {
            status: self.status,
            content_type: self.content_type@,
            content_disposition: self.content_disposition@,
        }
    }
}

/// Whether `c` may stand in the value of an HTTP header.
pub open spec fn header_char(c: char) -> bool {
    c == '\t' || (' ' <= c && c != '\u{7f}')
}

/// Whether `text` can be the value of an HTTP header.
pub open spec fn header_text(text: Seq<char>) -> bool {
    forall|i: int| 0 <= i < text.len() ==> header_char(#[trigger] text[i])
}

/// Makes a header value with `axum::http::HeaderValue::try_from` on a `String`, and says only
/// whether that went well.
///
/// Trusted: the text is taken if and only if none of its bytes is a control character other than
/// the tab, and the error has one message. Bytes from 128 on, which are all that a character
/// beyond ASCII is written with, are taken.
#[verifier::external_body]
fn check_header_value(text: String) -> (r: Result<(), String>)
    ensures
        r is Ok <==> header_text(text@),
        r matches Err(message) ==> message@ == "failed to parse header value"@,
{
    match axum::http::HeaderValue::try_from(text) {
        Ok(_) => Ok(()),
        Err(error) => Err(error.to_string()),
    }
}

/// The header that names the file in which a client stores the download.
pub open spec fn disposition(filename: Seq<char>) -> Seq<char> {
    "attachment; filename=\""@ + filename + "\""@
}

/// The answer where the backup cannot be opened.
pub open spec fn open_failure(filename: Seq<char>, reason: Seq<char>) -> ErrorView {
    ErrorView::Context { doing: "Failed to open backup file "@ + filename, cause: reason }
}

/// The answer where the name of the backup cannot stand in a header.
pub open spec fn head_failure() -> ErrorView {
    ErrorView::Failure(
        "Failed to build backup download response: "@ + "failed to parse header value"@,
    )
}

/// The head of the download of the backup `filename`.
pub open spec fn download_head(filename: Seq<char>) -> Result<DownloadHeadView, ErrorView> {
    if header_text(disposition(filename)) {
        Ok(
            DownloadHeadView {
                status: OK,
                content_type: "application/octet-stream"@,
                content_disposition: disposition(filename),
            },
        )
    } else {
        Err(head_failure())
    }
}

/// The head of the answer to a request for the backup `filename`, with what came of opening the
/// file.
pub open spec fn download_answer(filename: Seq<char>, opened: Result<(), Seq<char>>) -> Result<
    DownloadHeadView,
    ErrorView,
> {
    match opened {
        Ok(()) => download_head(filename),
        Err(reason) => Err(open_failure(filename, reason)),
    }
}

/// The head of the answer to a request for the backup `target`, with what came of opening the
/// file at its path.
pub fn download_backup_file_route(target: &ResolvedBackup, opened: Result<(), String>) -> (r: Result<
    DownloadHead,
    ApiError,
>)
    ensures
        outcome(r) == download_answer(target@.filename, done(opened)),
        r is Ok <==> opened is Ok && forall|i: int|
            0 <= i < target@.filename.len() ==> {
                let c = #[trigger] target@.filename[i];
                c == '\t' || (' ' <= c && c != '\u{7f}')
            },
        r matches Ok(head) ==> head.status == 200 && head.content_type@
            == "application/octet-stream"@ && head.content_disposition@
            == "attachment; filename=\""@ + target@.filename + "\""@,
        opened matches Err(reason) ==> (r matches Err(ApiError::Context { doing, cause }) && doing@
            == "Failed to open backup file "@ + target@.filename && cause@ == reason@),
{
    proof {
        law_head_names_the_file(target@.filename, target@.filename, done(opened));
    }
    if let Err(reason) = opened {
        return Err(
            ApiError::Context {
                doing: joined("Failed to open backup file ", target.filename()),
                cause: reason,
            },
        );
    }
    let mut content_disposition = joined("attachment; filename=\"", target.filename());
    content_disposition.append("\"");
    match check_header_value(content_disposition.clone()) {
        Err(message) => Err(
            ApiError::Failure(
                joined("Failed to build backup download response: ", message.as_str()),
            ),
        ),
        Ok(()) => Ok(
            DownloadHead {
                status: OK,
                content_type: "application/octet-stream".to_owned(),
                content_disposition,
            },
        ),
    }
}

/// A name without control characters can be downloaded, and only such a name.
pub proof fn law_printable_names_have_a_head(filename: Seq<char>)
    ensures
        download_head(filename) is Ok <==> header_text(filename),
{
    reveal_strlit("attachment; filename=\"");
    reveal_strlit("\"");
    let text = disposition(filename);
    let start = "attachment; filename=\""@.len();
    if header_text(text) {
        assert forall|i: int| 0 <= i < filename.len() implies header_char(
            #[trigger] filename[i],
        ) by {
            assert(text[start + i] == filename[i]);
        }
    }
    if header_text(filename) {
        assert forall|i: int| 0 <= i < text.len() implies header_char(#[trigger] text[i]) by {
            if start <= i < start + filename.len() {
                assert(text[i] == filename[i - start]);
            }
        }
    }
}

/// How the stream of a file goes on after a read.
pub enum StreamStep<E> {
    /// The file is at its end, and so is the stream.
    End,
    /// These bytes are sent, and the stream goes on.
    Chunk(Vec<u8>),
    /// This error is sent, and the stream goes on.
    Fault(E),
}

/// A zeroed buffer to read the next piece of a file into.
pub fn read_buffer() -> (buffer: Vec<u8>)
    ensures
        buffer@ == Seq::new(CHUNK_BYTES as nat, |i: int| 0u8),
        buffer@.len() == 65_536,
{
    let buffer = vec![0u8; CHUNK_BYTES];
    assert(buffer@ == Seq::new(CHUNK_BYTES as nat, |i: int| 0u8));
    buffer
}

/// The first `count` bytes of a buffer, or all of it where it has fewer.
pub open spec fn filled(buffer: Seq<u8>, count: int) -> Seq<u8> {
    if count <= buffer.len() {
        buffer.take(count)
    } else {
        buffer
    }
}

/// Goes on with the stream of a file after a read, which put so many bytes at the front of
/// `buffer`, or failed.
pub fn stream_file<E>(buffer: Vec<u8>, read: Result<usize, E>) -> (step: StreamStep<E>)
    ensures
        match read {
            Ok(count) => if count == 0 {
                step is End
            } else {
                step matches StreamStep::Chunk(chunk) && chunk@ == filled(buffer@, count as int)
            },
            Err(error) => step == StreamStep::<E>::Fault(error),
        },
        step is End <==> (read matches Ok(count) && count == 0),
        read matches Ok(count) ==> (0 < count <= buffer@.len() ==> (
        step matches StreamStep::Chunk(chunk) && chunk@ == buffer@.take(count as int))),
        step matches StreamStep::Chunk(chunk) ==> chunk@.is_prefix_of(buffer@),
{
    match read {
        Ok(count) => {
            if count == 0 {
                return StreamStep::End;
            }
            let mut chunk = buffer;
            chunk.truncate(count);
            StreamStep::Chunk(chunk)
        },
        Err(error) => StreamStep::Fault(error),
    }
}

/// How far into the file the first `n` reads have come.
pub open spec fn position(counts: Seq<nat>, n: nat) -> nat
    recommends
        n <= counts.len(),
    decreases n,
{
    if n == 0 {
        0
    } else {
        position(counts, (n - 1) as nat) + counts[n - 1]
    }
}

/// What the first `n` reads send.
pub open spec fn sent(buffers: Seq<Seq<u8>>, counts: Seq<nat>, n: nat) -> Seq<u8>
    recommends
        n <= counts.len() == buffers.len(),
    decreases n,
{
    if n == 0 {
        Seq::empty()
    } else {
        sent(buffers, counts, (n - 1) as nat) + filled(buffers[n - 1], counts[n - 1] as int)
    }
}

/// Whether each read put the next bytes of the file at the front of its buffer.
pub open spec fn faithful_reads(
    file: Seq<u8>,
    buffers: Seq<Seq<u8>>,
    counts: Seq<nat>,
) -> bool {
    &&& buffers.len() == counts.len()
    &&& forall|i: int|
        #![trigger buffers[i]]
        0 <= i < buffers.len() ==> {
            &&& counts[i] <= buffers[i].len()
            &&& position(counts, i as nat) + counts[i] <= file.len()
            &&& buffers[i].take(counts[i] as int) == file.subrange(
                position(counts, i as nat) as int,
                (position(counts, i as nat) + counts[i]) as int,
            )
        }
}

/// A download sends the file: after each read what was sent is the file up to where the reads
/// have come, so once they have come to the end it is the whole file.
pub proof fn law_download_sends_the_file(
    file: Seq<u8>,
    buffers: Seq<Seq<u8>>,
    counts: Seq<nat>,
    n: nat,
)
    requires
        faithful_reads(file, buffers, counts),
        n <= counts.len(),
    ensures
        position(counts, n) <= file.len(),
        sent(buffers, counts, n) == file.take(position(counts, n) as int),
        position(counts, n) == file.len() ==> sent(buffers, counts, n) == file,
    decreases n,
{
    if n > 0 {
        law_download_sends_the_file(file, buffers, counts, (n - 1) as nat);
        let from = position(counts, (n - 1) as nat);
        let to = position(counts, n);
        assert(buffers[n - 1].take(counts[n - 1] as int) == file.subrange(from as int, to as int));
        assert(file.take(from as int) + file.subrange(from as int, to as int) == file.take(
            to as int,
        ));
    } else {
        assert(file.take(0) == Seq::<u8>::empty());
    }
    assert(file.take(file.len() as int) == file);
}

/// The head of a download names the file that was asked for, whole: so two names never have the
/// same head. There is a head if and only if the name holds no control character but tabs, and the
/// file could be opened.
pub proof fn law_head_names_the_file(
    filename: Seq<char>,
    other: Seq<char>,
    opened: Result<(), Seq<char>>,
)
    ensures
        download_answer(filename, opened) is Ok <==> opened is Ok && forall|i: int|
            0 <= i < filename.len() ==> {
                let c = #[trigger] filename[i];
                c == '\t' || (' ' <= c && c != '\u{7f}')
            },
        download_answer(filename, opened) matches Ok(head) ==> {
            &&& head.status == 200
            &&& head.content_type == "application/octet-stream"@
            &&& head.content_disposition == "attachment; filename=\""@ + filename + "\""@
            &&& download_answer(other, opened) == download_answer(filename, opened) ==> other
                == filename
        },
        opened matches Err(reason) ==> download_answer(filename, opened) == Err::<
            DownloadHeadView,
            ErrorView,
        >(ErrorView::Context { doing: "Failed to open backup file "@ + filename, cause: reason }),
        opened is Ok && download_answer(filename, opened) is Err ==> download_answer(
            filename,
            opened,
        ) == Err::<DownloadHeadView, ErrorView>(
            ErrorView::Failure(
                "Failed to build backup download response: "@ + "failed to parse header value"@,
            ),
        ),
{
    law_printable_names_have_a_head(filename);
    law_printable_names_have_a_head(other);
    let start = "attachment; filename=\""@;
    let (a, b) = (disposition(filename), disposition(other));
    if header_text(filename) {
        assert forall|i: int| 0 <= i < filename.len() implies {
            let c = #[trigger] filename[i];
            c == '\t' || (' ' <= c && c != '\u{7f}')
        } by {
            assert(header_char(filename[i]));
        }
    }
    if a == b {
        assert(a.len() == start.len() + filename.len() + "\""@.len());
        assert(b.len() == start.len() + other.len() + "\""@.len());
        assert(a.subrange(start.len() as int, (start.len() + filename.len()) as int) == filename);
        assert(b.subrange(start.len() as int, (start.len() + other.len()) as int) == other);
    }
}

} // verus!
