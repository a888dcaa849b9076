//! Deleting a backup.

use crate::error::{done, outcome, ApiError, ErrorView};
use crate::resolve::ResolvedBackup;
use crate::text::joined;
use vstd::prelude::*;

verus! {

/// The HTTP status of an answer without contents.
pub const NO_CONTENT: u16 = 204;

/// The answer where the backup cannot be deleted.
pub open spec fn delete_failure(filename: Seq<char>, reason: Seq<char>) -> ErrorView {
    ErrorView::Context { doing: "Failed to delete backup file "@ + filename, cause: reason }
}

/// The answer to a request to delete the backup `filename`, with what came of removing the file.
pub open spec fn delete_answer(filename: Seq<char>, removed: Result<(), Seq<char>>) -> Result<
    u16,
    ErrorView,
> {
    match removed {
        Ok(()) => Ok(NO_CONTENT),
        Err(reason) => Err(delete_failure(filename, reason)),
    }
}

/// The answer to a request to delete the backup `target`, with what came of removing the file at
/// its path.
pub fn delete_backup_file_route(target: &ResolvedBackup, removed: Result<(), String>) -> (r: Result<
    u16,
    ApiError,
>)
    ensures
        outcome(r) == delete_answer(target@.filename, done(removed)),
        removed is Ok ==> r == Ok::<u16, ApiError>(204),
        removed matches Err(reason) ==> (r matches Err(ApiError::Context { doing, cause }) && doing@
            == "Failed to delete backup file "@ + target@.filename && cause@ == reason@),
{
    match removed {
        Ok(()) => Ok(NO_CONTENT),
        Err(reason) => Err(
            ApiError::Context {
                doing: joined("Failed to delete backup file ", target.filename()),
                cause: reason,
            },
        ),
    }
}

/// A deletion is answered with 204 if and only if the file was removed, whatever its name; else
/// with the name and the reason, neither of them cut.
pub proof fn law_deletion_is_answered(filename: Seq<char>, removed: Result<(), Seq<char>>)
    ensures
        delete_answer(filename, removed) is Ok <==> removed is Ok,
        delete_answer(filename, removed) matches Ok(status) ==> status == 204,
        removed matches Err(reason) ==> delete_answer(filename, removed) == Err::<u16, ErrorView>(
            ErrorView::Context {
                doing: "Failed to delete backup file "@ + filename,
                cause: reason,
            },
        ),
{
}

} // verus!
