//! The rules behind the database backup endpoints of a self-hosted server: making, listing,
//! downloading, deleting and restoring backups.
//!
//! Nothing here does I/O. A request that needs some is a chain of values: each value says what is
//! to be asked of the file system or the storage layer, takes the reply, and gives the next value
//! or the answer. A backup file that is opened, deleted or restored from is a `ResolvedBackup`,
//! and that is always a file in the backup directory. What holds from one request to the next is
//! in `laws`, and what the limit on restores means is in `limit`.

pub mod backup;
pub mod delete;
pub mod download;
pub mod encoding;
pub mod error;
pub mod join;
pub mod laws;
pub mod limit;
pub mod listing;
pub mod modified;
pub mod path;
pub mod resolve;
pub mod restore;
pub mod routes;
pub mod spelling;
pub mod text;
