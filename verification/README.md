# database_backups

The endpoints with which the operator of a self-hosted server makes, lists,
downloads, deletes and restores backups of its database.

- `src/` is the library, verified with Verus. It decides: which names are looked
  up and which files are accepted, what is on the list of backups and in what
  order, what a response says, when the database may be replaced and when the
  server restarts. It does no I/O.
- `app/` is the axum service around it. It talks to the file system and to the
  storage layer, and hands the replies to the library.
- `tests/` runs the library.

What holds, in short:

- A file that is downloaded, deleted or restored from lies in the backup
  directory, after all symbolic links have been followed.
- A name that is not that of a backup is answered with 400, whatever is on disk.
- The list holds every backup in the directory and nothing else, ordered by name
  from the last to the first; there is only one such order, and it does not
  depend on the order of the directory.
- What is on the list can be asked for by its name. What was deleted is off the
  list, and is answered with 404 from then on.
- The database is replaced only after a safety copy of it was made, and the
  answer names that copy.
- A download sends the file.
- A backup that was just made can be restored, and it and the safety copy are on
  the list.
- Restores are limited, per IP address, and nothing else is: in any window at
  most three, and one more for every twenty seconds in it. `src/limit.rs` says
  what the numbers mean; `tower_governor` keeps the count.

Whether a name is that of a backup is for the storage layer to say: the library
takes its verdict along with the name. Paths are in the syntax of the platform,
POSIX or Windows, which the service names (`src/path.rs`, `src/join.rs`).

Three outside functions are trusted: `chrono`'s date in the form of RFC 3339
(`src/modified.rs`), `http`'s check of a header value (`src/download.rs`) and
the standard library's reading of UTF-8 (`src/restore.rs`).
