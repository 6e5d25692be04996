//! StoreGateway: the two read-query shapes against the backing store, and
//! the trusted boundary to the SQLite driver. Query parameters are always
//! bound, never interpolated.

use vstd::prelude::*;

use crate::attr::EntryKind;
use crate::error::FsError;
use crate::listing::DirectoryEntry;
use crate::listing::entry_names;
use crate::listing::distinct_seqs;
use crate::listing::listing_names;
use crate::listing::materialize_children;
use crate::listing::separator_free;
use crate::listing::lemma_listing_distinct;
use crate::listing::lemma_listing_names_separator_free;
use crate::path::PathModel;
use crate::path::PlayPath;
use crate::path::depth_of;

verus! {

#[verifier::external_type_specification]
#[verifier::external_body]
pub struct ExConnection(rusqlite::Connection);

#[verifier::external_type_specification]
#[verifier::external_body]
pub struct ExSqliteError(rusqlite::Error);

/// Relies on rusqlite's Connection::open: opens the SQLite database at the
/// given path.
#[verifier::external_body]
fn open_connection(path: &str) -> (r: Result<rusqlite::Connection, rusqlite::Error>) {
    rusqlite::Connection::open(path)
}

/// Relies on rusqlite's Connection::prepare, Statement::query_map and
/// Row::get: runs `sql`, which projects one text column and takes no
/// parameter, and collects the column of every row in store order.
#[verifier::external_body]
fn query_text_0(conn: &rusqlite::Connection, sql: &str) -> (r: Result<
    Vec<String>,
    rusqlite::Error,
>) {
    let mut stmt = conn.prepare(sql)?;
    let rows = stmt.query_map([], |row| row.get::<usize, String>(0))?;
    rows.collect()
}

/// Relies on rusqlite's Connection::prepare, Statement::query_map and
/// Row::get: runs `sql`, which projects one text column and takes one text
/// parameter, binding `p1`, and collects the column of every row in store
/// order.
#[verifier::external_body]
fn query_text_1(conn: &rusqlite::Connection, sql: &str, p1: &str) -> (r: Result<
    Vec<String>,
    rusqlite::Error,
>) {
    let mut stmt = conn.prepare(sql)?;
    let rows = stmt.query_map([p1], |row| row.get::<usize, String>(0))?;
    rows.collect()
}

/// Relies on rusqlite's Connection::prepare, Statement::query_map and
/// Row::get: as `query_text_1`, with two text parameters bound in order.
#[verifier::external_body]
fn query_text_2(conn: &rusqlite::Connection, sql: &str, p1: &str, p2: &str) -> (r: Result<
    Vec<String>,
    rusqlite::Error,
>) {
    let mut stmt = conn.prepare(sql)?;
    let rows = stmt.query_map([p1, p2], |row| row.get::<usize, String>(0))?;
    rows.collect()
}

/// Relies on rusqlite's Connection::prepare, Statement::query_row and
/// Row::get: runs `sql`, which yields a single boolean row and takes one
/// text parameter, binding `p1`.
#[verifier::external_body]
fn query_bool_1(conn: &rusqlite::Connection, sql: &str, p1: &str) -> (r: Result<
    bool,
    rusqlite::Error,
>) {
    let mut stmt = conn.prepare(sql)?;
    stmt.query_row([p1], |row| row.get::<usize, bool>(0))
}

/// Relies on rusqlite's Connection::prepare, Statement::query_row and
/// Row::get: as `query_bool_1`, with two text parameters bound in order.
#[verifier::external_body]
fn query_bool_2(conn: &rusqlite::Connection, sql: &str, p1: &str, p2: &str) -> (r: Result<
    bool,
    rusqlite::Error,
>) {
    let mut stmt = conn.prepare(sql)?;
    stmt.query_row([p1, p2], |row| row.get::<usize, bool>(0))
}

/// The kind of a directory position's children: artists and albums list as
/// directories, songs as regular files.
pub open spec fn child_kind(p: PathModel) -> EntryKind
    recommends
        depth_of(p) < 3,
{
    match p {
        PathModel::Album(_, _) => EntryKind::RegularFile,
        _ => EntryKind::Directory,
    }
}

/// What `list_children` guarantees of a listing it returns for a directory
/// position: pairwise distinct, separator-free names, and every entry
/// carrying the kind the position's children have.
pub open spec fn well_formed_listing(v: Seq<DirectoryEntry>, p: PathModel) -> bool {
    &&& distinct_seqs(entry_names(v))
    &&& forall|k: int|
        0 <= k < v.len() ==> separator_free((#[trigger] v[k]).name@) && v[k].kind == child_kind(p)
}

/// Owns the backing-store connection; the only component that issues
/// queries.
pub struct StoreGateway {
    conn: rusqlite::Connection,
}

impl StoreGateway {
    /// Opens the backing store at `path`. A driver failure surfaces as
    /// `BackingStore`, never a panic.
    pub fn open(path: &str) -> (r: Result<StoreGateway, FsError>)
        ensures
            r matches Err(e) ==> e == FsError::BackingStore,
    {
        match open_connection(path) {
            Ok(conn) => Ok(StoreGateway { conn }),
            Err(_) => Err(FsError::BackingStore),
        }
    }

    /// Lists the direct children of a directory position: the distinct
    /// artist names under the root, the distinct album names under an
    /// artist, the distinct song titles under an album. Names are
    /// canonicalized and deduplicated favouring the first-seen row; store
    /// iteration order is otherwise unspecified, so nothing beyond list
    /// stability within this one result may be read into the order. A
    /// query failure surfaces as `BackingStore`.
    pub fn list_children(&self, position: &PlayPath) -> (r: Result<Vec<DirectoryEntry>, FsError>)
        requires
            depth_of(position@) < 3,
        ensures
            r matches Err(e) ==> e == FsError::BackingStore,
            r matches Ok(v) ==> well_formed_listing(v@, position@),
    {
        let rows = match position {
            PlayPath::Root => query_text_0(&self.conn, "SELECT DISTINCT albumartist FROM albums"),
            PlayPath::Artist(a) => query_text_1(
                &self.conn,
                "SELECT DISTINCT album FROM albums WHERE albumartist = ?",
                a.as_str(),
            ),
            PlayPath::Album { artist, album } => query_text_2(
                &self.conn,
                "SELECT DISTINCT title FROM items WHERE albumartist = ? AND album = ?",
                artist.as_str(),
                album.as_str(),
            ),
            PlayPath::Song { .. } => {
                proof {
                    assert(false);
                }
                return Err(FsError::BackingStore);
            },
        };
        let names = match rows {
            Ok(n) => n,
            Err(_) => {
                return Err(FsError::BackingStore);
            },
        };
        let kind = match position {
            PlayPath::Album { .. } => EntryKind::RegularFile,
            _ => EntryKind::Directory,
        };
        let out = materialize_children(&names, kind);
        proof {
            let raw = names.deep_view();
            assert(entry_names(out@) == listing_names(raw));
            lemma_listing_distinct(raw);
            lemma_listing_names_separator_free(raw);
            assert forall|k: int|
                0 <= k < out@.len() implies separator_free((#[trigger] out@[k]).name@)
                && out@[k].kind == child_kind(position@) by {
                assert(entry_names(out@)[k] == out@[k].name@);
                assert(separator_free(listing_names(raw)[k]));
            }
        }
        Ok(out)
    }

    /// Checks against the store whether an artist or album exists, without
    /// materializing children; used by directory-open validation. A query
    /// failure surfaces as `BackingStore`.
    pub fn has_position(&self, position: &PlayPath) -> (r: Result<bool, FsError>)
        requires
            1 <= depth_of(position@) <= 2,
        ensures
            r matches Err(e) ==> e == FsError::BackingStore,
    {
        let res = match position {
            PlayPath::Artist(a) => query_bool_1(
                &self.conn,
                "SELECT EXISTS(SELECT 1 FROM albums WHERE albumartist = ?)",
                a.as_str(),
            ),
            PlayPath::Album { artist, album } => query_bool_2(
                &self.conn,
                "SELECT EXISTS(SELECT 1 FROM albums WHERE albumartist = ? AND album = ?)",
                artist.as_str(),
                album.as_str(),
            ),
            _ => {
                proof {
                    assert(false);
                }
                return Err(FsError::BackingStore);
            },
        };
        match res {
            Ok(b) => Ok(b),
            Err(_) => Err(FsError::BackingStore),
        }
    }
}

} // verus!
