//! The boundary to the persistent SQLite store.
//!
//! Everything that actually touches the store goes through the trusted
//! wrappers in this module; the rest of the crate only handles the plain
//! values they return. The wrappers promise nothing about their results:
//! what comes back depends on what is on disk, so the callers state what
//! holds of every possible outcome instead.

use vstd::prelude::*;

use r2d2_sqlite::rusqlite::Connection;
use r2d2_sqlite::rusqlite::{Error, ErrorCode};

verus! {

/// A failure reported by the store, carried as the store's own message.
#[derive(Debug)]
pub struct StoreError {
    pub message: String,
}

#[verifier::external_type_specification]
#[verifier::external_body]
pub struct ExConnection(Connection);

/// Relies on rusqlite's `Connection::execute_batch`: runs the statements of
/// `sql` in order against the open database and reports the first failure.
#[verifier::external_body]
pub(crate) fn exec_batch(conn: &Connection, sql: &str) -> (r: Result<(), String>) {
    conn.execute_batch(sql).map_err(|e| e.to_string())
}

/// Relies on rusqlite's `Connection::execute`: runs `sql` with one bound
/// text parameter and reports the number of rows changed.
#[verifier::external_body]
pub(crate) fn exec_with_text_param(conn: &Connection, sql: &str, param: &str) -> (r: Result<
    usize,
    String,
>) {
    conn.execute(sql, [param]).map_err(|e| e.to_string())
}

/// Relies on rusqlite's `Connection::prepare` and `Statement::query_map`:
/// reads the single text column that `sql` selects, row by row in the order
/// the statement yields them. A "no such table" failure from `prepare` is
/// reported as `Ok(None)` so that a fresh install can be told apart from a
/// broken store.
#[verifier::external_body]
pub(crate) fn query_text_column(conn: &Connection, sql: &str) -> (r: Result<
    Option<Vec<String>>,
    String,
>) {
    let mut stmt = match conn.prepare(sql) {
        Ok(s) => s,
        Err(Error::SqliteFailure(e, Some(m)))
            if e.code == ErrorCode::Unknown && m.starts_with("no such table") => {
            return Ok(None);
        },
        Err(e) => return Err(e.to_string()),
    };
    let rows = stmt.query_map([], |row| row.get::<usize, String>(0)).map_err(|e| e.to_string())?;
    rows.collect::<Result<Vec<String>, _>>().map(Some).map_err(|e| e.to_string())
}

/// Relies on rusqlite's `Connection::prepare` and `Statement::query_map`:
/// reads the three columns that `sql` selects as an integer id, a text name
/// and an integer score, position-checked, row by row.
#[verifier::external_body]
pub(crate) fn query_item_rows(conn: &Connection, sql: &str) -> (r: Result<
    Vec<(u64, String, i64)>,
    String,
>) {
    let mut stmt = conn.prepare(sql).map_err(|e| e.to_string())?;
    let rows = stmt
        .query_map([], |row| Ok((row.get::<usize, i64>(0)? as u64, row.get(1)?, row.get(2)?)))
        .map_err(|e| e.to_string())?;
    rows.collect::<Result<Vec<(u64, String, i64)>, _>>().map_err(|e| e.to_string())
}

} // verus!
