//! The boundary to the embedded SQL engine.
//!
//! Each table of the on-disk schema is modelled by an uninterpreted
//! function from the connection to its contents; every statement the
//! library issues gets one trusted wrapper whose contract states, over
//! those models, what the engine documents the statement to do.  All
//! logic above this module is verified against these contracts.
//!
//! The models read the database as a value owned by the connection:
//! they are meaningful only while this handle is the sole writer.  A
//! commit arriving through another connection is outside the model, so
//! a reader that issues several statements pins one snapshot first by
//! wrapping them in a transaction.

use rusqlite::OptionalExtension;
use vstd::prelude::*;

use crate::Error;

verus! {

#[verifier::external_type_specification]
#[verifier::external_body]
pub struct ExConnection(rusqlite::Connection);

/// The schema revision this library writes and expects.
pub const SCHEMA_VERSION: i64 = 8;

/// One row of the `shows` table, as stored.
#[derive(Debug, Clone, Copy, PartialEq, Eq, Structural)]
pub struct ShowRow {
    pub topic_id: i64,
    pub text_blob_id: i64,
    pub text_offset: u32,
    pub url_blob_id: i64,
    pub url_offset: u32,
    pub url_mask: u32,
    pub date: i64,
    pub time: u32,
    pub duration: u32,
}

/// One row of the `topics` table, as a mathematical value.
pub struct TopicRow {
    pub topic: Seq<char>,
    pub channel_id: i64,
}

/// Contents of the `channels` table: id to channel name.
pub uninterp spec fn db_channels(c: rusqlite::Connection) -> Map<i64, Seq<char>>;

/// Contents of the `topics` table: id to name and owning channel.
pub uninterp spec fn db_topics(c: rusqlite::Connection) -> Map<i64, TopicRow>;

/// Contents of the `shows` table: id to the stored row.
pub uninterp spec fn db_shows(c: rusqlite::Connection) -> Map<i64, ShowRow>;

/// Contents of the full-text title table: rowid to indexed title.
pub uninterp spec fn db_titles(c: rusqlite::Connection) -> Map<i64, Seq<char>>;

/// Contents of the `blobs` table: id to compressed bytes.
pub uninterp spec fn db_blobs(c: rusqlite::Connection) -> Map<i64, Seq<u8>>;

/// The sequence counter behind `shows` row ids.
pub uninterp spec fn db_shows_seq(c: rusqlite::Connection) -> i64;

/// The sequence counter behind `blobs` ids.
pub uninterp spec fn db_blobs_seq(c: rusqlite::Connection) -> i64;

/// The engine's stored schema revision.
pub uninterp spec fn db_user_version(c: rusqlite::Connection) -> i64;

pub open spec fn channels_same(a: rusqlite::Connection, b: rusqlite::Connection) -> bool {
    db_channels(a) == db_channels(b)
}

pub open spec fn topics_same(a: rusqlite::Connection, b: rusqlite::Connection) -> bool {
    db_topics(a) == db_topics(b)
}

pub open spec fn shows_same(a: rusqlite::Connection, b: rusqlite::Connection) -> bool {
    db_shows(a) == db_shows(b) && db_shows_seq(a) == db_shows_seq(b)
}

pub open spec fn titles_same(a: rusqlite::Connection, b: rusqlite::Connection) -> bool {
    db_titles(a) == db_titles(b)
}

pub open spec fn blobs_same(a: rusqlite::Connection, b: rusqlite::Connection) -> bool {
    db_blobs(a) == db_blobs(b) && db_blobs_seq(a) == db_blobs_seq(b)
}

pub open spec fn version_same(a: rusqlite::Connection, b: rusqlite::Connection) -> bool {
    db_user_version(a) == db_user_version(b)
}

/// Nothing in the model changed between the two connection states.
pub open spec fn store_same(a: rusqlite::Connection, b: rusqlite::Connection) -> bool {
    &&& channels_same(a, b)
    &&& topics_same(a, b)
    &&& shows_same(a, b)
    &&& titles_same(a, b)
    &&& blobs_same(a, b)
    &&& version_same(a, b)
}

/// The freshly created schema: every table empty, both sequences zero.
pub open spec fn store_empty(c: rusqlite::Connection) -> bool {
    &&& db_channels(c) == Map::<i64, Seq<char>>::empty()
    &&& db_topics(c) == Map::<i64, TopicRow>::empty()
    &&& db_shows(c) == Map::<i64, ShowRow>::empty()
    &&& db_titles(c) == Map::<i64, Seq<char>>::empty()
    &&& db_blobs(c) == Map::<i64, Seq<u8>>::empty()
    &&& db_shows_seq(c) == 0
    &&& db_blobs_seq(c) == 0
}

/// Relies on `rusqlite::Connection::open_with_flags` with the default
/// flags plus private cache: opens (creating if absent) the database
/// file behind `path`.  Nothing is assumed about the contents found.
#[verifier::external_body]
fn conn_open(path: &str) -> (r: Result<rusqlite::Connection, Error>)
    ensures
        r.is_ok() || r is Err,
{
    rusqlite::Connection::open_with_flags(
        path,
        rusqlite::OpenFlags::default() | rusqlite::OpenFlags::SQLITE_OPEN_PRIVATE_CACHE,
    ).map_err(|_| Error::SqlError)
}

/// Relies on `rusqlite::Connection::pragma_update`: `journal_mode` only
/// changes how transactions are journalled, never any table contents.
#[verifier::external_body]
fn conn_set_journal_wal(c: &mut rusqlite::Connection) -> (r: Result<(), Error>)
    ensures
        store_same(*old(c), *final(c)),
{
    c.pragma_update(None, "journal_mode", "WAL").map_err(|_| Error::SqlError)
}

/// Relies on `rusqlite::Connection::pragma_update`: `synchronous` only
/// changes durability of commits, never any table contents.
#[verifier::external_body]
fn conn_set_synchronous_normal(c: &mut rusqlite::Connection) -> (r: Result<(), Error>)
    ensures
        store_same(*old(c), *final(c)),
{
    c.pragma_update(None, "synchronous", "NORMAL").map_err(|_| Error::SqlError)
}

/// Opens a connection configured the way every flow of this library
/// uses it: write-ahead journalling with relaxed syncing.
pub fn open_connection(path: &str) -> (r: Result<rusqlite::Connection, Error>)
{
    let mut conn = conn_open(path)?;
    conn_set_journal_wal(&mut conn)?;
    conn_set_synchronous_normal(&mut conn)?;
    Ok(conn)
}

/// Relies on `PRAGMA user_version` returning the 32-bit value stored in
/// the database header, queried through `rusqlite::Connection::query_row`.
#[verifier::external_body]
pub fn read_user_version(c: &rusqlite::Connection) -> (r: Result<i64, Error>)
    ensures
        r matches Ok(v) ==> v == db_user_version(*c),
        r matches Err(e) ==> e == Error::SqlError,
{
    c.query_row("SELECT * FROM pragma_user_version", [], |row| row.get(0))
        .map_err(|_| Error::SqlError)
}

/// Whether a stored schema revision is the one this library expects.
pub fn schema_is_current(user_version: i64) -> (r: bool)
    ensures
        r <==> user_version == SCHEMA_VERSION,
{
    user_version == SCHEMA_VERSION
}

/// Relies on `rusqlite::Connection::execute_batch` running the schema
/// DDL in one transaction: afterwards all five tables exist and are
/// empty, both sequence rows are zero, and `user_version` is set.
/// Assumes the connection points at a database without these objects
/// (a freshly created file); otherwise the batch fails unchanged.
#[verifier::external_body]
fn run_schema_ddl(c: &mut rusqlite::Connection) -> (r: Result<(), Error>)
    ensures
        r matches Ok(_) ==> store_empty(*final(c)) && db_user_version(*final(c)) == SCHEMA_VERSION,
        r matches Err(e) ==> e == Error::SqlError,
{
    c.execute_batch(
        "BEGIN;
        CREATE TABLE channels (id INTEGER PRIMARY KEY, channel TEXT NOT NULL, UNIQUE (channel));
        CREATE TABLE topics (id INTEGER PRIMARY KEY, topic TEXT NOT NULL, channel_id INTEGER NOT NULL, UNIQUE (topic, channel_id));
        CREATE INDEX topics_by_channel ON topics (channel_id);
        CREATE TABLE shows (id INTEGER PRIMARY KEY AUTOINCREMENT, topic_id INTEGER NOT NULL, text_blob_id INTEGER NOT NULL, text_offset INTEGER NOT NULL, url_blob_id INTEGER NOT NULL, url_offset INTEGER NOT NULL, url_mask INTEGER NOT NULL, date INTEGER NOT NULL, time INTEGER NOT NULL, duration INTEGER NOT NULL);
        CREATE INDEX shows_by_topic ON shows (topic_id ASC, date DESC, time DESC);
        CREATE VIRTUAL TABLE shows_by_title USING FTS5 (title, content='', detail=none);
        CREATE TABLE blobs (id INTEGER PRIMARY KEY AUTOINCREMENT, blob BLOB NOT NULL);
        INSERT INTO sqlite_sequence (name, seq) VALUES ('shows', 0);
        INSERT INTO sqlite_sequence (name, seq) VALUES ('blobs', 0);
        PRAGMA user_version = 8;
        COMMIT;",
    ).map_err(|_| Error::SqlError)
}

/// Installs the schema on a freshly created database file.
pub fn create_schema(c: &mut rusqlite::Connection) -> (r: Result<(), Error>)
    ensures
        r matches Ok(_) ==> store_empty(*final(c)) && db_user_version(*final(c)) == SCHEMA_VERSION,
        r matches Err(e) ==> e == Error::SqlError,
{
    run_schema_ddl(c)
}

/// Relies on `rusqlite::Connection::execute_batch` with `BEGIN`: a
/// transaction changes no contents by itself.
#[verifier::external_body]
pub fn begin_transaction(c: &mut rusqlite::Connection) -> (r: Result<(), Error>)
    ensures
        store_same(*old(c), *final(c)),
{
    c.execute_batch("BEGIN").map_err(|_| Error::SqlError)
}

/// Relies on `rusqlite::Connection::execute_batch` with `COMMIT`:
/// committing makes the state durable and changes no contents.  A
/// failed commit may roll the transaction back, so nothing is claimed
/// then.
#[verifier::external_body]
pub fn commit_transaction(c: &mut rusqlite::Connection) -> (r: Result<(), Error>)
    ensures
        r matches Ok(_) ==> store_same(*old(c), *final(c)),
{
    c.execute_batch("COMMIT").map_err(|_| Error::SqlError)
}

/// Relies on `rusqlite::Connection::execute_batch` with `ROLLBACK`.
/// The state reverts to some earlier transaction boundary, about which
/// nothing is claimed here.
#[verifier::external_body]
pub fn rollback_transaction(c: &mut rusqlite::Connection)
{
    let _ = c.execute_batch("ROLLBACK");
}

/// Relies on `rusqlite::Connection::execute_batch` with `ANALYZE`:
/// gathering planner statistics changes no table contents.
#[verifier::external_body]
pub fn run_analyze(c: &mut rusqlite::Connection) -> (r: Result<(), Error>)
    ensures
        store_same(*old(c), *final(c)),
{
    c.execute_batch("ANALYZE").map_err(|_| Error::SqlError)
}

/// Relies on `PRAGMA wal_checkpoint(TRUNCATE)`: folding the write-ahead
/// log back into the database file changes no contents.
#[verifier::external_body]
pub fn checkpoint_wal(c: &mut rusqlite::Connection) -> (r: Result<(), Error>)
    ensures
        store_same(*old(c), *final(c)),
{
    c.execute_batch("PRAGMA wal_checkpoint(TRUNCATE);").map_err(|_| Error::SqlError)
}

/// Relies on `rusqlite::Connection::execute_batch` running five delete
/// statements: all rows of every table are removed (the full-text table
/// through its `delete-all` command) while the sequence counters and
/// the schema revision keep their values.
#[verifier::external_body]
pub fn delete_all_rows(c: &mut rusqlite::Connection) -> (r: Result<(), Error>)
    ensures
        r matches Ok(_) ==> {
            &&& db_channels(*final(c)) == Map::<i64, Seq<char>>::empty()
            &&& db_topics(*final(c)) == Map::<i64, TopicRow>::empty()
            &&& db_shows(*final(c)) == Map::<i64, ShowRow>::empty()
            &&& db_titles(*final(c)) == Map::<i64, Seq<char>>::empty()
            &&& db_blobs(*final(c)) == Map::<i64, Seq<u8>>::empty()
            &&& db_shows_seq(*final(c)) == db_shows_seq(*old(c))
            &&& db_blobs_seq(*final(c)) == db_blobs_seq(*old(c))
            &&& version_same(*old(c), *final(c))
        },
        r matches Err(e) ==> e == Error::SqlError,
{
    c.execute_batch(
        "DELETE FROM blobs;
        INSERT INTO shows_by_title (shows_by_title) VALUES ('delete-all');
        DELETE FROM shows;
        DELETE FROM topics;
        DELETE FROM channels;",
    ).map_err(|_| Error::SqlError)
}

/// Relies on `SELECT id FROM channels WHERE channel = ?` under the
/// unique constraint on `channel`: the id is returned exactly when a
/// row with that name exists.
#[verifier::external_body]
pub fn select_channel_id(c: &rusqlite::Connection, name: &str) -> (r: Result<
    Option<i64>,
    Error,
>)
    ensures
        r matches Ok(Some(id)) ==> db_channels(*c).contains_key(id) && db_channels(*c)[id]
            == name@,
        r matches Ok(None) ==> forall|id: i64|
            db_channels(*c).contains_key(id) ==> db_channels(*c)[id] != name@,
        r matches Err(e) ==> e == Error::SqlError,
{
    c.query_row("SELECT id FROM channels WHERE channel = ?", (name,), |row| row.get(0))
        .optional()
        .map_err(|_| Error::SqlError)
}

/// Relies on `INSERT INTO channels (channel) VALUES (?)` followed by
/// `last_insert_rowid`: a fresh positive id (one not currently used)
/// is chosen and the new row is the only change.
#[verifier::external_body]
pub fn insert_channel(c: &mut rusqlite::Connection, name: &str) -> (r: Result<i64, Error>)
    ensures
        r matches Ok(id) ==> {
            &&& 0 < id
            &&& !db_channels(*old(c)).contains_key(id)
            &&& db_channels(*final(c)) == db_channels(*old(c)).insert(id, name@)
            &&& topics_same(*old(c), *final(c))
            &&& shows_same(*old(c), *final(c))
            &&& titles_same(*old(c), *final(c))
            &&& blobs_same(*old(c), *final(c))
            &&& version_same(*old(c), *final(c))
        },
        r is Err ==> store_same(*old(c), *final(c)),
        r matches Err(e) ==> e == Error::SqlError,
{
    match c.execute("INSERT INTO channels (channel) VALUES (?)", (name,)) {
        Ok(_) => Ok(c.last_insert_rowid()),
        Err(_) => Err(Error::SqlError),
    }
}

/// Relies on `SELECT id FROM topics WHERE topic = ? AND channel_id = ?`
/// under the unique constraint on that pair.
#[verifier::external_body]
pub fn select_topic_id(c: &rusqlite::Connection, topic: &str, channel_id: i64) -> (r: Result<
    Option<i64>,
    Error,
>)
    ensures
        r matches Ok(Some(id)) ==> db_topics(*c).contains_key(id) && db_topics(*c)[id].topic
            == topic@ && db_topics(*c)[id].channel_id == channel_id,
        r matches Ok(None) ==> forall|id: i64|
            db_topics(*c).contains_key(id) ==> !(db_topics(*c)[id].topic == topic@ && db_topics(
                *c,
            )[id].channel_id == channel_id),
        r matches Err(e) ==> e == Error::SqlError,
{
    c.query_row(
        "SELECT id FROM topics WHERE topic = ? AND channel_id = ?",
        (topic, channel_id),
        |row| row.get(0),
    ).optional().map_err(|_| Error::SqlError)
}

/// Relies on `INSERT INTO topics (topic, channel_id) VALUES (?, ?)`
/// followed by `last_insert_rowid`: a fresh positive id is chosen and
/// the new row is the only change.
#[verifier::external_body]
pub fn insert_topic(c: &mut rusqlite::Connection, topic: &str, channel_id: i64) -> (r: Result<
    i64,
    Error,
>)
    ensures
        r matches Ok(id) ==> {
            &&& 0 < id
            &&& !db_topics(*old(c)).contains_key(id)
            &&& db_topics(*final(c)) == db_topics(*old(c)).insert(
                id,
                TopicRow { topic: topic@, channel_id },
            )
            &&& channels_same(*old(c), *final(c))
            &&& shows_same(*old(c), *final(c))
            &&& titles_same(*old(c), *final(c))
            &&& blobs_same(*old(c), *final(c))
            &&& version_same(*old(c), *final(c))
        },
        r is Err ==> store_same(*old(c), *final(c)),
        r matches Err(e) ==> e == Error::SqlError,
{
    match c.execute("INSERT INTO topics (topic, channel_id) VALUES (?, ?)", (topic, channel_id)) {
        Ok(_) => Ok(c.last_insert_rowid()),
        Err(_) => Err(Error::SqlError),
    }
}

/// Relies on `INSERT INTO shows (...) VALUES (...)` on a table declared
/// `AUTOINCREMENT`, followed by `last_insert_rowid`: the id is one more
/// than the stored sequence value, which is updated to it.
#[verifier::external_body]
pub fn insert_show(c: &mut rusqlite::Connection, row: &ShowRow) -> (r: Result<i64, Error>)
    ensures
        r matches Ok(id) ==> {
            &&& db_shows_seq(*old(c)) < i64::MAX
            &&& id == db_shows_seq(*old(c)) + 1
            &&& !db_shows(*old(c)).contains_key(id)
            &&& db_shows(*final(c)) == db_shows(*old(c)).insert(id, *row)
            &&& db_shows_seq(*final(c)) == id
            &&& channels_same(*old(c), *final(c))
            &&& topics_same(*old(c), *final(c))
            &&& titles_same(*old(c), *final(c))
            &&& blobs_same(*old(c), *final(c))
            &&& version_same(*old(c), *final(c))
        },
        r is Err ==> store_same(*old(c), *final(c)),
        r matches Err(e) ==> e == Error::SqlError,
{
    match c.execute(
        "INSERT INTO shows (topic_id, text_blob_id, text_offset, url_blob_id, url_offset, url_mask, date, time, duration) VALUES (?, ?, ?, ?, ?, ?, ?, ?, ?)",
        (row.topic_id, row.text_blob_id, row.text_offset, row.url_blob_id, row.url_offset,
         row.url_mask, row.date, row.time, row.duration),
    ) {
        Ok(_) => Ok(c.last_insert_rowid()),
        Err(_) => Err(Error::SqlError),
    }
}

/// Relies on `INSERT INTO shows_by_title (rowid, title) VALUES (?, ?)`:
/// the title is indexed under the given rowid and nothing else changes.
/// Nothing is said of the index when the rowid was already present, as
/// it never is for a row id the engine just allocated.
#[verifier::external_body]
pub fn insert_title(c: &mut rusqlite::Connection, id: i64, title: &str) -> (r: Result<(), Error>)
    ensures
        r matches Ok(_) ==> {
            &&& (!db_titles(*old(c)).contains_key(id) ==> db_titles(*final(c)) == db_titles(
                *old(c),
            ).insert(id, title@))
            &&& channels_same(*old(c), *final(c))
            &&& topics_same(*old(c), *final(c))
            &&& shows_same(*old(c), *final(c))
            &&& blobs_same(*old(c), *final(c))
            &&& version_same(*old(c), *final(c))
        },
        r is Err ==> store_same(*old(c), *final(c)),
        r matches Err(e) ==> e == Error::SqlError,
{
    match c.execute("INSERT INTO shows_by_title (rowid, title) VALUES (?, ?)", (id, title)) {
        Ok(_) => Ok(()),
        Err(_) => Err(Error::SqlError),
    }
}

/// Relies on `DELETE FROM shows WHERE id = ?`: the row with that id, if
/// any, is removed; nothing else changes (deletes do not rewind the
/// sequence).
#[verifier::external_body]
pub fn delete_show(c: &mut rusqlite::Connection, id: i64) -> (r: Result<(), Error>)
    ensures
        r matches Ok(_) ==> {
            &&& db_shows(*final(c)) == db_shows(*old(c)).remove(id)
            &&& db_shows_seq(*final(c)) == db_shows_seq(*old(c))
            &&& channels_same(*old(c), *final(c))
            &&& topics_same(*old(c), *final(c))
            &&& titles_same(*old(c), *final(c))
            &&& blobs_same(*old(c), *final(c))
            &&& version_same(*old(c), *final(c))
        },
        r is Err ==> store_same(*old(c), *final(c)),
        r matches Err(e) ==> e == Error::SqlError,
{
    match c.execute("DELETE FROM shows WHERE id = ?", (id,)) {
        Ok(_) => Ok(()),
        Err(_) => Err(Error::SqlError),
    }
}

/// Relies on the full-text `delete` command, `INSERT INTO
/// shows_by_title (shows_by_title, rowid, title) VALUES ('delete', ?,
/// ?)`: the entry under that rowid is removed.  The external-content
/// index gives that meaning only when the deleted title is exactly the
/// indexed one; otherwise nothing is said of the index.
#[verifier::external_body]
pub fn delete_title(c: &mut rusqlite::Connection, id: i64, title: &str) -> (r: Result<(), Error>)
    ensures
        r matches Ok(_) ==> {
            &&& (db_titles(*old(c)).contains_key(id) && db_titles(*old(c))[id] == title@
                ==> db_titles(*final(c)) == db_titles(*old(c)).remove(id))
            &&& channels_same(*old(c), *final(c))
            &&& topics_same(*old(c), *final(c))
            &&& shows_same(*old(c), *final(c))
            &&& blobs_same(*old(c), *final(c))
            &&& version_same(*old(c), *final(c))
        },
        r is Err ==> store_same(*old(c), *final(c)),
        r matches Err(e) ==> e == Error::SqlError,
{
    match c.execute(
        "INSERT INTO shows_by_title (shows_by_title, rowid, title) VALUES ('delete', ?, ?)",
        (id, title),
    ) {
        Ok(_) => Ok(()),
        Err(_) => Err(Error::SqlError),
    }
}

/// Relies on `UPDATE sqlite_sequence SET seq = seq + 1 WHERE name =
/// 'blobs'` followed by reading the row back: the counter advances by
/// one and its new value is returned.  Only the counter ever changes,
/// whatever the outcome.
#[verifier::external_body]
pub fn next_blob_id(c: &mut rusqlite::Connection) -> (r: Result<i64, Error>)
    ensures
        r matches Ok(id) ==> {
            &&& db_blobs_seq(*old(c)) < i64::MAX
            &&& id == db_blobs_seq(*old(c)) + 1
            &&& db_blobs_seq(*final(c)) == id
        },
        db_blobs(*final(c)) == db_blobs(*old(c)),
        channels_same(*old(c), *final(c)),
        topics_same(*old(c), *final(c)),
        shows_same(*old(c), *final(c)),
        titles_same(*old(c), *final(c)),
        version_same(*old(c), *final(c)),
        db_blobs_seq(*old(c)) <= db_blobs_seq(*final(c)),
        r matches Err(e) ==> e == Error::SqlError,
{
    if let Err(_) = c.execute("UPDATE sqlite_sequence SET seq = seq + 1 WHERE name = 'blobs'", []) {
        return Err(Error::SqlError);
    }
    c.query_row("SELECT seq FROM sqlite_sequence WHERE name = 'blobs'", [], |row| row.get(0))
        .map_err(|_| Error::SqlError)
}

/// Relies on `SELECT seq FROM sqlite_sequence WHERE name = 'shows'`.
#[verifier::external_body]
pub fn read_shows_seq(c: &rusqlite::Connection) -> (r: Result<i64, Error>)
    ensures
        r matches Ok(v) ==> v == db_shows_seq(*c),
        r matches Err(e) ==> e == Error::SqlError,
{
    c.query_row("SELECT seq FROM sqlite_sequence WHERE name = 'shows'", [], |row| row.get(0))
        .map_err(|_| Error::SqlError)
}

/// Relies on `INSERT INTO blobs (id, blob) VALUES (?, ?)`: the row is
/// added under the caller-chosen id; a duplicate id fails the primary
/// key constraint and changes nothing.  The id must not exceed the
/// stored sequence value: the table is `AUTOINCREMENT`, so an insert
/// past the sequence would advance it.
#[verifier::external_body]
pub fn insert_blob(c: &mut rusqlite::Connection, id: i64, data: &[u8]) -> (r: Result<(), Error>)
    requires
        id <= db_blobs_seq(*old(c)),
    ensures
        r matches Ok(_) ==> {
            &&& !db_blobs(*old(c)).contains_key(id)
            &&& db_blobs(*final(c)) == db_blobs(*old(c)).insert(id, data@)
            &&& db_blobs_seq(*final(c)) == db_blobs_seq(*old(c))
            &&& channels_same(*old(c), *final(c))
            &&& topics_same(*old(c), *final(c))
            &&& shows_same(*old(c), *final(c))
            &&& titles_same(*old(c), *final(c))
            &&& version_same(*old(c), *final(c))
        },
        r is Err ==> store_same(*old(c), *final(c)),
        r matches Err(e) ==> e == Error::SqlError,
{
    match c.execute("INSERT INTO blobs (id, blob) VALUES (?, ?)", (id, data)) {
        Ok(_) => Ok(()),
        Err(_) => Err(Error::SqlError),
    }
}


/// Relies on `SELECT ... FROM shows WHERE topic_id = ? AND id <= ?
/// ORDER BY id`: exactly the rows of that topic up to the id bound, in
/// ascending id order.
#[verifier::external_body]
pub fn select_shows_of_topic(c: &rusqlite::Connection, topic_id: i64, max_id: i64) -> (r: Result<
    Vec<(i64, ShowRow)>,
    Error,
>)
    ensures
        r matches Ok(v) ==> {
            &&& forall|k: int|
                0 <= k < v@.len() ==> {
                    let p = #[trigger] v@[k];
                    &&& db_shows(*c).contains_key(p.0)
                    &&& db_shows(*c)[p.0] == p.1
                    &&& p.1.topic_id == topic_id
                    &&& p.0 <= max_id
                }
            &&& forall|id: i64|
                db_shows(*c).contains_key(id) && (#[trigger] db_shows(*c)[id]).topic_id
                    == topic_id && id <= max_id ==> exists|k: int|
                    0 <= k < v@.len() && (#[trigger] v@[k]).0 == id
            &&& forall|k1: int, k2: int|
                0 <= k1 < k2 < v@.len() ==> (#[trigger] v@[k1]).0 < (#[trigger] v@[k2]).0
        },
        r matches Err(e) ==> e == Error::SqlError,
{
    let sql = "SELECT id, topic_id, text_blob_id, text_offset, url_blob_id, url_offset, url_mask, date, time, duration FROM shows WHERE topic_id = ? AND id <= ? ORDER BY id";
    let mut stmt = c.prepare(sql).map_err(|_| Error::SqlError)?;
    let rows = stmt.query_map((topic_id, max_id), |row| {
        Ok((row.get(0)?, ShowRow { topic_id: row.get(1)?, text_blob_id: row.get(2)?, text_offset: row.get(3)?, url_blob_id: row.get(4)?, url_offset: row.get(5)?, url_mask: row.get(6)?, date: row.get(7)?, time: row.get(8)?, duration: row.get(9)? }))
    });
    rows.and_then(|it| it.collect()).map_err(|_| Error::SqlError)
}

/// Relies on `SELECT blob FROM blobs WHERE id = ?`.
#[verifier::external_body]
pub fn select_blob(c: &rusqlite::Connection, id: i64) -> (r: Result<Option<Vec<u8>>, Error>)
    ensures
        r matches Ok(Some(b)) ==> db_blobs(*c).contains_key(id) && db_blobs(*c)[id] == b@,
        r matches Ok(None) ==> !db_blobs(*c).contains_key(id),
        r matches Err(e) ==> e == Error::SqlError,
{
    c.query_row("SELECT blob FROM blobs WHERE id = ?", (id,), |row| row.get(0))
        .optional()
        .map_err(|_| Error::SqlError)
}


/// What the engine's `LIKE` operator with pattern `prefix || '%'`
/// accepts: a pure function of the two strings.
pub uninterp spec fn like_match(prefix: Seq<char>, value: Seq<char>) -> bool;

/// What the engine's full-text `MATCH` with query `q || '*'` accepts
/// for an indexed title: a pure function of the two strings.
pub uninterp spec fn fts_match(q: Seq<char>, title: Seq<char>) -> bool;

/// A listing of every stored channel name, each exactly once.
pub open spec fn channels_listing(c: rusqlite::Connection, v: Seq<String>) -> bool {
    &&& forall|k: int|
        0 <= k < v.len() ==> exists|id: i64|
            #![auto]
            db_channels(c).contains_key(id) && db_channels(c)[id] == (#[trigger] v[k])@
    &&& forall|id: i64| #[trigger]
        db_channels(c).contains_key(id) ==> exists|k: int|
            0 <= k < v.len() && (#[trigger] v[k])@ == db_channels(c)[id]
    &&& forall|k1: int, k2: int|
        0 <= k1 < k2 < v.len() ==> (#[trigger] v[k1])@ != (#[trigger] v[k2])@
}

/// A listing of every topic name filed under a channel the prefix
/// pattern accepts, each exactly once.
pub open spec fn topics_listing(c: rusqlite::Connection, prefix: Seq<char>, v: Seq<String>) -> bool {
    &&& forall|k: int|
        0 <= k < v.len() ==> exists|tid: i64|
            #![auto]
            db_topics(c).contains_key(tid) && db_topics(c)[tid].topic == (#[trigger] v[k])@
                && db_channels(c).contains_key(db_topics(c)[tid].channel_id) && like_match(
                prefix,
                db_channels(c)[db_topics(c)[tid].channel_id],
            )
    &&& forall|tid: i64| #[trigger]
        db_topics(c).contains_key(tid) && db_channels(c).contains_key(
            db_topics(c)[tid].channel_id,
        ) && like_match(prefix, db_channels(c)[db_topics(c)[tid].channel_id]) ==> exists|k: int|
            0 <= k < v.len() && (#[trigger] v[k])@ == db_topics(c)[tid].topic
    &&& forall|k1: int, k2: int|
        0 <= k1 < k2 < v.len() ==> (#[trigger] v[k1])@ != (#[trigger] v[k2])@
}

/// Relies on `SELECT DISTINCT(channel) FROM channels`: every stored
/// channel name exactly once, in no promised order.
#[verifier::external_body]
pub fn select_distinct_channels(c: &rusqlite::Connection) -> (r: Result<Vec<String>, Error>)
    ensures
        r matches Ok(v) ==> channels_listing(*c, v@),
        r matches Err(e) ==> e == Error::SqlError,
{
    let mut stmt = match c.prepare("SELECT DISTINCT(channel) FROM channels") {
        Ok(stmt) => stmt,
        Err(_) => return Err(Error::SqlError),
    };
    let rows = stmt.query_map([], |row| row.get(0));
    match rows.and_then(|it| it.collect()) {
        Ok(v) => Ok(v),
        Err(_) => Err(Error::SqlError),
    }
}

/// Relies on `SELECT DISTINCT(topic) FROM channels, topics WHERE
/// channels.id = topics.channel_id AND channels.channel LIKE ? || '%'`:
/// every topic name filed under a channel whose name the pattern
/// accepts, exactly once, in no promised order.
#[verifier::external_body]
pub fn select_topics_like(c: &rusqlite::Connection, prefix: &str) -> (r: Result<
    Vec<String>,
    Error,
>)
    ensures
        r matches Ok(v) ==> topics_listing(*c, prefix@, v@),
        r matches Err(e) ==> e == Error::SqlError,
{
    let mut stmt = match c.prepare(
        "SELECT DISTINCT(topic) FROM channels, topics WHERE channels.id = topics.channel_id AND channels.channel LIKE ? || '%'",
    ) {
        Ok(stmt) => stmt,
        Err(_) => return Err(Error::SqlError),
    };
    let rows = stmt.query_map((prefix,), |row| row.get(0));
    match rows.and_then(|it| it.collect()) {
        Ok(v) => Ok(v),
        Err(_) => Err(Error::SqlError),
    }
}

/// Relies on `SELECT id, topic, channel_id FROM topics ORDER BY id`:
/// exactly the topic rows, ascending by id.
#[verifier::external_body]
pub fn select_topics_all(c: &rusqlite::Connection) -> (r: Result<Vec<(i64, String, i64)>, Error>)
    ensures
        r matches Ok(v) ==> {
            &&& forall|k: int|
                0 <= k < v@.len() ==> {
                    let p = #[trigger] v@[k];
                    &&& db_topics(*c).contains_key(p.0)
                    &&& db_topics(*c)[p.0].topic == p.1@
                    &&& db_topics(*c)[p.0].channel_id == p.2
                }
            &&& forall|tid: i64| #[trigger]
                db_topics(*c).contains_key(tid) ==> exists|k: int|
                    0 <= k < v@.len() && (#[trigger] v@[k]).0 == tid
            &&& forall|k1: int, k2: int|
                0 <= k1 < k2 < v@.len() ==> (#[trigger] v@[k1]).0 < (#[trigger] v@[k2]).0
        },
        r matches Err(e) ==> e == Error::SqlError,
{
    let mut stmt = match c.prepare("SELECT id, topic, channel_id FROM topics ORDER BY id") {
        Ok(stmt) => stmt,
        Err(_) => return Err(Error::SqlError),
    };
    let rows = stmt.query_map([], |row| Ok((row.get(0)?, row.get(1)?, row.get(2)?)));
    match rows.and_then(|it| it.collect()) {
        Ok(v) => Ok(v),
        Err(_) => Err(Error::SqlError),
    }
}

/// Relies on `SELECT id, channel FROM channels ORDER BY id`: exactly
/// the channel rows, ascending by id.
#[verifier::external_body]
pub fn select_channels_all(c: &rusqlite::Connection) -> (r: Result<Vec<(i64, String)>, Error>)
    ensures
        r matches Ok(v) ==> {
            &&& forall|k: int|
                0 <= k < v@.len() ==> {
                    let p = #[trigger] v@[k];
                    &&& db_channels(*c).contains_key(p.0)
                    &&& db_channels(*c)[p.0] == p.1@
                }
            &&& forall|cid: i64| #[trigger]
                db_channels(*c).contains_key(cid) ==> exists|k: int|
                    0 <= k < v@.len() && (#[trigger] v@[k]).0 == cid
            &&& forall|k1: int, k2: int|
                0 <= k1 < k2 < v@.len() ==> (#[trigger] v@[k1]).0 < (#[trigger] v@[k2]).0
        },
        r matches Err(e) ==> e == Error::SqlError,
{
    let mut stmt = match c.prepare("SELECT id, channel FROM channels ORDER BY id") {
        Ok(stmt) => stmt,
        Err(_) => return Err(Error::SqlError),
    };
    let rows = stmt.query_map([], |row| Ok((row.get(0)?, row.get(1)?)));
    match rows.and_then(|it| it.collect()) {
        Ok(v) => Ok(v),
        Err(_) => Err(Error::SqlError),
    }
}

/// Relies on `SELECT id, ... FROM shows ORDER BY id`: exactly the show
/// rows, ascending by id.
#[verifier::external_body]
pub fn select_shows_all(c: &rusqlite::Connection) -> (r: Result<Vec<(i64, ShowRow)>, Error>)
    ensures
        r matches Ok(v) ==> {
            &&& forall|k: int|
                0 <= k < v@.len() ==> {
                    let p = #[trigger] v@[k];
                    &&& db_shows(*c).contains_key(p.0)
                    &&& db_shows(*c)[p.0] == p.1
                }
            &&& forall|id: i64| #[trigger]
                db_shows(*c).contains_key(id) ==> exists|k: int|
                    0 <= k < v@.len() && (#[trigger] v@[k]).0 == id
            &&& forall|k1: int, k2: int|
                0 <= k1 < k2 < v@.len() ==> (#[trigger] v@[k1]).0 < (#[trigger] v@[k2]).0
        },
        r matches Err(e) ==> e == Error::SqlError,
{
    let sql = "SELECT id, topic_id, text_blob_id, text_offset, url_blob_id, url_offset, url_mask, date, time, duration FROM shows ORDER BY id";
    let mut stmt = c.prepare(sql).map_err(|_| Error::SqlError)?;
    let rows = stmt.query_map([], |row| {
        Ok((row.get(0)?, ShowRow { topic_id: row.get(1)?, text_blob_id: row.get(2)?, text_offset: row.get(3)?, url_blob_id: row.get(4)?, url_offset: row.get(5)?, url_mask: row.get(6)?, date: row.get(7)?, time: row.get(8)?, duration: row.get(9)? }))
    });
    rows.and_then(|it| it.collect()).map_err(|_| Error::SqlError)
}

/// A listing of exactly the indexed rowids whose title the full-text
/// query accepts.
pub open spec fn titles_search_listing(c: rusqlite::Connection, q: Seq<char>, v: Seq<i64>) -> bool {
    &&& forall|k: int|
        0 <= k < v.len() ==> db_titles(c).contains_key(#[trigger] v[k]) && fts_match(
            q,
            db_titles(c)[v[k]],
        )
    &&& forall|id: i64| #[trigger]
        db_titles(c).contains_key(id) && fts_match(q, db_titles(c)[id]) ==> exists|k: int|
            0 <= k < v.len() && (#[trigger] v[k]) == id
    &&& forall|k1: int, k2: int| 0 <= k1 < k2 < v.len() ==> (#[trigger] v[k1]) != (#[trigger] v[k2])
}

/// Relies on `SELECT rowid FROM shows_by_title WHERE shows_by_title
/// MATCH ? || '*'`: exactly the indexed rowids whose title the
/// full-text query accepts.  A query the full-text syntax refuses
/// fails.
#[verifier::external_body]
pub fn select_title_matches(c: &rusqlite::Connection, q: &str) -> (r: Result<Vec<i64>, Error>)
    ensures
        r matches Ok(v) ==> titles_search_listing(*c, q@, v@),
        r matches Ok(v) ==> forall|k: int|
            0 <= k < v@.len() ==> #[trigger] fts_match(q@, db_titles(*c)[v@[k]]),
        r matches Err(e) ==> e == Error::SqlError,
{
    let mut stmt = match c.prepare(
        "SELECT rowid FROM shows_by_title WHERE shows_by_title MATCH ? || '*'",
    ) {
        Ok(stmt) => stmt,
        Err(_) => return Err(Error::SqlError),
    };
    let rows = stmt.query_map((q,), |row| row.get(0));
    match rows.and_then(|it| it.collect()) {
        Ok(v) => Ok(v),
        Err(_) => Err(Error::SqlError),
    }
}

/// Relies on the engine evaluating `? LIKE ? || '%'` for one pair of
/// strings.
#[verifier::external_body]
pub fn sql_like_prefix(c: &rusqlite::Connection, prefix: &str, value: &str) -> (r: Result<
    bool,
    Error,
>)
    ensures
        r matches Ok(b) ==> b == like_match(prefix@, value@),
        r matches Err(e) ==> e == Error::SqlError,
{
    c.query_row("SELECT ? LIKE ? || '%'", (value, prefix), |row| row.get(0))
        .map_err(|_| Error::SqlError)
}

/// Relies on the join `SELECT channels.channel, topics.topic, shows.*
/// FROM channels, topics, shows WHERE channels.id = topics.channel_id
/// AND topics.id = shows.topic_id AND shows.id = ?`: the row with its
/// filing names, when the whole chain exists.
#[verifier::external_body]
pub fn select_show_join(c: &rusqlite::Connection, id: i64) -> (r: Result<
    Option<(String, String, ShowRow)>,
    Error,
>)
    ensures
        r matches Ok(Some(t)) ==> {
            &&& db_shows(*c).contains_key(id)
            &&& db_shows(*c)[id] == t.2
            &&& db_topics(*c).contains_key(t.2.topic_id)
            &&& db_topics(*c)[t.2.topic_id].topic == t.1@
            &&& db_channels(*c).contains_key(db_topics(*c)[t.2.topic_id].channel_id)
            &&& db_channels(*c)[db_topics(*c)[t.2.topic_id].channel_id] == t.0@
        },
        r matches Ok(None) ==> !db_shows(*c).contains_key(id) || !db_topics(*c).contains_key(
            db_shows(*c)[id].topic_id,
        ) || !db_channels(*c).contains_key(db_topics(*c)[db_shows(*c)[id].topic_id].channel_id),
        r matches Err(e) ==> e == Error::SqlError,
{
    let sql = "SELECT channels.channel, topics.topic, shows.topic_id, shows.text_blob_id, shows.text_offset, shows.url_blob_id, shows.url_offset, shows.url_mask, shows.date, shows.time, shows.duration FROM channels, topics, shows WHERE channels.id = topics.channel_id AND topics.id = shows.topic_id AND shows.id = ?";
    let mut stmt = c.prepare(sql).map_err(|_| Error::SqlError)?;
    stmt.query_row((id,), |row| {
        Ok((row.get(0)?, row.get(1)?, ShowRow { topic_id: row.get(2)?, text_blob_id: row.get(3)?, text_offset: row.get(4)?, url_blob_id: row.get(5)?, url_offset: row.get(6)?, url_mask: row.get(7)?, date: row.get(8)?, time: row.get(9)?, duration: row.get(10)? }))
    }).optional().map_err(|_| Error::SqlError)
}

} // verus!
