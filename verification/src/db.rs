//! The metadata store: one SQLite connection, owned by a single worker.
//!
//! The connection type is not safe to share between threads, so all access
//! is funnelled through a `StoreWorker` that executes one request at a
//! time.  The application wraps the worker in a thread with a request
//! queue; the worker itself — dispatching a closed set of request variants
//! and assigning record ids — is verified here.  Ids are handed out by the
//! worker in strictly increasing order, which makes every assigned id
//! unique across the store's lifetime.

use crate::gallery::ImageInfo;
use rusqlite::OptionalExtension;
use vstd::prelude::*;

verus! {

#[verifier::external_type_specification]
#[verifier::external_body]
pub struct ExConnection(rusqlite::Connection);

#[verifier::external_type_specification]
#[verifier::external_body]
pub struct ExSqliteError(rusqlite::Error);

#[verifier::external_type_specification]
#[verifier::external_body]
pub struct ExRow<'a>(rusqlite::Row<'a>);

/// A user known to the richer variant of the catalog.
pub struct User {
    pub id: u32,
    pub name: String,
    pub password: String,
}

/// A comment a user left on an image.
pub struct Comment {
    pub id: u32,
    pub image_id: u32,
    pub user_id: u32,
    pub timestamp: u32,
    pub text: String,
}

/// A label attached to images.
pub struct Tag {
    pub id: u32,
    pub name: String,
}

/// A person recognised on images.
pub struct Person {
    pub id: u32,
    pub name: String,
}

/// A place images were taken at.
pub struct Location {
    pub id: u32,
    pub name: String,
}

/// What store access can fail with.  Database failures carry the engine's
/// message; the channel variants report a broken request or reply path
/// between a caller and the worker thread.
#[derive(Debug)]
pub enum DataStoreError {
    Connection(String),
    Setup(String),
    Execute(String, String),
    QueryMap(String),
    RowMap(String),
    ChannelSend,
    ChannelReceive(String),
}

/// The closed set of operations callers may ask the store worker for.
pub enum StoreRequest {
    FindByPath(String),
    FindById(u32),
    Save(ImageInfo),
}

/// The worker's answer to one request.
pub enum StoreResponse {
    Found(Option<ImageInfo>),
    Saved(u32),
    Failed(DataStoreError),
}

/// Relies on rusqlite's `Connection::open`: opens (and creates if missing)
/// the database file at `path`.
#[verifier::external_body]
fn open_db(path: &String) -> (r: Result<rusqlite::Connection, rusqlite::Error>)
{
    rusqlite::Connection::open(path.as_str())
}

/// Relies on rusqlite's `Connection::open_in_memory`: opens a fresh,
/// private in-memory database.
#[verifier::external_body]
fn open_db_in_memory() -> (r: Result<rusqlite::Connection, rusqlite::Error>)
{
    rusqlite::Connection::open_in_memory()
}

/// Relies on rusqlite's `Connection::execute_batch`: runs the statements
/// in `sql` against the database.
#[verifier::external_body]
fn run_batch(conn: &rusqlite::Connection, sql: &str) -> (r: Result<(), rusqlite::Error>)
{
    conn.execute_batch(sql)
}

/// Relies on rusqlite's `Connection::execute`: inserts one image row with
/// the given id and the record's attributes.
#[verifier::external_body]
fn insert_image_row(conn: &rusqlite::Connection, id: u32, rec: &ImageInfo) -> (r: Result<
    usize,
    rusqlite::Error,
>)
{
    conn.execute(
        "INSERT INTO image (image_id, image_name, image_hash, image_width, image_height, \
         image_type, location_id, image_caption, image_description, image_rating) \
         VALUES (?1, ?2, ?3, ?4, ?5, ?6, ?7, ?8, ?9, ?10)",
        (
            id,
            rec.name.as_str(),
            rec.hash.as_str(),
            rec.width,
            rec.height,
            rec.img_type.as_str(),
            rec.location_id,
            rec.caption.as_str(),
            rec.description.as_str(),
            rec.rating,
        ),
    )
}

/// Relies on rusqlite's `Row::get`: one image record read off a selected
/// row, column by column in the fixed select order.
#[verifier::external_body]
fn row_to_image(row: &rusqlite::Row<'_>) -> (r: Result<ImageInfo, rusqlite::Error>)
{
    Ok(ImageInfo {
        id: row.get(0)?,
        name: row.get(1)?,
        hash: row.get(2)?,
        width: row.get(3)?,
        height: row.get(4)?,
        img_type: row.get(5)?,
        location_id: row.get(6)?,
        caption: row.get(7)?,
        description: row.get(8)?,
        rating: row.get(9)?,
    })
}

/// Relies on rusqlite's `Connection::query_row` and `OptionalExtension`:
/// fetches the image row whose `image_name` equals `name`, if any.  The
/// select binds `image_name = ?1` and the record's `name` is read from
/// that same column, so a returned record carries the searched name.
#[verifier::external_body]
fn query_image_by_name(conn: &rusqlite::Connection, name: &String) -> (r: Result<
    Option<ImageInfo>,
    rusqlite::Error,
>)
    ensures
        r matches Ok(Some(rec)) ==> rec.name@ == name@,
{
    conn.query_row(
        "SELECT image_id, image_name, image_hash, image_width, image_height, image_type, \
         location_id, image_caption, image_description, image_rating \
         FROM image WHERE image_name = ?1",
        (name.as_str(),),
        |row| row_to_image(row),
    ).optional()
}

/// Relies on rusqlite's `Connection::query_row` and `OptionalExtension`:
/// fetches the image row whose `image_id` equals `id`, if any.  The
/// select binds `image_id = ?1` and the record's `id` is read from that
/// same column, so a returned record carries the searched id.
#[verifier::external_body]
fn query_image_by_id(conn: &rusqlite::Connection, id: u32) -> (r: Result<
    Option<ImageInfo>,
    rusqlite::Error,
>)
    ensures
        r matches Ok(Some(rec)) ==> rec.id == id,
{
    conn.query_row(
        "SELECT image_id, image_name, image_hash, image_width, image_height, image_type, \
         location_id, image_caption, image_description, image_rating \
         FROM image WHERE image_id = ?1",
        (id,),
        |row| row_to_image(row),
    ).optional()
}

/// Relies on rusqlite's `Connection::query_row`: the largest image id in
/// the store, or `None` while the table is empty.
#[verifier::external_body]
fn max_image_id(conn: &rusqlite::Connection) -> (r: Result<Option<u32>, rusqlite::Error>)
{
    conn.query_row("SELECT MAX(image_id) FROM image", [], |row| row.get(0))
}

/// Relies on the `Display` impl of rusqlite's `Error`: its message text.
#[verifier::external_body]
fn error_text(e: &rusqlite::Error) -> (r: String)
{
    format!("{e}")
}

/// The single owner of the database connection.  Requests are executed one
/// at a time; ids are assigned from a strictly increasing counter, so two
/// saved records never share an id.
pub struct StoreWorker {
    /// The database handle; only this worker ever touches it.
    pub conn: rusqlite::Connection,
    /// The id the next successful save will assign.
    pub next_id: u32,
    /// Every id handed out so far, in the order of assignment.
    pub issued: Ghost<Seq<u32>>,
}

/// The id counter to continue from, given the largest stored id: fresh
/// stores start at 1, others directly above what they hold; a store that
/// already reached the last id cannot take further saves.
pub fn seed_next_id(m: Option<u32>) -> (r: Result<u32, DataStoreError>)
    ensures
        match r {
            Ok(n) => {
                match m {
                    Option::None => n == 1,
                    Option::Some(v) => v < u32::MAX && n == v + 1,
                }
            },
            Err(e) => m == Some(u32::MAX) && e matches DataStoreError::Setup(_),
        },
{
    match m {
        None => Ok(1),
        Some(v) => {
            if v == u32::MAX {
                Err(DataStoreError::Setup(String::from_str("image id space exhausted")))
            } else {
                Ok(v + 1)
            }
        },
    }
}

impl StoreWorker {
    /// Ids were handed out in strictly increasing order, all below the
    /// counter.
    pub open spec fn wf(&self) -> bool {
        &&& forall|i: int, j: int|
            0 <= i < j < self.issued@.len() ==> self.issued@[i] < self.issued@[j]
        &&& forall|i: int| 0 <= i < self.issued@.len() ==> (#[trigger] self.issued@[i])
            < self.next_id
    }

    /// Sets up the schema on `conn` (a no-op when it already exists) and
    /// continues id assignment above the largest stored id.
    pub fn from_connection(conn: rusqlite::Connection) -> (r: Result<StoreWorker, DataStoreError>)
        ensures
            match r {
                Ok(w) => w.wf() && w.issued@.len() == 0,
                Err(e) => e matches DataStoreError::Setup(_),
            },
    {
        let schema =
            "CREATE TABLE IF NOT EXISTS image (\
             image_id INTEGER PRIMARY KEY, \
             image_name TEXT NOT NULL, \
             image_hash TEXT NOT NULL, \
             image_width INTEGER NOT NULL, \
             image_height INTEGER NOT NULL, \
             image_type TEXT NOT NULL, \
             location_id INTEGER, \
             image_caption TEXT NOT NULL DEFAULT '', \
             image_description TEXT NOT NULL DEFAULT '', \
             image_rating INTEGER NOT NULL DEFAULT 0);";
        match run_batch(&conn, schema) {
            Ok(_) => {},
            Err(e) => {
                return Err(DataStoreError::Setup(error_text(&e)));
            },
        }
        let next_id: u32 = match max_image_id(&conn) {
            Ok(m) => match seed_next_id(m) {
                Ok(n) => n,
                Err(e) => {
                    return Err(e);
                },
            },
            Err(e) => {
                return Err(DataStoreError::Setup(error_text(&e)));
            },
        };
        Ok(StoreWorker { conn, next_id, issued: Ghost(Seq::empty()) })
    }

    /// Opens the database file at `path` and prepares the worker on it.
    pub fn open(path: &String) -> (r: Result<StoreWorker, DataStoreError>)
        ensures
            match r {
                Ok(w) => w.wf() && w.issued@.len() == 0,
                Err(e) => e matches DataStoreError::Connection(_) || e
                    matches DataStoreError::Setup(_),
            },
    {
        match open_db(path) {
            Ok(conn) => StoreWorker::from_connection(conn),
            Err(e) => Err(DataStoreError::Connection(error_text(&e))),
        }
    }

    /// Opens a private in-memory database and prepares the worker on it.
    pub fn open_in_memory() -> (r: Result<StoreWorker, DataStoreError>)
        ensures
            match r {
                Ok(w) => w.wf() && w.issued@.len() == 0,
                Err(e) => e matches DataStoreError::Connection(_) || e
                    matches DataStoreError::Setup(_),
            },
    {
        match open_db_in_memory() {
            Ok(conn) => StoreWorker::from_connection(conn),
            Err(e) => Err(DataStoreError::Connection(error_text(&e))),
        }
    }

    /// Persist `rec` under a fresh id.  A successful save hands out exactly
    /// the counter's value and bumps the counter, so no two successful
    /// saves ever return the same id; a failure changes nothing.
    pub fn save_image(&mut self, rec: &ImageInfo) -> (r: Result<u32, DataStoreError>)
        requires
            old(self).wf(),
        ensures
            final(self).wf(),
            match r {
                Ok(id) => {
                    &&& id == old(self).next_id
                    &&& old(self).next_id < u32::MAX
                    &&& final(self).next_id == old(self).next_id + 1
                    &&& final(self).issued@ == old(self).issued@.push(id)
                },
                Err(e) => {
                    &&& final(self).next_id == old(self).next_id
                    &&& final(self).issued@ == old(self).issued@
                    &&& e matches DataStoreError::Execute(_, _)
                },
            },
    {
        if self.next_id == u32::MAX {
            return Err(DataStoreError::Execute(
                String::from_str("INSERT INTO image"),
                String::from_str("image id space exhausted"),
            ));
        }
        let id = self.next_id;
        match insert_image_row(&self.conn, id, rec) {
            Ok(_) => {
                self.next_id = self.next_id + 1;
                proof {
                    self.issued@ = self.issued@.push(id);
                }
                Ok(id)
            },
            Err(e) => Err(DataStoreError::Execute(
                String::from_str("INSERT INTO image"),
                error_text(&e),
            )),
        }
    }

    /// The stored record whose path equals `name`, if one exists; a
    /// found record always carries that name.
    pub fn find_image_by_name(&self, name: &String) -> (r: Result<
        Option<ImageInfo>,
        DataStoreError,
    >)
        ensures
            r matches Ok(Some(rec)) ==> rec.name@ == name@,
            r matches Err(e) ==> e matches DataStoreError::QueryMap(_),
    {
        match query_image_by_name(&self.conn, name) {
            Ok(v) => Ok(v),
            Err(e) => Err(DataStoreError::QueryMap(error_text(&e))),
        }
    }

    /// The stored record with the given id, if one exists; a found
    /// record always carries that id.
    pub fn find_image_by_id(&self, id: u32) -> (r: Result<Option<ImageInfo>, DataStoreError>)
        ensures
            r matches Ok(Some(rec)) ==> rec.id == id,
            r matches Err(e) ==> e matches DataStoreError::QueryMap(_),
    {
        match query_image_by_id(&self.conn, id) {
            Ok(v) => Ok(v),
            Err(e) => Err(DataStoreError::QueryMap(error_text(&e))),
        }
    }

    /// Execute one request.  This is the whole protocol between callers and
    /// the store: lookups leave the id state untouched and answer `Found`;
    /// saves answer `Saved` with a fresh id or `Failed`, never silently.
    pub fn handle_request(&mut self, req: StoreRequest) -> (resp: StoreResponse)
        requires
            old(self).wf(),
        ensures
            final(self).wf(),
            match req {
                StoreRequest::Save(_) => match resp {
                    StoreResponse::Saved(id) => {
                        &&& id == old(self).next_id
                        &&& final(self).next_id == old(self).next_id + 1
                        &&& final(self).issued@ == old(self).issued@.push(id)
                    },
                    StoreResponse::Failed(_) => {
                        &&& final(self).next_id == old(self).next_id
                        &&& final(self).issued@ == old(self).issued@
                    },
                    StoreResponse::Found(_) => false,
                },
                StoreRequest::FindByPath(name) => {
                    &&& final(self).next_id == old(self).next_id
                    &&& final(self).issued@ == old(self).issued@
                    &&& !(resp matches StoreResponse::Saved(_))
                    &&& (resp matches StoreResponse::Found(Some(rec)) ==> rec.name@ == name@)
                },
                StoreRequest::FindById(id) => {
                    &&& final(self).next_id == old(self).next_id
                    &&& final(self).issued@ == old(self).issued@
                    &&& !(resp matches StoreResponse::Saved(_))
                    &&& (resp matches StoreResponse::Found(Some(rec)) ==> rec.id == id)
                },
            },
    {
        match req {
            StoreRequest::FindByPath(name) => match self.find_image_by_name(&name) {
                Ok(v) => StoreResponse::Found(v),
                Err(e) => StoreResponse::Failed(e),
            },
            StoreRequest::FindById(id) => match self.find_image_by_id(id) {
                Ok(v) => StoreResponse::Found(v),
                Err(e) => StoreResponse::Failed(e),
            },
            StoreRequest::Save(rec) => match self.save_image(&rec) {
                Ok(id) => StoreResponse::Saved(id),
                Err(e) => StoreResponse::Failed(e),
            },
        }
    }
}

/// Serialized saves never lose a write and never duplicate an id: however
/// many saves the worker has served, the ids it handed out are pairwise
/// distinct, one per successful save.
pub proof fn lemma_issued_ids_distinct(w: &StoreWorker)
    requires
        w.wf(),
    ensures
        forall|i: int, j: int| 0 <= i < j < w.issued@.len() ==> w.issued@[i] != w.issued@[j],
{
}

} // verus!
