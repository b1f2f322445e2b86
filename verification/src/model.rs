//! Records of the index: roots, files, job counters, and the error type.

use vstd::prelude::*;
use crate::text::{has_prefix, str_chars, string_from_chars};

verus! {

/// `rusqlite::Error`, carried inside [`AppError`].
#[verifier::external_type_specification]
#[verifier::external_body]
pub struct ExRusqliteError(rusqlite::Error);

/// `std::io::Error`, carried inside [`AppError`].
#[verifier::external_type_specification]
#[verifier::external_body]
pub struct ExIoError(std::io::Error);

/// `std::path::PathBuf`, carried inside [`AppState`].
#[verifier::external_type_specification]
#[verifier::external_body]
pub struct ExPathBuf(std::path::PathBuf);

/// Errors of the application, by the layer they come from.
#[derive(Debug)]
pub enum AppError {
    Db(rusqlite::Error),
    Indexer(String),
    Extractor(String),
    Llm(String),
    Search(String),
    Config(String),
    Tauri(String),
    Io(std::io::Error),
}

/// The `Display` text of a database error (`rusqlite::Error::to_string`).
#[verifier::external_body]
fn db_error_display(e: &rusqlite::Error) -> String {
    e.to_string()
}

/// The `Display` text of an I/O error (`std::io::Error::to_string`).
#[verifier::external_body]
fn io_error_display(e: &std::io::Error) -> String {
    e.to_string()
}

/// `prefix` followed by `msg`.
fn prefixed(prefix: &str, msg: &String) -> (r: String)
    ensures
        r@ == prefix@ + msg@,
{
    let mut t = str_chars(prefix);
    let m = str_chars(msg.as_str());
    crate::text::append_chars(&mut t, &m);
    string_from_chars(t)
}

/// The message of an error as shown to the user.
pub open spec fn message_of(e: AppError) -> Option<Seq<char>> {
    match e {
        AppError::Indexer(m) => Some("indexer error: "@ + m@),
        AppError::Extractor(m) => Some("extractor error: "@ + m@),
        AppError::Llm(m) => Some("LLM error: "@ + m@),
        AppError::Search(m) => Some("search error: "@ + m@),
        AppError::Config(m) => Some("config error: "@ + m@),
        AppError::Tauri(m) => Some("tauri error: "@ + m@),
        _ => None,
    }
}

impl AppError {
    /// The message shown to the user: the layer, a colon, and the detail. The detail of a
    /// database or I/O error is that error's own text.
    pub fn describe(&self) -> (r: String)
        ensures
            message_of(*self) matches Some(m) ==> r@ == m,
            *self is Db ==> has_prefix(r@, "database error: "@),
            *self is Io ==> has_prefix(r@, "I/O error: "@),
    {
        match self {
            AppError::Db(e) => {
                let d = db_error_display(e);
                let r = prefixed("database error: ", &d);
                proof {
                    assert(r@.subrange(0, "database error: "@.len() as int) =~= "database error: "@);
                }
                r
            },
            AppError::Indexer(m) => prefixed("indexer error: ", m),
            AppError::Extractor(m) => prefixed("extractor error: ", m),
            AppError::Llm(m) => prefixed("LLM error: ", m),
            AppError::Search(m) => prefixed("search error: ", m),
            AppError::Config(m) => prefixed("config error: ", m),
            AppError::Tauri(m) => prefixed("tauri error: ", m),
            AppError::Io(e) => {
                let d = io_error_display(e);
                let r = prefixed("I/O error: ", &d);
                proof {
                    assert(r@.subrange(0, "I/O error: "@.len() as int) =~= "I/O error: "@);
                }
                r
            },
        }
    }
}

/// Where the index lives and which Ollama server to use.
pub struct AppState {
    pub db_path: std::path::PathBuf,
    pub ollama_url: String,
}

/// A directory the user asked to index.
pub struct Root {
    pub id: i64,
    pub path: String,
    pub label: String,
    pub active: bool,
    pub created_at: i64,
    pub last_indexed_at: Option<i64>,
}

/// A root as the frontend receives it.
pub struct RootPayload {
    pub id: i64,
    pub path: String,
    pub label: String,
    pub active: bool,
    pub created_at: i64,
    pub last_indexed_at: Option<i64>,
}

impl From<Root> for RootPayload {
    fn from(r: Root) -> (p: Self) {
        RootPayload {
            id: r.id,
            path: r.path,
            label: r.label,
            active: r.active,
            created_at: r.created_at,
            last_indexed_at: r.last_indexed_at,
        }
    }
}

impl vstd::std_specs::convert::FromSpecImpl<Root> for RootPayload {
    open spec fn obeys_from_spec() -> bool {
        true
    }

    open spec fn from_spec(r: Root) -> Self {
        RootPayload {
            id: r.id,
            path: r.path,
            label: r.label,
            active: r.active,
            created_at: r.created_at,
            last_indexed_at: r.last_indexed_at,
        }
    }
}

/// An indexed file as the indexer reads it back.
pub struct FileRecord {
    pub id: i64,
    pub root_id: i64,
    pub rel_path: String,
    pub filename: String,
    pub fingerprint: String,
    pub model_version: String,
    pub mtime_ns: i64,
    pub size_bytes: i64,
    pub index_marker: i64,
}

/// Counters of an indexing job.
#[derive(Clone, Copy)]
pub struct JobCounts {
    pub files_total: i64,
    pub files_done: i64,
    pub files_added: i64,
    pub files_updated: i64,
    pub files_moved: i64,
    pub files_deleted: i64,
    pub error_count: i64,
}

impl Default for JobCounts {
    fn default() -> (r: Self)
        ensures
            r.files_total == 0 && r.files_done == 0 && r.files_added == 0 && r.files_updated == 0
                && r.files_moved == 0 && r.files_deleted == 0 && r.error_count == 0,
    {
        JobCounts {
            files_total: 0,
            files_done: 0,
            files_added: 0,
            files_updated: 0,
            files_moved: 0,
            files_deleted: 0,
            error_count: 0,
        }
    }
}

impl JobCounts {
    /// A file could not be read or extracted.
    pub fn record_error(&mut self)
        requires
            old(self).error_count < i64::MAX,
        ensures
            *final(self) == (JobCounts { error_count: (old(self).error_count + 1) as i64, ..*old(self) }),
    {
        self.error_count = self.error_count + 1;
    }

    /// A supported file was discovered.
    pub fn record_discovered(&mut self)
        requires
            old(self).files_total < i64::MAX,
        ensures
            *final(self) == (JobCounts { files_total: (old(self).files_total + 1) as i64, ..*old(self) }),
    {
        self.files_total = self.files_total + 1;
    }

    /// A file needed no work beyond stamping it as seen.
    pub fn record_unchanged(&mut self)
        requires
            old(self).files_done < i64::MAX,
        ensures
            *final(self) == (JobCounts { files_done: (old(self).files_done + 1) as i64, ..*old(self) }),
    {
        self.files_done = self.files_done + 1;
    }

    /// A file was found under a new path with the same content.
    pub fn record_moved(&mut self)
        requires
            old(self).files_done < i64::MAX,
            old(self).files_moved < i64::MAX,
        ensures
            *final(self) == (JobCounts {
                files_done: (old(self).files_done + 1) as i64,
                files_moved: (old(self).files_moved + 1) as i64,
                ..*old(self)
            }),
    {
        self.files_moved = self.files_moved + 1;
        self.files_done = self.files_done + 1;
    }

    /// A file's metadata was written: an update when it was indexed before, else an addition.
    pub fn record_stored(&mut self, previously_existed: bool)
        requires
            old(self).files_done < i64::MAX,
            old(self).files_updated < i64::MAX,
            old(self).files_added < i64::MAX,
        ensures
            previously_existed ==> *final(self) == (JobCounts {
                files_done: (old(self).files_done + 1) as i64,
                files_updated: (old(self).files_updated + 1) as i64,
                ..*old(self)
            }),
            !previously_existed ==> *final(self) == (JobCounts {
                files_done: (old(self).files_done + 1) as i64,
                files_added: (old(self).files_added + 1) as i64,
                ..*old(self)
            }),
    {
        if previously_existed {
            self.files_updated = self.files_updated + 1;
        } else {
            self.files_added = self.files_added + 1;
        }
        self.files_done = self.files_done + 1;
    }
}

/// What `Path::new(path).file_name()` returns, as text.
pub uninterp spec fn path_file_name(path: Seq<char>) -> Option<Seq<char>>;

/// `Path::new(path).file_name().and_then(|n| n.to_str())` as a `String`.
#[verifier::external_body]
pub(crate) fn file_name_of(path: &str) -> (r: Option<String>)
    ensures
        match r {
            Some(n) => path_file_name(path@) == Some(n@),
            None => path_file_name(path@) is None,
        },
{
    std::path::Path::new(path).file_name().and_then(|n| n.to_str()).map(|n| n.to_string())
}

/// Message of a root path without a final component.
pub open spec fn no_label_message(path: Seq<char>) -> Seq<char> {
    "root path has no valid filename component: "@ + path
}

/// The label of a new root: the final component of its path.
pub fn root_label(path: &str) -> (r: Result<String, AppError>)
    ensures
        match path_file_name(path@) {
            Some(n) => r matches Ok(l) && l@ == n,
            None => r matches Err(AppError::Config(m)) && m@ == no_label_message(path@),
        },
{
    match file_name_of(path) {
        Some(n) => Ok(n),
        None => {
            let mut m = str_chars("root path has no valid filename component: ");
            let p = str_chars(path);
            crate::text::append_chars(&mut m, &p);
            Err(AppError::Config(string_from_chars(m)))
        },
    }
}

} // verus!

verus! {

/// What adding a root does, given the root already stored under the same path.
#[derive(Clone, Copy, Debug, PartialEq, Eq, Structural)]
pub enum RootAction {
    /// No root has this path: insert one.
    Insert,
    /// The root was removed earlier: make it active again and return it.
    Reactivate { id: i64 },
    /// The root is active already: return it unchanged.
    Existing { id: i64 },
}

/// Adding a path that is already a root never creates a second one: an inactive root is
/// reactivated, an active one returned as it is.
pub fn root_action(existing: Option<&Root>) -> (r: RootAction)
    ensures
        match existing {
            None => r == RootAction::Insert,
            Some(root) => if root.active {
                r == RootAction::Existing { id: root.id }
            } else {
                r == RootAction::Reactivate { id: root.id }
            },
        },
{
    match existing {
        None => RootAction::Insert,
        Some(root) => if root.active {
            RootAction::Existing { id: root.id }
        } else {
            RootAction::Reactivate { id: root.id }
        },
    }
}

/// One step of bringing the database schema up to date.
#[derive(Clone, Copy, Debug, PartialEq, Eq, Structural)]
pub enum Migration {
    /// Create the tables, indexes and triggers, and record schema version 1.
    CreateSchema,
    /// Add the chunk embedding column (version 2).
    AddEmbeddings,
    /// Move embeddings into the vector index table (version 3).
    AddVectorIndex,
}

/// The migrations that remain, in order, for a database at `version` (`None` when the
/// database has no schema yet). A version past the last known one needs none.
pub open spec fn pending_migrations(version: Option<i64>) -> Seq<Migration> {
    match version {
        None => seq![Migration::CreateSchema, Migration::AddEmbeddings, Migration::AddVectorIndex],
        Some(v) => if v == 1 {
            seq![Migration::AddEmbeddings, Migration::AddVectorIndex]
        } else if v == 2 {
            seq![Migration::AddVectorIndex]
        } else {
            seq![]
        },
    }
}

/// Which migrations to run on a database whose recorded schema version is `version`.
pub fn migrations_for(version: Option<i64>) -> (r: Vec<Migration>)
    ensures
        r@ == pending_migrations(version),
{
    match version {
        None => vec![Migration::CreateSchema, Migration::AddEmbeddings, Migration::AddVectorIndex],
        Some(v) => if v == 1 {
            vec![Migration::AddEmbeddings, Migration::AddVectorIndex]
        } else if v == 2 {
            vec![Migration::AddVectorIndex]
        } else {
            Vec::new()
        },
    }
}

/// Every upgrade path ends with the vector-index migration (version 3), and a database at
/// version 3 needs no migration, so migrating twice does nothing the second time.
pub proof fn lemma_migrations_end_current(version: Option<i64>)
    ensures
        pending_migrations(version).len() > 0 ==> pending_migrations(version).last()
            == Migration::AddVectorIndex,
        pending_migrations(Some(3)).len() == 0,
{
}

} // verus!
