//! Opening the index database: which files are taken, which are refused, and
//! which are recreated.

use crate::index::error::{ErrorView, IndexError, IoError, IoErrorKind};
use crate::index::sql::{text, Statement, StatementView, ValueView, FOREIGN_KEYS_ON};
use crate::model::texts;
use crate::path::{lossy_utf8, utf8_text, FilePath};
use crate::text::{signed_decimal, signed_decimal_text};
use vstd::prelude::*;

verus! {

/// The version of the schema, which the database holds as its user version.
/// Version 1 marks files of an earlier engine, which are stamped forward in
/// place, version 2 those of the present one. Files without a version are
/// recreated where they hold the whole schema; files of a later version, and
/// files with tables of something else, are refused.
pub const SCHEMA_VERSION: i64 = 2;

/// The tables and indexes of the index.
pub const SCHEMA_DDL: &'static str =
    "
CREATE TABLE IF NOT EXISTS roots (
  id INTEGER PRIMARY KEY,
  path TEXT NOT NULL UNIQUE,
  enabled INTEGER NOT NULL,
  priority INTEGER NOT NULL DEFAULT 0,
  include_hidden INTEGER NOT NULL DEFAULT 0,
  include_ignored INTEGER NOT NULL DEFAULT 0,
  updated_at INTEGER NOT NULL
);

CREATE TABLE IF NOT EXISTS entries (
  id INTEGER PRIMARY KEY,
  root_id INTEGER NOT NULL REFERENCES roots(id) ON DELETE CASCADE,
  path TEXT NOT NULL,
  path_lower TEXT NOT NULL DEFAULT '',
  name TEXT NOT NULL,
  name_lower TEXT NOT NULL,
  extension TEXT,
  kind INTEGER NOT NULL,
  size INTEGER,
  mtime INTEGER,
  hidden INTEGER NOT NULL DEFAULT 0,
  ignored INTEGER NOT NULL DEFAULT 0,
  sensitive INTEGER NOT NULL DEFAULT 0,
  deleted INTEGER NOT NULL DEFAULT 0,
  indexed_at INTEGER NOT NULL,
  UNIQUE(root_id, path)
);

CREATE TABLE IF NOT EXISTS terms (
  term TEXT NOT NULL,
  entry_id INTEGER NOT NULL REFERENCES entries(id) ON DELETE CASCADE,
  field INTEGER NOT NULL,
  weight INTEGER NOT NULL,
  PRIMARY KEY(term, entry_id, field)
);

CREATE TABLE IF NOT EXISTS root_state (
  root_id INTEGER PRIMARY KEY REFERENCES roots(id) ON DELETE CASCADE,
  generation INTEGER NOT NULL,
  last_full_scan_at INTEGER,
  last_incremental_at INTEGER,
  dirty INTEGER NOT NULL DEFAULT 0,
  entry_count INTEGER NOT NULL DEFAULT 0
);

CREATE INDEX IF NOT EXISTS idx_entries_root_deleted ON entries(root_id, deleted);
CREATE INDEX IF NOT EXISTS idx_entries_path ON entries(path);
CREATE INDEX IF NOT EXISTS idx_entries_ext ON entries(extension);
CREATE INDEX IF NOT EXISTS idx_terms_term ON terms(term);
CREATE INDEX IF NOT EXISTS idx_terms_entry ON terms(entry_id);
CREATE INDEX IF NOT EXISTS idx_entries_root_deleted_path_lower ON entries(root_id, deleted, path_lower);
";

/// Reads the version of the schema.
pub const READ_VERSION: &'static str = "PRAGMA user_version";

/// Stands before the version that is to be set.
pub const SET_VERSION_HEAD: &'static str = "PRAGMA user_version = ";

/// Stands after the version that is to be set.
pub const SET_VERSION_TAIL: &'static str = ";";

/// Looks for a table of the database's own.
pub const ANY_TABLE: &'static str =
    "SELECT name FROM sqlite_master WHERE type = 'table' AND name NOT LIKE 'sqlite_%'";

/// Looks for a table that is neither the index's nor the engine's own. To the
/// engine, names that differ only in the case of their letters are one.
pub const OTHER_TABLE: &'static str =
    "SELECT name FROM sqlite_master WHERE type = 'table' AND name NOT LIKE 'sqlite_%' AND name NOT LIKE '__turso_internal_%' AND lower(name) NOT IN ('roots', 'entries', 'terms', 'root_state')";

/// Looks for a table by its name.
pub const TABLE_EXISTS: &'static str =
    "SELECT name FROM sqlite_master WHERE type = 'table' AND name = ?1";

/// Stands before the path that an engine cannot open.
pub const PATH_NOT_UTF8: &'static str = "index database path is not valid UTF-8: ";

/// The batch that sets the version of the schema.
pub open spec fn set_version_text(version: i64) -> Seq<char> {
    SET_VERSION_HEAD@ + signed_decimal(version as int) + SET_VERSION_TAIL@
}

/// The batch that sets the version of the schema.
pub fn set_version_batch(version: i64) -> (r: String)
    ensures
        r@ == set_version_text(version),
{
    let mut out = SET_VERSION_HEAD.to_owned();
    out.append(signed_decimal_text(version).as_str());
    out.append(SET_VERSION_TAIL);
    out
}

/// The text of a database path. A path that is not UTF-8 is refused as invalid
/// input rather than changed into another, under which two files would be one.
pub fn database_path_text(path: &FilePath) -> (r: Result<String, IndexError>)
    ensures
        match r {
            Ok(s) => utf8_text(path@) == Some(s@),
            Err(error) => utf8_text(path@) is None && error@ == (ErrorView::Io {
                kind: IoErrorKind::InvalidInput,
                message: PATH_NOT_UTF8@ + lossy_utf8(path@),
            }),
        },
{
    match path.to_text() {
        Some(s) => Ok(s),
        None => {
            let mut message = PATH_NOT_UTF8.to_owned();
            message.append(path.to_lossy().as_str());
            Err(IndexError::Io(IoError { kind: IoErrorKind::InvalidInput, message }))
        },
    }
}

pub const WAL_SUFFIX: &'static str = "-wal";

pub const SHM_SUFFIX: &'static str = "-shm";

/// The files of a database: itself, its log and its shared memory.
pub open spec fn database_file_list(path: Seq<u8>) -> Seq<Seq<char>> {
    let raw = lossy_utf8(path);
    seq![raw, raw + WAL_SUFFIX@, raw + SHM_SUFFIX@]
}

/// The files of a database, to be removed before it is recreated.
pub fn database_files(path: &FilePath) -> (r: Vec<String>)
    ensures
        texts(r@) == database_file_list(path@),
{
    let raw = path.to_lossy();
    let mut wal = raw.clone();
    wal.append(WAL_SUFFIX);
    let mut shm = raw.clone();
    shm.append(SHM_SUFFIX);
    let r: Vec<String> = vec![raw, wal, shm];
    assert(texts(r@) =~= database_file_list(path@));
    r
}

/// How many tables the index has.
pub const TABLE_COUNT: usize = 4;

/// The names of the index's tables, in the order in which they are looked for.
pub open spec fn table_name(at: int) -> Seq<char> {
    if at == 0 {
        "roots"@
    } else if at == 1 {
        "entries"@
    } else if at == 2 {
        "terms"@
    } else {
        "root_state"@
    }
}

fn name_of_table(at: usize) -> (r: &'static str)
    ensures
        r@ == table_name(at as int),
{
    if at == 0 {
        "roots"
    } else if at == 1 {
        "entries"
    } else if at == 2 {
        "terms"
    } else {
        "root_state"
    }
}

/// How far an opening has come.
#[derive(Debug, Clone, Copy, PartialEq, Eq, Structural)]
pub enum OpenStage {
    /// The foreign keys are to be turned on.
    Keys,
    /// The version is to be read.
    Version,
    /// The database has no version: is there any table?
    AnyTable,
    /// The database has no version and some table: is the index's table at this
    /// position there?
    Table(usize),
    /// The database has this version: is there a table that is not the index's?
    OtherTable(i64),
    /// The schema is to be created; the version that was found.
    Schema(i64),
    /// The version is to be set.
    Stamp,
    /// The database can be used.
    Ready,
    /// The database is of a later version.
    TooNew(i64),
    /// The database holds the whole schema without a version.
    Unversioned,
    /// The database is not an index.
    Foreign,
}

impl OpenStage {
    /// The stage after a statement that gives no answer.
    pub open spec fn after_done(self) -> OpenStage {
        match self {
            OpenStage::Keys => OpenStage::Version,
            OpenStage::Schema(version) => if version < SCHEMA_VERSION {
                OpenStage::Stamp
            } else {
                OpenStage::Ready
            },
            OpenStage::Stamp => OpenStage::Ready,
            _ => self,
        }
    }

    /// The stage after the version is read: a later one is refused, any other
    /// calls for a look at the tables.
    pub open spec fn after_version(self, version: i64) -> OpenStage {
        if version > SCHEMA_VERSION {
            OpenStage::TooNew(version)
        } else if version == 0 {
            OpenStage::AnyTable
        } else {
            OpenStage::OtherTable(version)
        }
    }

    /// The stage after a look for a table. Without a version, a file without
    /// tables is fresh, one with all of the index's is to be recreated, and any
    /// other is foreign. With one, a file is foreign where it has a table that
    /// is not the index's.
    pub open spec fn after_look(self, found: bool) -> OpenStage {
        match self {
            OpenStage::AnyTable => if found {
                OpenStage::Table(0)
            } else {
                OpenStage::Schema(0)
            },
            OpenStage::Table(at) => if !found {
                OpenStage::Foreign
            } else if at + 1 >= TABLE_COUNT {
                OpenStage::Unversioned
            } else {
                OpenStage::Table((at + 1) as usize)
            },
            OpenStage::OtherTable(version) => if found {
                OpenStage::Foreign
            } else {
                OpenStage::Schema(version)
            },
            _ => self,
        }
    }
}

/// What an opening asks for.
#[derive(Debug, PartialEq, Eq)]
pub enum OpenRequest {
    /// Execute the statement.
    Execute(Statement),
    /// Execute the batch of statements.
    Batch(String),
    /// Read the number that the statement gives.
    ReadVersion(Statement),
    /// Find out whether the statement gives a row.
    Look(Statement),
    /// The database can be used.
    Ready,
    /// The database is refused.
    Refused(IndexError),
}

/// What an [`OpenRequest`] says.
pub enum OpenRequestView {
    Execute(StatementView),
    Batch(Seq<char>),
    ReadVersion(StatementView),
    Look(StatementView),
    Ready,
    Refused(ErrorView),
}

impl View for OpenRequest {
    type V = OpenRequestView;

    open spec fn view(&self) -> OpenRequestView {
        match self {
            OpenRequest::Execute(statement) => OpenRequestView::Execute(statement@),
            OpenRequest::Batch(batch) => OpenRequestView::Batch(batch@),
            OpenRequest::ReadVersion(statement) => OpenRequestView::ReadVersion(statement@),
            OpenRequest::Look(statement) => OpenRequestView::Look(statement@),
            OpenRequest::Ready => OpenRequestView::Ready,
            OpenRequest::Refused(error) => OpenRequestView::Refused(error@),
        }
    }
}

/// A statement without parameters.
pub open spec fn plain(sql: Seq<char>) -> StatementView {
    StatementView { sql, params: Seq::empty() }
}

/// What is asked for at a stage of the opening of a path.
pub open spec fn open_request(stage: OpenStage, path: Seq<u8>) -> OpenRequestView {
    match stage {
        OpenStage::Keys => OpenRequestView::Execute(plain(FOREIGN_KEYS_ON@)),
        OpenStage::Version => OpenRequestView::ReadVersion(plain(READ_VERSION@)),
        OpenStage::AnyTable => OpenRequestView::Look(plain(ANY_TABLE@)),
        OpenStage::OtherTable(_) => OpenRequestView::Look(plain(OTHER_TABLE@)),
        OpenStage::Table(at) => OpenRequestView::Look(
            StatementView {
                sql: TABLE_EXISTS@,
                params: seq![ValueView::Text(table_name(at as int))],
            },
        ),
        OpenStage::Schema(_) => OpenRequestView::Batch(SCHEMA_DDL@),
        OpenStage::Stamp => OpenRequestView::Batch(set_version_text(SCHEMA_VERSION)),
        OpenStage::Ready => OpenRequestView::Ready,
        OpenStage::TooNew(found) => OpenRequestView::Refused(
            ErrorView::SchemaTooNew { found, supported: SCHEMA_VERSION },
        ),
        OpenStage::Unversioned => OpenRequestView::Refused(ErrorView::RecreateRequired),
        OpenStage::Foreign => OpenRequestView::Refused(ErrorView::UnrecognizedDatabase { path }),
    }
}

fn plain_statement(sql: &str) -> (r: Statement)
    ensures
        r@ == plain(sql@),
{
    let r = Statement { sql: sql.to_owned(), params: Vec::new() };
    assert(r@.params =~= Seq::empty());
    r
}

/// An opening of the database at a path.
#[derive(Debug)]
pub struct OpenRun {
    path: FilePath,
    stage: OpenStage,
}

impl OpenRun {
    /// The path that is opened.
    pub closed spec fn target(self) -> Seq<u8> {
        self.path@
    }

    /// How far the opening has come.
    pub closed spec fn stage(self) -> OpenStage {
        self.stage
    }

    /// Begins to open a file that is there or is to be made.
    pub fn start(path: &FilePath) -> (r: Self)
        ensures
            r.target() == path@,
            r.stage() == OpenStage::Keys,
    {
        OpenRun { path: path.clone(), stage: OpenStage::Keys }
    }

    /// What to do next.
    pub fn request(&self) -> (r: OpenRequest)
        ensures
            r@ == open_request(self.stage(), self.target()),
    {
        match self.stage {
            OpenStage::Keys => OpenRequest::Execute(plain_statement(FOREIGN_KEYS_ON)),
            OpenStage::Version => OpenRequest::ReadVersion(plain_statement(READ_VERSION)),
            OpenStage::AnyTable => OpenRequest::Look(plain_statement(ANY_TABLE)),
            OpenStage::OtherTable(_) => OpenRequest::Look(plain_statement(OTHER_TABLE)),
            OpenStage::Table(at) => {
                let statement = Statement {
                    sql: TABLE_EXISTS.to_owned(),
                    params: vec![text(name_of_table(at))],
                };
                assert(statement@.params =~= seq![ValueView::Text(table_name(at as int))]);
                OpenRequest::Look(statement)
            },
            OpenStage::Schema(_) => OpenRequest::Batch(SCHEMA_DDL.to_owned()),
            OpenStage::Stamp => OpenRequest::Batch(set_version_batch(SCHEMA_VERSION)),
            OpenStage::Ready => OpenRequest::Ready,
            OpenStage::TooNew(found) => OpenRequest::Refused(
                IndexError::SchemaTooNew { found, supported: SCHEMA_VERSION },
            ),
            OpenStage::Unversioned => OpenRequest::Refused(IndexError::RecreateRequired),
            OpenStage::Foreign => OpenRequest::Refused(
                IndexError::UnrecognizedDatabase { path: self.path.clone() },
            ),
        }
    }

    /// A statement or batch was executed.
    pub fn on_done(&mut self)
        requires
            open_request(old(self).stage(), old(self).target()) is Execute || open_request(
                old(self).stage(),
                old(self).target(),
            ) is Batch,
        ensures
            final(self).target() == old(self).target(),
            final(self).stage() == old(self).stage().after_done(),
    {
        self.stage = match self.stage {
            OpenStage::Keys => OpenStage::Version,
            OpenStage::Schema(version) => if version < SCHEMA_VERSION {
                OpenStage::Stamp
            } else {
                OpenStage::Ready
            },
            OpenStage::Stamp => OpenStage::Ready,
            other => other,
        };
    }

    /// The version was read.
    pub fn on_version(&mut self, version: i64)
        requires
            old(self).stage() == OpenStage::Version,
        ensures
            final(self).target() == old(self).target(),
            final(self).stage() == old(self).stage().after_version(version),
    {
        self.stage = if version > SCHEMA_VERSION {
            OpenStage::TooNew(version)
        } else if version == 0 {
            OpenStage::AnyTable
        } else {
            OpenStage::OtherTable(version)
        };
    }

    /// A table was looked for.
    pub fn on_look(&mut self, found: bool)
        requires
            open_request(old(self).stage(), old(self).target()) is Look,
        ensures
            final(self).target() == old(self).target(),
            final(self).stage() == old(self).stage().after_look(found),
    {
        self.stage = match self.stage {
            OpenStage::AnyTable => if found {
                OpenStage::Table(0)
            } else {
                OpenStage::Schema(0)
            },
            OpenStage::Table(at) => if !found {
                OpenStage::Foreign
            } else if at < TABLE_COUNT - 1 {
                OpenStage::Table(at + 1)
            } else {
                OpenStage::Unversioned
            },
            OpenStage::OtherTable(version) => if found {
                OpenStage::Foreign
            } else {
                OpenStage::Schema(version)
            },
            other => other,
        };
    }
}

/// What to do after an attempt to open the database.
#[derive(Debug)]
pub enum AfterAttempt {
    /// Remove the files of the database and try once more.
    RecreateAndRetry,
    /// Give up.
    Fail(IndexError),
}

/// What to do after an attempt that failed: the first time that the database
/// is to be recreated it is; a second time is a failure of its own, as is
/// anything else.
pub fn after_failed_attempt(attempt: usize, error: IndexError) -> (r: AfterAttempt)
    ensures
        match r {
            AfterAttempt::RecreateAndRetry => error@ == ErrorView::RecreateRequired && attempt
                == 1,
            AfterAttempt::Fail(failure) => if error@ == ErrorView::RecreateRequired {
                attempt != 1 && failure@ == ErrorView::RecreateFailed(
                    Box::new(ErrorView::RecreateRequired),
                )
            } else {
                failure@ == error@
            },
        },
{
    match error {
        IndexError::RecreateRequired => if attempt == 1 {
            AfterAttempt::RecreateAndRetry
        } else {
            let failure = IndexError::RecreateFailed(Box::new(IndexError::RecreateRequired));
            assert(failure@ == ErrorView::RecreateFailed(Box::new(ErrorView::RecreateRequired))) by {
                reveal_with_fuel(<IndexError as View>::view, 2);
            }
            AfterAttempt::Fail(failure)
        },
        other => AfterAttempt::Fail(other),
    }
}

/// What an opening can find out of a database.
pub struct Database {
    pub version: i64,
    pub any_table: bool,
    /// Whether the index's table at a position is there.
    pub has_table: spec_fn(int) -> bool,
    /// Whether there is a table that is neither the index's nor the engine's.
    pub other_table: bool,
}

impl OpenStage {
    /// The stage after this one, where the database answers.
    pub open spec fn next(self, db: Database) -> OpenStage {
        match self {
            OpenStage::Version => self.after_version(db.version),
            OpenStage::AnyTable => self.after_look(db.any_table),
            OpenStage::Table(at) => self.after_look((db.has_table)(at as int)),
            OpenStage::OtherTable(_) => self.after_look(db.other_table),
            _ => self.after_done(),
        }
    }

    /// How many stages can follow this one at most.
    pub open spec fn distance(self) -> nat {
        match self {
            OpenStage::Keys => 9,
            OpenStage::Version => 8,
            OpenStage::AnyTable => 7,
            OpenStage::OtherTable(_) => 3,
            OpenStage::Table(at) => if at < TABLE_COUNT {
                (6 - at) as nat
            } else {
                3
            },
            OpenStage::Schema(_) => 2,
            OpenStage::Stamp => 1,
            _ => 0,
        }
    }

    /// The stage at which the opening of a database ends.
    pub open spec fn end(self, db: Database) -> OpenStage
        decreases self.distance(),
    {
        if self.distance() == 0 {
            self
        } else {
            self.next(db).end(db)
        }
    }

    /// The batches that are executed from this stage on, which are all that an
    /// opening writes.
    pub open spec fn batches(self, db: Database) -> Seq<Seq<char>>
        decreases self.distance(),
    {
        if self.distance() == 0 {
            Seq::empty()
        } else {
            let later = self.next(db).batches(db);
            match open_request(self, Seq::empty()) {
                OpenRequestView::Batch(batch) => seq![batch] + later,
                _ => later,
            }
        }
    }
}

/// Whether all of the index's tables are there.
pub open spec fn has_whole_schema(db: Database) -> bool {
    forall|at: int| 0 <= at < TABLE_COUNT ==> #[trigger] (db.has_table)(at)
}

/// Which databases are taken, recreated and refused. One of a later version is
/// refused as too new. Of those without a version, one that has all of the
/// index's tables is to be recreated, and one that has tables but not all of the
/// index's is refused as foreign. Of those with a version, one that has a table
/// that is not the index's is refused as foreign. Any other can be used: a fresh
/// one, and one of which some of the index's tables are missing.
pub proof fn opening_decides_by_version_and_tables(db: Database)
    ensures
        OpenStage::Keys.end(db) == if db.version > SCHEMA_VERSION {
            OpenStage::TooNew(db.version)
        } else if db.version == 0 && db.any_table {
            if has_whole_schema(db) {
                OpenStage::Unversioned
            } else {
                OpenStage::Foreign
            }
        } else if db.version != 0 && db.other_table {
            OpenStage::Foreign
        } else {
            OpenStage::Ready
        },
{
    reveal_with_fuel(OpenStage::end, 10);
    let has = db.has_table;
    assert(has_whole_schema(db) == (has(0) && has(1) && has(2) && has(3))) by {
        if has(0) && has(1) && has(2) && has(3) {
            assert forall|at: int| 0 <= at < TABLE_COUNT implies #[trigger] has(at) by {
                assert(at == 0 || at == 1 || at == 2 || at == 3);
            }
        }
    }
}

/// A database that is refused or to be recreated is not written to; one that
/// can be used gets the schema, and the version where it had an earlier one.
pub proof fn refused_databases_are_left_untouched(db: Database)
    ensures
        OpenStage::Keys.batches(db) == if OpenStage::Keys.end(db) != OpenStage::Ready {
            Seq::<Seq<char>>::empty()
        } else if db.version < SCHEMA_VERSION {
            seq![SCHEMA_DDL@, set_version_text(SCHEMA_VERSION)]
        } else {
            seq![SCHEMA_DDL@]
        },
{
    opening_decides_by_version_and_tables(db);
    reveal_with_fuel(OpenStage::end, 10);
    reveal_with_fuel(OpenStage::batches, 10);
    let none = Seq::<Seq<char>>::empty();
    let schema = SCHEMA_DDL@;
    let stamp = set_version_text(SCHEMA_VERSION);
    assert(seq![stamp] + none =~= seq![stamp]);
    assert(seq![schema] + seq![stamp] =~= seq![schema, stamp]);
    assert(seq![schema] + none =~= seq![schema]);
}

/// What each stage of an opening asks for, word for word. Only the foreign keys,
/// the schema and the version are written; the tables of the index are looked
/// for by their names.
pub proof fn an_opening_asks_in_these_words(path: Seq<u8>, version: i64)
    ensures
        open_request(OpenStage::Keys, path) == OpenRequestView::Execute(
            plain("PRAGMA foreign_keys = ON"@),
        ),
        open_request(OpenStage::Version, path) == OpenRequestView::ReadVersion(
            plain("PRAGMA user_version"@),
        ),
        open_request(OpenStage::AnyTable, path) == OpenRequestView::Look(
            plain(
                "SELECT name FROM sqlite_master WHERE type = 'table' AND name NOT LIKE 'sqlite_%'"@,
            ),
        ),
        open_request(OpenStage::OtherTable(version), path) == OpenRequestView::Look(
            plain(
                "SELECT name FROM sqlite_master WHERE type = 'table' AND name NOT LIKE 'sqlite_%' AND name NOT LIKE '__turso_internal_%' AND lower(name) NOT IN ('roots', 'entries', 'terms', 'root_state')"@,
            ),
        ),
        open_request(OpenStage::Table(0), path) == looks_for_table("roots"@),
        open_request(OpenStage::Table(1), path) == looks_for_table("entries"@),
        open_request(OpenStage::Table(2), path) == looks_for_table("terms"@),
        open_request(OpenStage::Table(3), path) == looks_for_table("root_state"@),
        open_request(OpenStage::Stamp, path) == OpenRequestView::Batch(
            "PRAGMA user_version = "@ + signed_decimal(2) + ";"@,
        ),
        open_request(OpenStage::Ready, path) == OpenRequestView::Ready,
        open_request(OpenStage::TooNew(version), path) == OpenRequestView::Refused(
            ErrorView::SchemaTooNew { found: version, supported: 2 },
        ),
        open_request(OpenStage::Unversioned, path) == OpenRequestView::Refused(
            ErrorView::RecreateRequired,
        ),
        open_request(OpenStage::Foreign, path) == OpenRequestView::Refused(
            ErrorView::UnrecognizedDatabase { path },
        ),
{
}

/// The statement that looks for a table.
pub open spec fn looks_for_table(name: Seq<char>) -> OpenRequestView {
    OpenRequestView::Look(
        StatementView {
            sql: "SELECT name FROM sqlite_master WHERE type = 'table' AND name = ?1"@,
            params: seq![ValueView::Text(name)],
        },
    )
}

/// The schema that a database gets: no two roots have one path, no two entries
/// of a root have one path, entries and states go with their root, and terms
/// with their entry.
pub proof fn a_database_gets_this_schema(version: i64, path: Seq<u8>)
    ensures
        open_request(OpenStage::Schema(version), path) == OpenRequestView::Batch(
            "
CREATE TABLE IF NOT EXISTS roots (
  id INTEGER PRIMARY KEY,
  path TEXT NOT NULL UNIQUE,
  enabled INTEGER NOT NULL,
  priority INTEGER NOT NULL DEFAULT 0,
  include_hidden INTEGER NOT NULL DEFAULT 0,
  include_ignored INTEGER NOT NULL DEFAULT 0,
  updated_at INTEGER NOT NULL
);

CREATE TABLE IF NOT EXISTS entries (
  id INTEGER PRIMARY KEY,
  root_id INTEGER NOT NULL REFERENCES roots(id) ON DELETE CASCADE,
  path TEXT NOT NULL,
  path_lower TEXT NOT NULL DEFAULT '',
  name TEXT NOT NULL,
  name_lower TEXT NOT NULL,
  extension TEXT,
  kind INTEGER NOT NULL,
  size INTEGER,
  mtime INTEGER,
  hidden INTEGER NOT NULL DEFAULT 0,
  ignored INTEGER NOT NULL DEFAULT 0,
  sensitive INTEGER NOT NULL DEFAULT 0,
  deleted INTEGER NOT NULL DEFAULT 0,
  indexed_at INTEGER NOT NULL,
  UNIQUE(root_id, path)
);

CREATE TABLE IF NOT EXISTS terms (
  term TEXT NOT NULL,
  entry_id INTEGER NOT NULL REFERENCES entries(id) ON DELETE CASCADE,
  field INTEGER NOT NULL,
  weight INTEGER NOT NULL,
  PRIMARY KEY(term, entry_id, field)
);

CREATE TABLE IF NOT EXISTS root_state (
  root_id INTEGER PRIMARY KEY REFERENCES roots(id) ON DELETE CASCADE,
  generation INTEGER NOT NULL,
  last_full_scan_at INTEGER,
  last_incremental_at INTEGER,
  dirty INTEGER NOT NULL DEFAULT 0,
  entry_count INTEGER NOT NULL DEFAULT 0
);

CREATE INDEX IF NOT EXISTS idx_entries_root_deleted ON entries(root_id, deleted);
CREATE INDEX IF NOT EXISTS idx_entries_path ON entries(path);
CREATE INDEX IF NOT EXISTS idx_entries_ext ON entries(extension);
CREATE INDEX IF NOT EXISTS idx_terms_term ON terms(term);
CREATE INDEX IF NOT EXISTS idx_terms_entry ON terms(entry_id);
CREATE INDEX IF NOT EXISTS idx_entries_root_deleted_path_lower ON entries(root_id, deleted, path_lower);
"@,
        ),
{
}

/// Which versions are taken: those up to 2. A fresh database and one of version 1
/// are stamped with version 2, one of version 2 is left as it is.
pub proof fn versions_up_to_two_are_taken(db: Database)
    ensures
        OpenStage::Keys.end(db) is TooNew <==> db.version > 2,
        OpenStage::Keys.end(db) == OpenStage::Ready ==> OpenStage::Keys.batches(db).len() == if db.version
            < 2 {
            2nat
        } else {
            1nat
        },
        db.version == 2 && !db.other_table ==> OpenStage::Keys.end(db) == OpenStage::Ready,
        db.version == 1 && !db.other_table ==> OpenStage::Keys.end(db) == OpenStage::Ready,
        db.version == 0 && !db.any_table ==> OpenStage::Keys.end(db) == OpenStage::Ready,
{
    opening_decides_by_version_and_tables(db);
    refused_databases_are_left_untouched(db);
}

/// The files of a database are itself, its log and its shared memory; a path that
/// is not UTF-8 is told as it reads.
pub proof fn databases_have_three_files(path: Seq<u8>)
    ensures
        database_file_list(path) == seq![
            lossy_utf8(path),
            lossy_utf8(path) + "-wal"@,
            lossy_utf8(path) + "-shm"@,
        ],
        PATH_NOT_UTF8@ == "index database path is not valid UTF-8: "@,
{
}

} // verus!
