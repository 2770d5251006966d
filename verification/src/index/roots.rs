//! The roots of the index and their state: how they are stored, what is
//! reported of them, and which of them a repair refreshes.

use crate::index::sql::{flag, flag_value, SqlValue, Statement, StatementView, ValueView};
use crate::model::{RootView, SearchRoot};
use crate::path::{lossy_utf8, FilePath};
use vstd::prelude::*;
use vstd::utf8::encode_utf8;

verus! {

/// Stores a root, or stores it anew where its path is known.
pub const UPSERT_ROOT: &'static str =
    "INSERT INTO roots (path, enabled, priority, include_hidden, include_ignored, updated_at) VALUES (?1, ?2, ?3, ?4, ?5, ?6) ON CONFLICT(path) DO UPDATE SET enabled = excluded.enabled, priority = excluded.priority, include_hidden = excluded.include_hidden, include_ignored = excluded.include_ignored, updated_at = excluded.updated_at";

/// Finds the id of the root with a path.
pub const SELECT_ROOT_ID: &'static str = "SELECT id FROM roots WHERE path = ?1";

/// Records a rebuild of a root: the next generation, scanned in full, clean.
pub const RECORD_FULL_SCAN: &'static str =
    "INSERT INTO root_state (root_id, generation, last_full_scan_at, last_incremental_at, dirty, entry_count) VALUES (?1, COALESCE((SELECT generation + 1 FROM root_state WHERE root_id = ?1), 1), ?2, NULL, 0, ?3) ON CONFLICT(root_id) DO UPDATE SET generation = root_state.generation + 1, last_full_scan_at = excluded.last_full_scan_at, dirty = 0, entry_count = excluded.entry_count";

/// Records a refresh of a root: the next generation, scanned incrementally.
pub const RECORD_INCREMENTAL_SCAN: &'static str =
    "INSERT INTO root_state (root_id, generation, last_full_scan_at, last_incremental_at, dirty, entry_count) VALUES (?1, COALESCE((SELECT generation + 1 FROM root_state WHERE root_id = ?1), 1), NULL, ?2, ?3, ?4) ON CONFLICT(root_id) DO UPDATE SET generation = root_state.generation + 1, last_incremental_at = excluded.last_incremental_at, dirty = excluded.dirty, entry_count = excluded.entry_count";

/// Records that a crawl of a root met errors: the generation stays, the root
/// is dirty.
pub const RECORD_FAILED_SCAN: &'static str =
    "INSERT INTO root_state (root_id, generation, last_full_scan_at, last_incremental_at, dirty, entry_count) VALUES (?1, COALESCE((SELECT generation FROM root_state WHERE root_id = ?1), 0), NULL, NULL, 1, ?2) ON CONFLICT(root_id) DO UPDATE SET dirty = 1, entry_count = excluded.entry_count";

/// Marks a root as dirty and leaves the rest of its state alone.
pub const MARK_ROOT_DIRTY: &'static str =
    "INSERT INTO root_state (root_id, generation, last_full_scan_at, last_incremental_at, dirty, entry_count) VALUES (?1, COALESCE((SELECT generation FROM root_state WHERE root_id = ?1), 0), NULL, NULL, 1, ?2) ON CONFLICT(root_id) DO UPDATE SET dirty = 1";

/// Reads the state of every root, in the order of their paths.
pub const SELECT_STATUS: &'static str =
    "SELECT r.path, COALESCE(s.entry_count, 0), COALESCE(s.generation, 0), COALESCE(s.dirty, 0), s.last_full_scan_at, s.last_incremental_at FROM roots r LEFT JOIN root_state s ON s.root_id = r.id ORDER BY r.path";

/// The statement that stores a root.
pub open spec fn upsert_root_view(root: RootView, now: i64) -> StatementView {
    StatementView {
        sql: UPSERT_ROOT@,
        params: seq![
            ValueView::Text(lossy_utf8(root.path)),
            flag_value(root.enabled),
            ValueView::Integer(root.priority as i64),
            flag_value(root.include_hidden),
            flag_value(root.include_ignored),
            ValueView::Integer(now),
        ],
    }
}

/// The statement that stores a root.
pub fn upsert_root_statement(root: &SearchRoot, now: i64) -> (r: Statement)
    ensures
        r@ == upsert_root_view(root@, now),
{
    let r = Statement {
        sql: UPSERT_ROOT.to_owned(),
        params: vec![
            SqlValue::Text(root.path.to_lossy()),
            flag(root.enabled),
            SqlValue::Integer(root.priority as i64),
            flag(root.include_hidden),
            flag(root.include_ignored),
            SqlValue::Integer(now),
        ],
    };
    assert(r@.params =~= seq![
        ValueView::Text(lossy_utf8(root@.path)),
        flag_value(root@.enabled),
        ValueView::Integer(root@.priority as i64),
        flag_value(root@.include_hidden),
        flag_value(root@.include_ignored),
        ValueView::Integer(now),
    ]);
    r
}

/// The statement that finds the id of a root.
pub open spec fn root_id_view(path: Seq<u8>) -> StatementView {
    StatementView { sql: SELECT_ROOT_ID@, params: seq![ValueView::Text(lossy_utf8(path))] }
}

/// The statement that finds the id of a root.
pub fn select_root_id_statement(root: &SearchRoot) -> (r: Statement)
    ensures
        r@ == root_id_view(root@.path),
{
    let r = Statement {
        sql: SELECT_ROOT_ID.to_owned(),
        params: vec![SqlValue::Text(root.path.to_lossy())],
    };
    assert(r@.params =~= seq![ValueView::Text(lossy_utf8(root@.path))]);
    r
}

/// The statement that records a rebuild of a root.
pub open spec fn record_full_scan_view(root_id: i64, now: i64, count: i64) -> StatementView {
    StatementView {
        sql: RECORD_FULL_SCAN@,
        params: seq![
            ValueView::Integer(root_id),
            ValueView::Integer(now),
            ValueView::Integer(count),
        ],
    }
}

/// The statement that records a rebuild of a root.
pub fn record_full_scan_statement(root_id: i64, now: i64, count: i64) -> (r: Statement)
    ensures
        r@ == record_full_scan_view(root_id, now, count),
{
    let r = Statement {
        sql: RECORD_FULL_SCAN.to_owned(),
        params: vec![SqlValue::Integer(root_id), SqlValue::Integer(now), SqlValue::Integer(count)],
    };
    assert(r@.params =~= seq![
        ValueView::Integer(root_id),
        ValueView::Integer(now),
        ValueView::Integer(count),
    ]);
    r
}

/// The statement that records a refresh of a root.
pub open spec fn record_incremental_scan_view(root_id: i64, now: i64, count: i64) -> StatementView {
    StatementView {
        sql: RECORD_INCREMENTAL_SCAN@,
        params: seq![
            ValueView::Integer(root_id),
            ValueView::Integer(now),
            flag_value(false),
            ValueView::Integer(count),
        ],
    }
}

/// The statement that records a refresh of a root. A refresh whose crawl met
/// errors is not recorded by it, so the root is always recorded as clean.
pub fn record_incremental_scan_statement(root_id: i64, now: i64, count: i64) -> (r: Statement)
    ensures
        r@ == record_incremental_scan_view(root_id, now, count),
{
    let r = Statement {
        sql: RECORD_INCREMENTAL_SCAN.to_owned(),
        params: vec![
            SqlValue::Integer(root_id),
            SqlValue::Integer(now),
            flag(false),
            SqlValue::Integer(count),
        ],
    };
    assert(r@.params =~= seq![
        ValueView::Integer(root_id),
        ValueView::Integer(now),
        flag_value(false),
        ValueView::Integer(count),
    ]);
    r
}

/// The statement that records that a crawl of a root met errors.
pub open spec fn record_failed_scan_view(root_id: i64, count: i64) -> StatementView {
    StatementView {
        sql: RECORD_FAILED_SCAN@,
        params: seq![ValueView::Integer(root_id), ValueView::Integer(count)],
    }
}

/// The statement that records that a crawl of a root met errors.
pub fn record_failed_scan_statement(root_id: i64, count: i64) -> (r: Statement)
    ensures
        r@ == record_failed_scan_view(root_id, count),
{
    let r = Statement {
        sql: RECORD_FAILED_SCAN.to_owned(),
        params: vec![SqlValue::Integer(root_id), SqlValue::Integer(count)],
    };
    assert(r@.params =~= seq![ValueView::Integer(root_id), ValueView::Integer(count)]);
    r
}

/// The statement that marks a root as dirty.
pub open spec fn mark_root_dirty_view(root_id: i64, count: i64) -> StatementView {
    StatementView {
        sql: MARK_ROOT_DIRTY@,
        params: seq![ValueView::Integer(root_id), ValueView::Integer(count)],
    }
}

/// The statement that marks a root as dirty.
pub fn mark_root_dirty_statement(root_id: i64, count: i64) -> (r: Statement)
    ensures
        r@ == mark_root_dirty_view(root_id, count),
{
    let r = Statement {
        sql: MARK_ROOT_DIRTY.to_owned(),
        params: vec![SqlValue::Integer(root_id), SqlValue::Integer(count)],
    };
    assert(r@.params =~= seq![ValueView::Integer(root_id), ValueView::Integer(count)]);
    r
}

/// The statement that reads the state of every root.
pub open spec fn status_view() -> StatementView {
    StatementView { sql: SELECT_STATUS@, params: Seq::empty() }
}

/// The statement that reads the state of every root.
pub fn status_statement() -> (r: Statement)
    ensures
        r@ == status_view(),
{
    let r = Statement { sql: SELECT_STATUS.to_owned(), params: Vec::new() };
    assert(r@.params =~= Seq::empty());
    r
}

/// The state of a root as it is read.
#[derive(Debug, Clone, PartialEq, Eq)]
pub struct StatusColumns {
    pub path: String,
    pub entry_count: i64,
    pub generation: i64,
    pub dirty: i64,
    pub last_full_scan_at: Option<i64>,
    pub last_incremental_at: Option<i64>,
}

/// The state of a root.
#[derive(Debug, PartialEq, Eq)]
pub struct IndexRootStatus {
    pub path: FilePath,
    pub entry_count: usize,
    pub generation: i64,
    pub dirty: bool,
    pub last_full_scan_at: Option<i64>,
    pub last_incremental_at: Option<i64>,
}

/// The state of a root.
pub type RootStatus = IndexRootStatus;

/// What an [`IndexRootStatus`] says.
pub struct StatusView {
    pub path: Seq<u8>,
    pub entry_count: usize,
    pub generation: i64,
    pub dirty: bool,
    pub last_full_scan_at: Option<i64>,
    pub last_incremental_at: Option<i64>,
}

impl View for IndexRootStatus {
    type V = StatusView;

    open spec fn view(&self) -> StatusView {
        StatusView {
            path: self.path@,
            entry_count: self.entry_count,
            generation: self.generation,
            dirty: self.dirty,
            last_full_scan_at: self.last_full_scan_at,
            last_incremental_at: self.last_incremental_at,
        }
    }
}

/// What a list of states says.
pub open spec fn status_views(s: Seq<IndexRootStatus>) -> Seq<StatusView> {
    s.map_values(|x: IndexRootStatus| x@)
}

/// What the columns of a root say of it; a count that is none reads as zero.
pub open spec fn status_of(row: StatusColumns) -> StatusView {
    StatusView {
        path: encode_utf8(row.path@),
        entry_count: if 0 <= row.entry_count <= usize::MAX {
            row.entry_count as usize
        } else {
            0
        },
        generation: row.generation,
        dirty: row.dirty != 0,
        last_full_scan_at: row.last_full_scan_at,
        last_incremental_at: row.last_incremental_at,
    }
}

/// The state of a root from its columns.
pub fn root_status(row: &StatusColumns) -> (r: RootStatus)
    ensures
        r@ == status_of(*row),
{
    let entry_count: usize = if row.entry_count >= 0 && row.entry_count as u64 <= usize::MAX as u64 {
        row.entry_count as usize
    } else {
        0
    };
    IndexRootStatus {
        path: FilePath::from_text(row.path.as_str()),
        entry_count,
        generation: row.generation,
        dirty: row.dirty != 0,
        last_full_scan_at: row.last_full_scan_at,
        last_incremental_at: row.last_incremental_at,
    }
}

/// What is reported of a root is what its columns say: the path of the text, the
/// generation, the times, and that it is dirty where the column is not zero. A
/// count that is negative or too large reads as zero.
pub proof fn states_tell_of_their_columns(row: StatusColumns)
    ensures
        status_of(row).path == encode_utf8(row.path@),
        status_of(row).generation == row.generation,
        status_of(row).dirty <==> row.dirty != 0,
        status_of(row).last_full_scan_at == row.last_full_scan_at,
        status_of(row).last_incremental_at == row.last_incremental_at,
        0 <= row.entry_count <= usize::MAX ==> status_of(row).entry_count == row.entry_count,
        row.entry_count < 0 || row.entry_count > usize::MAX ==> status_of(row).entry_count == 0,
{
}

} // verus!
