//! What values say.
//!
//! Contracts speak of what a value says: of the text of a string, of the bytes
//! of a path, of the elements of a list. Each field of a value is said under its
//! own name.

use crate::index::candidates::{candidate_views, column_views, result_views, CandidateColumns, CandidateRow, SearchResult};
use crate::index::roots::{status_views, IndexRootStatus};
use crate::index::rows::{crawled_views, term_views, CrawledEntry, TermRow};
use crate::index::search::IndexedSearchOutcome;
use crate::index::sql::{flag_value, optional_integer, optional_text, statement_views, values, SqlValue, Statement, ValueView};
use crate::model::{root_views, texts, PolicyDecision, SearchConfig, SearchQuery, SearchRoot, DEFAULT_LIMIT};
use crate::snapshot::{node_views, snapshot_root_views, ScanMetadata, SnapshotEnvelope, SnapshotNode, SnapshotRoot};
use vstd::prelude::*;

verus! {

/// Whether an optional text says the same as an optional string.
pub open spec fn says(text: Option<Seq<char>>, string: Option<String>) -> bool {
    match string {
        Some(s) => text == Some(s@),
        None => text is None,
    }
}

/// A list of strings says their texts, one by one.
pub proof fn lists_say_their_texts(list: Seq<String>)
    ensures
        texts(list).len() == list.len(),
        forall|i: int| 0 <= i < list.len() ==> #[trigger] texts(list)[i] == list[i]@,
{
}

/// A root says its path, whether it is enabled, its priority, and what it shows.
pub proof fn roots_say_what_they_hold(root: SearchRoot, config: SearchConfig)
    ensures
        root@.path == root.path@,
        root@.enabled == root.enabled,
        root@.priority == root.priority,
        root@.include_hidden == root.include_hidden,
        root@.include_ignored == root.include_ignored,
        config@.len() == config.roots@.len(),
        config@ == root_views(config.roots@),
        forall|i: int| 0 <= i < config@.len() ==> #[trigger] config@[i] == config.roots@[i]@,
{
}

/// A query says its text, what it lets through, its extensions and its limit.
pub proof fn queries_say_what_they_hold(query: SearchQuery)
    ensures
        query@.query == query.query@,
        query@.include_files == query.include_files,
        query@.include_directories == query.include_directories,
        query@.include_hidden == query.include_hidden,
        query@.include_ignored == query.include_ignored,
        query@.extensions == texts(query.extensions@),
        query@.limit == query.limit,
{
}

/// A decision says its path, what was decided, its root, the flags and the
/// reasons.
pub proof fn decisions_say_what_they_hold(decision: PolicyDecision)
    ensures
        decision@.path == decision.path@,
        decision@.allowed == decision.allowed,
        decision.root matches Some(root) ==> decision@.root == Some(root@),
        decision.root is None ==> decision@.root is None,
        decision@.root_priority == decision.root_priority,
        decision@.hidden == decision.hidden,
        decision@.ignored == decision.ignored,
        decision@.sensitive == decision.sensitive,
        decision@.reasons == texts(decision.reasons@),
{
}

/// A crawled entry says its path, kind, size and time, and the flags of its
/// decision.
pub proof fn crawled_entries_say_what_they_hold(entries: Seq<CrawledEntry>, i: int)
    requires
        0 <= i < entries.len(),
    ensures
        crawled_views(entries).len() == entries.len(),
        crawled_views(entries)[i].path == entries[i].path@,
        crawled_views(entries)[i].kind == entries[i].kind,
        crawled_views(entries)[i].size == entries[i].size,
        crawled_views(entries)[i].mtime == entries[i].mtime,
        crawled_views(entries)[i].hidden == entries[i].decision.hidden,
        crawled_views(entries)[i].ignored == entries[i].decision.ignored,
        crawled_views(entries)[i].sensitive == entries[i].decision.sensitive,
{
}

/// A term says its text, its field and its weight.
pub proof fn terms_say_what_they_hold(rows: Seq<TermRow>, i: int)
    requires
        0 <= i < rows.len(),
    ensures
        term_views(rows).len() == rows.len(),
        term_views(rows)[i].term == rows[i].term@,
        term_views(rows)[i].field == rows[i].field,
        term_views(rows)[i].weight == rows[i].weight,
{
}

/// A statement says its text and its parameters, in order; a truth value is one
/// or zero, and a missing value is null.
pub proof fn statements_say_what_they_hold(list: Seq<Statement>, i: int, k: int)
    requires
        0 <= i < list.len(),
        0 <= k < list[i].params@.len(),
    ensures
        statement_views(list).len() == list.len(),
        statement_views(list)[i].sql == list[i].sql@,
        statement_views(list)[i].params == values(list[i].params@),
        values(list[i].params@).len() == list[i].params@.len(),
        match list[i].params@[k] {
            SqlValue::Null => values(list[i].params@)[k] == ValueView::Null,
            SqlValue::Integer(n) => values(list[i].params@)[k] == ValueView::Integer(n),
            SqlValue::Text(s) => values(list[i].params@)[k] == ValueView::Text(s@),
        },
{
}

/// How truth values and values that may be missing are held.
pub proof fn values_are_held_so(b: bool, n: Option<i64>, s: Option<Seq<char>>)
    ensures
        b ==> flag_value(b) == ValueView::Integer(1),
        !b ==> flag_value(b) == ValueView::Integer(0),
        n is Some ==> optional_integer(n) == ValueView::Integer(n->0),
        n is None ==> optional_integer(n) == ValueView::Null,
        s is Some ==> optional_text(s) == ValueView::Text(s->0),
        s is None ==> optional_text(s) == ValueView::Null,
{
}

/// The columns of a candidate say what they hold, and so does the candidate.
pub proof fn candidates_say_what_they_hold(
    columns: Seq<CandidateColumns>,
    rows: Seq<CandidateRow>,
    i: int,
    k: int,
)
    requires
        0 <= i < columns.len(),
        0 <= k < rows.len(),
    ensures
        column_views(columns).len() == columns.len(),
        column_views(columns)[i].path == columns[i].path@,
        column_views(columns)[i].kind == columns[i].kind,
        column_views(columns)[i].priority == columns[i].priority,
        column_views(columns)[i].size == columns[i].size,
        column_views(columns)[i].mtime == columns[i].mtime,
        candidate_views(rows).len() == rows.len(),
        candidate_views(rows)[k].path == rows[k].path@,
        candidate_views(rows)[k].kind == rows[k].kind,
        candidate_views(rows)[k].root_priority == rows[k].root_priority,
        candidate_views(rows)[k].byte_size == rows[k].byte_size,
        candidate_views(rows)[k].modified_unix_seconds == rows[k].modified_unix_seconds,
{
}

/// A result says what it holds.
pub proof fn results_say_what_they_hold(results: Seq<SearchResult>, i: int)
    requires
        0 <= i < results.len(),
    ensures
        result_views(results).len() == results.len(),
        result_views(results)[i].path == results[i].path@,
        result_views(results)[i].score == results[i].score,
        result_views(results)[i].provider == results[i].provider@,
        result_views(results)[i].matches == results[i].matches@,
        result_views(results)[i].kind == results[i].kind,
        result_views(results)[i].byte_size == results[i].byte_size,
        result_views(results)[i].modified_unix_seconds == results[i].modified_unix_seconds,
{
}

/// An outcome says what it holds.
pub proof fn outcomes_say_what_they_hold(outcome: IndexedSearchOutcome)
    ensures
        outcome@.candidate_count == outcome.candidate_count,
        outcome@.results == result_views(outcome.results@),
        outcome@.truncated == outcome.truncated,
        outcome@.coverage == outcome.coverage,
{
}

/// The state of a root says what it holds.
pub proof fn states_say_what_they_hold(list: Seq<IndexRootStatus>, i: int)
    requires
        0 <= i < list.len(),
    ensures
        status_views(list).len() == list.len(),
        status_views(list)[i].path == list[i].path@,
        status_views(list)[i].entry_count == list[i].entry_count,
        status_views(list)[i].generation == list[i].generation,
        status_views(list)[i].dirty == list[i].dirty,
        status_views(list)[i].last_full_scan_at == list[i].last_full_scan_at,
        status_views(list)[i].last_incremental_at == list[i].last_incremental_at,
{
}

/// A node of a snapshot says what it holds.
pub proof fn nodes_say_what_they_hold(nodes: Seq<SnapshotNode>, i: int)
    requires
        0 <= i < nodes.len(),
    ensures
        node_views(nodes).len() == nodes.len(),
        node_views(nodes)[i].id == nodes[i].id@,
        says(node_views(nodes)[i].parent_id, nodes[i].parent_id),
        node_views(nodes)[i].root_id == nodes[i].root_id@,
        says(node_views(nodes)[i].name, nodes[i].name),
        says(node_views(nodes)[i].relative_path, nodes[i].relative_path),
        node_views(nodes)[i].kind == nodes[i].kind,
        node_views(nodes)[i].logical_bytes == nodes[i].logical_bytes,
        node_views(nodes)[i].allocated_bytes == nodes[i].allocated_bytes,
        node_views(nodes)[i].unique_allocated_bytes == nodes[i].unique_allocated_bytes,
        node_views(nodes)[i].child_count == nodes[i].child_count,
        says(node_views(nodes)[i].mtime, nodes[i].mtime),
        says(node_views(nodes)[i].file_identity, nodes[i].file_identity),
        says(node_views(nodes)[i].hardlink_group, nodes[i].hardlink_group),
        node_views(nodes)[i].flags == nodes[i].flags@,
        node_views(nodes)[i].scan_state == nodes[i].scan_state,
        node_views(nodes)[i].error_refs == texts(nodes[i].error_refs@),
{
}

/// A snapshot says what it holds.
pub proof fn snapshots_say_what_they_hold(
    envelope: SnapshotEnvelope,
    scan: ScanMetadata,
    roots: Seq<SnapshotRoot>,
    i: int,
)
    requires
        0 <= i < roots.len(),
    ensures
        envelope@.format == envelope.format@,
        envelope@.schema_version == envelope.schema_version@,
        envelope@.producer_name == envelope.producer.name@,
        envelope@.producer_version == envelope.producer.version@,
        envelope@.scan == envelope.scan@,
        envelope@.roots == snapshot_root_views(envelope.roots@),
        envelope@.nodes == node_views(envelope.nodes@),
        envelope@.errors == envelope.errors@,
        envelope@.summary == envelope.summary,
        scan@.id == scan.id@,
        says(scan@.started_at, scan.started_at),
        says(scan@.completed_at, scan.completed_at),
        scan@.status == scan.status,
        scan@.size_policy == scan.size_policy,
        scan@.hardlink_policy == scan.hardlink_policy,
        scan@.symlink_policy == scan.symlink_policy,
        scan@.privacy_mode == scan.privacy_mode,
        snapshot_root_views(roots).len() == roots.len(),
        snapshot_root_views(roots)[i].id == roots[i].id@,
        snapshot_root_views(roots)[i].label == roots[i].label@,
        says(snapshot_root_views(roots)[i].relative_path, roots[i].relative_path),
{
}

/// A query that does not say asks for fifty results.
pub proof fn fifty_results_are_asked_for()
    ensures
        DEFAULT_LIMIT == 50,
{
}

} // verus!
