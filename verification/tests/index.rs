//! The index on a database: statements run on an engine in memory, crawls over
//! a file tree that is only listed.

use std::collections::BTreeMap;

use futures::executor::block_on;
use kuntu::index::candidates::{CandidateColumns, CandidateScore, SearchResult};
use kuntu::index::error::{index_error_to_backend, IndexError, IoError, IoErrorKind};
use kuntu::index::open::{
    after_failed_attempt, database_files, database_path_text, set_version_batch, AfterAttempt,
    OpenRequest, OpenRun, READ_VERSION, SCHEMA_VERSION,
};
use kuntu::index::refresh::ExistingEntries;
use kuntu::index::repair::{start_repair, RepairStats, RepairStep};
use kuntu::index::roots::{
    mark_root_dirty_statement, record_failed_scan_statement, record_full_scan_statement,
    record_incremental_scan_statement, root_status, select_root_id_statement, status_statement,
    upsert_root_statement, RootStatus, StatusColumns,
};
use kuntu::index::rows::{load_entries_statement, CrawledEntry, EntryRow};
use kuntu::index::run::{RebuildRun, RebuildStats, RefreshRun, RefreshStats};
use kuntu::index::search::{CandidateCoverage, IndexedSearchOutcome, SearchRequest, SearchRun};
use kuntu::index::sql::{count_entries_statement, SqlValue, Statement};
use kuntu::index::work::{RootWork, WorkRequest};
use kuntu::model::{EntryKind, MatchKind, SearchConfig, SearchQuery, SearchRoot};
use kuntu::path::FilePath;
use kuntu::policy::PathPolicy;
use turso::{Connection, Value};

const NOW: i64 = 1_700_000_000;

fn connect() -> Connection {
    block_on(async {
        turso::Builder::new_local(":memory:").build().await.unwrap().connect().unwrap()
    })
}

fn values(statement: &Statement) -> Vec<Value> {
    statement
        .params
        .iter()
        .map(|p| match p {
            SqlValue::Null => Value::Null,
            SqlValue::Integer(n) => Value::Integer(*n),
            SqlValue::Text(s) => Value::Text(s.clone()),
        })
        .collect()
}

fn execute(conn: &Connection, statement: &Statement) {
    block_on(conn.execute(&statement.sql, turso::params_from_iter(values(statement)))).unwrap();
}

fn query(conn: &Connection, statement: &Statement) -> Vec<Vec<Value>> {
    block_on(async {
        let mut rows =
            conn.query(&statement.sql, turso::params_from_iter(values(statement))).await.unwrap();
        let mut out = Vec::new();
        while let Some(row) = rows.next().await.unwrap() {
            out.push((0..row.column_count()).map(|i| row.get_value(i).unwrap()).collect());
        }
        out
    })
}

fn plain(sql: &str) -> Statement {
    Statement { sql: sql.to_string(), params: vec![] }
}

fn number(value: &Value) -> i64 {
    *value.as_integer().unwrap()
}

fn optional(value: &Value) -> Option<i64> {
    value.as_integer().copied()
}

fn text(value: &Value) -> String {
    value.as_text().unwrap().clone()
}

/// Splits a text into its words, in lower case.
fn tokenize(text: &str) -> Vec<String> {
    text.split(|c: char| !c.is_alphanumeric())
        .filter(|word| !word.is_empty())
        .map(|word| word.to_lowercase())
        .collect()
}

/// Scores a name by how much of it the query's words cover.
fn score(query: &str, path: &FilePath, priority: i32) -> CandidateScore {
    let name = path.file_name_text().unwrap_or_default().to_lowercase();
    let hits = tokenize(query).iter().filter(|word| name.contains(word.as_str())).count() as i64;
    let matches = if hits > 0 { vec![MatchKind::BasenameToken] } else { vec![] };
    CandidateScore { score: hits * 100 + i64::from(priority), matches }
}

/// The files that a crawl meets, with their kinds and sizes.
#[derive(Default)]
struct Tree {
    files: BTreeMap<String, (EntryKind, u64)>,
}

impl Tree {
    fn dir(&mut self, path: &str) {
        self.files.insert(path.to_string(), (EntryKind::Directory, 0));
    }

    fn file(&mut self, path: &str, contents: &str) {
        self.files.insert(path.to_string(), (EntryKind::File, contents.len() as u64));
    }

    fn remove(&mut self, path: &str) {
        self.files.retain(|p, _| p != path && !p.starts_with(&format!("{path}/")));
    }

    fn crawl(&self, root: &SearchRoot) -> (Vec<CrawledEntry>, usize, Vec<String>) {
        let base = root.path.to_lossy();
        if !self.files.contains_key(&base) {
            return (vec![], 0, vec![format!("{base} is not there")]);
        }
        let policy = PathPolicy::new(SearchConfig { roots: vec![root.clone()] });
        let mut entries = vec![];
        let mut skipped = 0;
        for (path, (kind, size)) in &self.files {
            let path = FilePath::from_text(path);
            if !path.starts_with(&root.path) {
                continue;
            }
            let decision = policy.evaluate(&path, None);
            if decision.allowed {
                let size = Some(*size);
                entries.push(CrawledEntry { path, kind: *kind, size, mtime: Some(1), decision });
            } else {
                skipped += 1;
            }
        }
        (entries, skipped, vec![])
    }
}

struct Index {
    conn: Connection,
}

fn open(conn: &Connection, path: &FilePath) -> Result<(), IndexError> {
    let mut run = OpenRun::start(path);
    loop {
        match run.request() {
            OpenRequest::Execute(statement) => {
                execute(conn, &statement);
                run.on_done();
            }
            OpenRequest::Batch(batch) => {
                block_on(conn.execute_batch(&batch)).unwrap();
                run.on_done();
            }
            OpenRequest::ReadVersion(statement) => {
                run.on_version(number(&query(conn, &statement)[0][0]))
            }
            OpenRequest::Look(statement) => run.on_look(!query(conn, &statement).is_empty()),
            OpenRequest::Ready => return Ok(()),
            OpenRequest::Refused(error) => return Err(error),
        }
    }
}

impl Index {
    fn open_memory() -> Index {
        let conn = connect();
        open(&conn, &FilePath::from_text(":memory:")).unwrap();
        Index { conn }
    }

    fn schema_version(&self) -> i64 {
        number(&query(&self.conn, &plain(READ_VERSION))[0][0])
    }

    fn set_schema_version(&self, version: i64) {
        block_on(self.conn.execute_batch(set_version_batch(version))).unwrap();
    }

    fn count(&self, sql: &str) -> i64 {
        number(&query(&self.conn, &plain(sql))[0][0])
    }

    fn store_root(&self, root: &SearchRoot) -> i64 {
        execute(&self.conn, &upsert_root_statement(root, NOW));
        number(&query(&self.conn, &select_root_id_statement(root))[0][0])
    }

    fn count_entries(&self, root_id: i64) -> i64 {
        number(&query(&self.conn, &count_entries_statement(root_id))[0][0])
    }

    fn carry_out(&self, mut work: RootWork) {
        loop {
            match work.request() {
                WorkRequest::Run(statements) => {
                    for statement in &statements {
                        execute(&self.conn, statement);
                    }
                    work.on_run();
                }
                WorkRequest::EntryId(statement) => {
                    work.on_entry_id(number(&query(&self.conn, &statement)[0][0]))
                }
                WorkRequest::Terms { name, components } => {
                    let components = components.iter().map(|text| tokenize(text)).collect();
                    work.on_terms(&tokenize(&name), &components);
                }
                WorkRequest::Count(statement) => {
                    work.on_count(number(&query(&self.conn, &statement)[0][0]))
                }
                WorkRequest::Done => return,
            }
        }
    }

    fn rebuild(&self, config: &SearchConfig, tree: &Tree) -> RebuildStats {
        let mut run = RebuildRun::start(config);
        while let Some(root) = run.next_root().cloned() {
            let root_id = self.store_root(&root);
            let (entries, skipped, errors) = tree.crawl(&root);
            assert!(run.has_room(entries.len(), skipped));
            self.carry_out(run.on_crawl(root_id, NOW, entries, skipped, errors));
        }
        run.finish()
    }

    fn existing(&self, root_id: i64) -> Vec<EntryRow> {
        query(&self.conn, &load_entries_statement(root_id))
            .iter()
            .map(|row| EntryRow {
                path: text(&row[0]),
                id: number(&row[1]),
                kind: number(&row[2]),
                size: optional(&row[3]),
                mtime: optional(&row[4]),
                hidden: number(&row[5]),
                ignored: number(&row[6]),
                sensitive: number(&row[7]),
                deleted: number(&row[8]),
            })
            .collect()
    }

    fn refresh(&self, config: &SearchConfig, tree: &Tree) -> RefreshStats {
        let mut run = RefreshRun::start(config);
        while let Some(root) = run.next_root().cloned() {
            let root_id = self.store_root(&root);
            let rows = self.existing(root_id);
            let (entries, skipped, errors) = tree.crawl(&root);
            assert!(run.has_room(entries.len(), rows.len(), skipped));
            let existing = ExistingEntries::from_rows(&rows);
            self.carry_out(run.on_crawl(root_id, NOW, existing, entries, skipped, errors));
        }
        run.finish()
    }

    fn mark_root_dirty(&self, root: &SearchRoot) {
        let root_id = self.store_root(root);
        let count = self.count_entries(root_id);
        execute(&self.conn, &mark_root_dirty_statement(root_id, count));
    }

    fn repair(&self, config: &SearchConfig, tree: &Tree) -> RepairStats {
        match start_repair(config, &self.status()) {
            RepairStep::Done(stats) => stats,
            RepairStep::Refresh(chosen, repair) => {
                let refreshed = self.refresh(&chosen, tree);
                repair.finish(&self.status(), refreshed.errors)
            }
        }
    }

    fn status(&self) -> Vec<RootStatus> {
        query(&self.conn, &status_statement())
            .iter()
            .map(|row| {
                root_status(&StatusColumns {
                    path: text(&row[0]),
                    entry_count: number(&row[1]),
                    generation: number(&row[2]),
                    dirty: number(&row[3]),
                    last_full_scan_at: optional(&row[4]),
                    last_incremental_at: optional(&row[5]),
                })
            })
            .collect()
    }

    fn search_with_metrics(&self, config: &SearchConfig, query_: &SearchQuery) -> IndexedSearchOutcome {
        let mut run = SearchRun::start(config, query_);
        loop {
            match run.request() {
                SearchRequest::RootId(statement) => {
                    let rows = query(&self.conn, &statement);
                    run.on_root_id(rows.first().map(|row| number(&row[0])));
                }
                SearchRequest::Terms(text) => run.on_terms(&tokenize(&text)),
                SearchRequest::EntryIds(statement) => {
                    let rows = query(&self.conn, &statement);
                    run.on_entry_ids(&rows.iter().map(|row| number(&row[0])).collect());
                }
                SearchRequest::Candidates(statement) => {
                    let rows = query(&self.conn, &statement)
                        .iter()
                        .map(|row| CandidateColumns {
                            path: text(&row[0]),
                            kind: number(&row[1]),
                            priority: number(&row[2]) as i32,
                            size: optional(&row[3]),
                            mtime: optional(&row[4]),
                        })
                        .collect();
                    run.on_candidates(&rows);
                }
                SearchRequest::Finish => break,
            }
        }
        let scores = run
            .candidates()
            .iter()
            .map(|c| score(&query_.query, &c.path, c.root_priority))
            .collect();
        run.finish(&scores)
    }

    fn search(&self, config: &SearchConfig, query: &SearchQuery) -> Vec<SearchResult> {
        self.search_with_metrics(config, query).results
    }

    /// Plants one entry and its terms directly: rows already in the store,
    /// however they came there, cannot leak through a search.
    fn plant_entry(
        &self,
        root: &str,
        relative: &str,
        kind: i64,
        flags: (bool, bool, bool),
        terms: &[&str],
    ) {
        let (hidden, ignored, sensitive) = flags;
        let full = format!("{root}/{relative}");
        let name = full.rsplit('/').next().unwrap().to_string();
        let extension = name.rsplit_once('.').map(|(_, e)| e.to_ascii_lowercase());
        let root_id =
            self.count(&format!("SELECT id FROM roots WHERE path = '{root}'"));
        let insert = Statement {
            sql: "INSERT INTO entries (root_id, path, path_lower, name, name_lower, extension, kind, size, mtime, hidden, ignored, sensitive, deleted, indexed_at) VALUES (?1, ?2, ?3, ?4, ?5, ?6, ?7, 4, NULL, ?8, ?9, ?10, 0, 0)".to_string(),
            params: vec![
                SqlValue::Integer(root_id),
                SqlValue::Text(full.clone()),
                SqlValue::Text(full.to_ascii_lowercase()),
                SqlValue::Text(name.clone()),
                SqlValue::Text(name.to_ascii_lowercase()),
                extension.map_or(SqlValue::Null, SqlValue::Text),
                SqlValue::Integer(kind),
                SqlValue::Integer(i64::from(hidden)),
                SqlValue::Integer(i64::from(ignored)),
                SqlValue::Integer(i64::from(sensitive)),
            ],
        };
        execute(&self.conn, &insert);
        let entry_id = self.count(&format!("SELECT id FROM entries WHERE path = '{full}'"));
        for term in terms {
            execute(
                &self.conn,
                &plain(&format!(
                    "INSERT OR IGNORE INTO terms (term, entry_id, field, weight) VALUES ('{term}', {entry_id}, 1, 100)"
                )),
            );
        }
    }
}

fn config(roots: &[&str]) -> SearchConfig {
    SearchConfig {
        roots: roots.iter().map(|r| SearchRoot::new(FilePath::from_text(r))).collect(),
    }
}

fn ends_with(result: &SearchResult, tail: &str) -> bool {
    result.path.to_lossy().ends_with(&format!("/{tail}"))
}

#[test]
fn rebuild_indexes_allowed_files_and_searches_terms() {
    let mut tree = Tree::default();
    tree.dir("/t/rebuild");
    tree.dir("/t/rebuild/docs");
    tree.dir("/t/rebuild/node_modules");
    tree.dir("/t/rebuild/node_modules/pkg");
    tree.file("/t/rebuild/docs/auth-providers.md", "auth\n");
    tree.file("/t/rebuild/node_modules/pkg/auth-providers.md", "ignored\n");

    let index = Index::open_memory();
    let config = config(&["/t/rebuild"]);
    let stats = index.rebuild(&config, &tree);
    let results = index.search(&config, &SearchQuery::new("auth providers"));

    assert!(stats.entries >= 2);
    assert!(stats.skipped >= 1);
    assert_eq!(results.len(), 1);
    assert!(ends_with(&results[0], "docs/auth-providers.md"));
    assert_eq!(results[0].provider, "sqlite");
    assert_eq!(results[0].kind, EntryKind::File);
    assert_eq!(results[0].byte_size, Some(5));
    assert_eq!(results[0].modified_unix_seconds, Some(1));
}

#[test]
fn rebuild_preserves_existing_entries_and_marks_dirty_when_crawl_errors() {
    let mut tree = Tree::default();
    tree.dir("/t/rebuild-error");
    tree.file("/t/rebuild-error/preserved-file.md", "old\n");

    let index = Index::open_memory();
    let config = config(&["/t/rebuild-error"]);
    index.rebuild(&config, &tree);
    tree.remove("/t/rebuild-error");

    let stats = index.rebuild(&config, &tree);
    let status = index.status();
    let results = index.search(&config, &SearchQuery::new("preserved file"));

    assert!(!stats.errors.is_empty());
    assert_eq!(status.len(), 1);
    assert!(status[0].dirty);
    assert_eq!(results.len(), 1);
}

#[test]
fn status_reports_rebuilt_root() {
    let mut tree = Tree::default();
    tree.dir("/t/status");
    tree.file("/t/status/Cargo.toml", "[package]\n");

    let index = Index::open_memory();
    let config = config(&["/t/status"]);
    let expected_root = config.roots[0].path.clone();
    index.rebuild(&config, &tree);
    let status = index.status();

    assert_eq!(status.len(), 1);
    assert_eq!(status[0].path, expected_root);
    assert!(status[0].entry_count >= 1);
    assert!(!status[0].dirty);
    assert_eq!(status[0].generation, 1);
    assert_eq!(status[0].last_full_scan_at, Some(NOW));
    assert_eq!(status[0].last_incremental_at, None);
}

#[test]
fn refresh_indexes_added_files_and_marks_missing_files_deleted() {
    let mut tree = Tree::default();
    tree.dir("/t/refresh");
    tree.file("/t/refresh/old-file.md", "old\n");

    let index = Index::open_memory();
    let config = config(&["/t/refresh"]);
    index.rebuild(&config, &tree);
    tree.remove("/t/refresh/old-file.md");
    tree.file("/t/refresh/new-file.md", "new\n");

    let stats = index.refresh(&config, &tree);
    let old_results = index.search(&config, &SearchQuery::new("old file"));
    let new_results = index.search(&config, &SearchQuery::new("new file"));

    assert!(stats.inserted >= 1);
    assert!(stats.deleted >= 1);
    assert!(old_results.is_empty());
    assert_eq!(new_results.len(), 1);
    assert_eq!(
        index.count("SELECT COUNT(*) FROM terms AS t JOIN entries AS e ON e.id = t.entry_id WHERE e.deleted = 1"),
        0
    );
    let status = index.status();
    assert_eq!(status[0].generation, 2);
    assert_eq!(status[0].last_incremental_at, Some(NOW));
    assert_eq!(status[0].last_full_scan_at, Some(NOW));
}

#[test]
fn refresh_preserves_existing_entries_and_marks_dirty_when_crawl_errors() {
    let mut tree = Tree::default();
    tree.dir("/t/refresh-error");
    tree.file("/t/refresh-error/still-indexed.md", "old\n");

    let index = Index::open_memory();
    let config = config(&["/t/refresh-error"]);
    index.rebuild(&config, &tree);
    tree.remove("/t/refresh-error");

    let stats = index.refresh(&config, &tree);
    let status = index.status();
    let results = index.search(&config, &SearchQuery::new("still indexed"));

    assert!(!stats.errors.is_empty());
    assert_eq!(stats.deleted, 0);
    assert_eq!(status.len(), 1);
    assert!(status[0].dirty);
    assert_eq!(results.len(), 1);
}

#[test]
fn refresh_updates_changed_file_metadata() {
    let mut tree = Tree::default();
    tree.dir("/t/refresh-update");
    tree.file("/t/refresh-update/same-file.md", "a\n");

    let index = Index::open_memory();
    let config = config(&["/t/refresh-update"]);
    index.rebuild(&config, &tree);
    tree.file("/t/refresh-update/same-file.md", "longer content\n");

    let stats = index.refresh(&config, &tree);

    assert!(stats.updated >= 1);
    assert_eq!(stats.unchanged, 1);
    let results = index.search(&config, &SearchQuery::new("same file"));
    assert_eq!(results[0].byte_size, Some(15));
}

#[test]
fn refreshing_twice_changes_nothing_and_a_file_that_returns_is_live_again() {
    let mut tree = Tree::default();
    tree.dir("/t/again");
    tree.file("/t/again/one.md", "1\n");
    let index = Index::open_memory();
    let config = config(&["/t/again"]);
    index.rebuild(&config, &tree);

    let quiet = index.refresh(&config, &tree);
    assert_eq!((quiet.inserted, quiet.updated, quiet.deleted, quiet.unchanged), (0, 0, 0, 2));

    tree.remove("/t/again/one.md");
    assert_eq!(index.refresh(&config, &tree).deleted, 1);
    assert_eq!(index.refresh(&config, &tree).deleted, 0);
    tree.file("/t/again/one.md", "1\n");
    let back = index.refresh(&config, &tree);
    assert_eq!((back.inserted, back.updated), (0, 1));
    assert_eq!(index.search(&config, &SearchQuery::new("one")).len(), 1);
}

#[test]
fn a_refresh_after_a_rebuild_of_several_roots_changes_nothing() {
    let mut tree = Tree::default();
    for root in ["/t/left", "/t/right"] {
        tree.dir(root);
        tree.file(&format!("{root}/common-note.md"), "n\n");
    }
    tree.file("/t/right/other.txt", "o\n");
    let index = Index::open_memory();
    let config = config(&["/t/left", "/t/right"]);
    let queries: Vec<_> = ["common", "common note", "other", "missing"].map(SearchQuery::new).into();
    let stored = |index: &Index| {
        let terms = "SELECT term, entry_id, field, weight FROM terms ORDER BY term, entry_id, field";
        (
            query(&index.conn, &plain("SELECT * FROM entries ORDER BY id")),
            query(&index.conn, &plain(terms)),
        )
    };
    let found = |index: &Index| -> Vec<_> {
        queries.iter().map(|q| index.search_with_metrics(&config, q)).collect()
    };

    index.rebuild(&config, &tree);
    let (rows, outcomes) = (stored(&index), found(&index));
    assert_eq!(outcomes[0].results.len(), 2);
    assert_eq!(outcomes[2].results.len(), 1);
    for _ in 0..2 {
        let quiet = index.refresh(&config, &tree);
        assert_eq!((quiet.inserted, quiet.updated, quiet.deleted), (0, 0, 0));
        assert_eq!(quiet.unchanged, 5);
        assert!(quiet.errors.is_empty());
        assert_eq!(stored(&index), rows);
        assert_eq!(found(&index), outcomes);
    }
}

#[test]
fn the_terms_of_an_entry_are_its_own() {
    let mut tree = Tree::default();
    for root in ["/t/own", "/t/else"] {
        tree.dir(root);
    }
    tree.file("/t/own/green-apple.md", "a\n");
    tree.file("/t/own/red-pear.md", "p\n");
    tree.file("/t/else/plum.md", "p\n");
    let index = Index::open_memory();
    let config = config(&["/t/own", "/t/else"]);
    let terms = |path: &str| -> Vec<String> {
        let sql = format!("SELECT DISTINCT term FROM terms WHERE entry_id = (SELECT id FROM entries WHERE path = '{path}') ORDER BY term");
        query(&index.conn, &plain(&sql)).iter().map(|row| text(&row[0])).collect()
    };
    let apple = vec!["apple", "green", "md", "own", "t"];
    let plum = vec!["else", "md", "plum", "t"];

    index.rebuild(&config, &tree);
    assert_eq!(terms("/t/own/green-apple.md"), apple);
    assert_eq!(terms("/t/else/plum.md"), plum);

    tree.file("/t/own/green-apple.md", "longer\n");
    tree.remove("/t/own/red-pear.md");
    let stats = index.refresh(&config, &tree);
    assert_eq!((stats.updated, stats.deleted), (1, 1));
    assert_eq!(terms("/t/own/green-apple.md"), apple);
    assert!(terms("/t/own/red-pear.md").is_empty());
    assert_eq!(terms("/t/else/plum.md"), plum);
    assert_eq!(index.status()[1].entry_count, 2);
}

#[test]
fn each_recording_changes_its_part_of_the_state() {
    let index = Index::open_memory();
    let config = config(&["/t/state", "/t/state-2"]);
    let id = index.store_root(&config.roots[0]);
    let other = index.store_root(&config.roots[1]);
    let state = || {
        let status = index.status();
        assert_eq!((status[1].generation, status[1].dirty, status[1].entry_count), (1, false, 8));
        let s = &status[0];
        (s.generation, s.last_full_scan_at, s.last_incremental_at, s.dirty, s.entry_count)
    };
    execute(&index.conn, &record_full_scan_statement(other, 1, 8));
    assert_eq!(state(), (0, None, None, false, 0));
    execute(&index.conn, &mark_root_dirty_statement(id, 2));
    assert_eq!(state(), (0, None, None, true, 2));
    execute(&index.conn, &record_full_scan_statement(id, 10, 3));
    assert_eq!(state(), (1, Some(10), None, false, 3));
    execute(&index.conn, &record_incremental_scan_statement(id, 20, 4));
    assert_eq!(state(), (2, Some(10), Some(20), false, 4));
    execute(&index.conn, &mark_root_dirty_statement(id, 9));
    assert_eq!(state(), (2, Some(10), Some(20), true, 4));
    execute(&index.conn, &record_failed_scan_statement(id, 5));
    assert_eq!(state(), (2, Some(10), Some(20), true, 5));
    execute(&index.conn, &record_full_scan_statement(id, 30, 6));
    assert_eq!(state(), (3, Some(30), Some(20), false, 6));

    let fresh = Index::open_memory();
    let id = fresh.store_root(&config.roots[0]);
    execute(&fresh.conn, &record_failed_scan_statement(id, 7));
    let s = &fresh.status()[0];
    assert_eq!((s.generation, s.dirty, s.entry_count), (0, true, 7));
    assert_eq!((s.last_full_scan_at, s.last_incremental_at), (None, None));
    execute(&fresh.conn, &record_incremental_scan_statement(id, 40, 7));
    let s = &fresh.status()[0];
    assert_eq!((s.generation, s.dirty, s.last_incremental_at), (1, false, Some(40)));
}

#[test]
fn repair_refreshes_dirty_roots() {
    let mut tree = Tree::default();
    tree.dir("/t/repair");
    tree.file("/t/repair/repair-file.md", "repair\n");

    let index = Index::open_memory();
    let config = config(&["/t/repair"]);
    index.rebuild(&config, &tree);
    index.mark_root_dirty(&config.roots[0]);
    assert!(index.status()[0].dirty);

    let stats = index.repair(&config, &tree);
    let status = index.status();

    assert_eq!(stats.dirty_roots, 1);
    assert_eq!(stats.repaired_roots, 1);
    assert!(!status[0].dirty);
}

#[test]
fn repair_leaves_clean_disabled_and_failing_roots() {
    let mut tree = Tree::default();
    for root in ["/t/clean", "/t/off"] {
        tree.dir(root);
    }
    let index = Index::open_memory();
    let mut config = config(&["/t/clean", "/t/off", "/t/gone"]);
    config.roots[1].enabled = false;
    index.mark_root_dirty(&config.roots[1]);

    let quiet = index.repair(&config, &tree);
    assert_eq!(quiet, RepairStats { roots: 2, dirty_roots: 0, repaired_roots: 0, errors: vec![] });

    index.mark_root_dirty(&config.roots[2]);
    let failed = index.repair(&config, &tree);
    assert_eq!((failed.roots, failed.dirty_roots, failed.repaired_roots), (2, 1, 0));
    assert_eq!(failed.errors, vec!["/t/gone is not there"]);
    let dirty: Vec<_> = index.status().iter().map(|s| (s.path.to_lossy(), s.dirty)).collect();
    assert_eq!(dirty, vec![("/t/gone".to_string(), true), ("/t/off".to_string(), true)]);
}

#[test]
fn search_with_metrics_reports_narrowed_candidate_count() {
    let mut tree = Tree::default();
    tree.dir("/t/metrics");
    tree.file("/t/metrics/needleunique-target.md", "needle\n");
    tree.file("/t/metrics/other-target.md", "other\n");

    let index = Index::open_memory();
    let config = config(&["/t/metrics"]);
    index.rebuild(&config, &tree);
    let outcome = index.search_with_metrics(&config, &SearchQuery::new("needleunique"));

    assert_eq!(outcome.candidate_count, 1);
    assert_eq!(outcome.results.len(), 1);
    assert!(ends_with(&outcome.results[0], "needleunique-target.md"));
}

#[test]
fn compact_single_token_miss_returns_empty_complete_without_root_scan() {
    let mut tree = Tree::default();
    tree.dir("/t/substring");
    tree.dir("/t/substring/src");
    tree.file("/t/substring/src/lib.rs", "lib\n");

    let index = Index::open_memory();
    let config = config(&["/t/substring"]);
    index.rebuild(&config, &tree);
    let outcome = index.search_with_metrics(&config, &SearchQuery::new("srclib"));

    assert_eq!(outcome.candidate_count, 0);
    assert_eq!(outcome.results, Vec::new());
    assert!(!outcome.truncated);
    assert_eq!(outcome.coverage, CandidateCoverage::Complete);
}

#[test]
fn compacted_ordered_queries_across_tokens_are_empty_complete() {
    let mut tree = Tree::default();
    tree.dir("/t/ordered-fuzzy");
    tree.file("/t/ordered-fuzzy/AWS Certified Solutions Architect Associate SAA-C03.pdf", "pdf\n");

    let index = Index::open_memory();
    let config = config(&["/t/ordered-fuzzy"]);
    index.rebuild(&config, &tree);
    let outcome = index.search_with_metrics(&config, &SearchQuery::new("awspdf"));

    assert_eq!(outcome.candidate_count, 0);
    assert_eq!(outcome.results, Vec::new());
    assert_eq!(outcome.coverage, CandidateCoverage::Complete);
    assert_eq!(index.search(&config, &SearchQuery::new("aws pdf")).len(), 1);
}

#[test]
fn search_default_query_excludes_hidden_ignored_and_sensitive_rows() {
    let root = "/t/policy-search";
    let mut tree = Tree::default();
    tree.dir(root);
    tree.dir("/t/policy-search/docs");
    tree.file("/t/policy-search/docs/plan-report.md", "doc\n");

    let index = Index::open_memory();
    let config = config(&[root]);
    index.rebuild(&config, &tree);

    let terms = ["plan", "report"];
    index.plant_entry(root, ".cached/plan-report.md", 1, (true, false, false), &terms);
    index.plant_entry(root, "ignored_dir/plan-report.md", 1, (false, true, false), &terms);
    index.plant_entry(root, ".ssh/plan-report.md", 1, (false, false, true), &terms);

    let query = SearchQuery::new("plan-report").with_limit(1);
    let outcome = index.search_with_metrics(&config, &query);
    assert_eq!(outcome.candidate_count, 1);
    assert_eq!(outcome.results.len(), 1);
    assert!(ends_with(&outcome.results[0], "docs/plan-report.md"));

    let relaxed = SearchQuery { include_hidden: true, include_ignored: true, ..query };
    let outcome = index.search_with_metrics(&config, &relaxed);
    assert_eq!(outcome.candidate_count, 3);
    assert_eq!(outcome.results.len(), 1);
    assert!(outcome.truncated);
    assert!(ends_with(&outcome.results[0], ".cached/plan-report.md"));
}

#[test]
fn default_query_still_sees_hidden_rows_of_a_hidden_allowing_root() {
    let mut tree = Tree::default();
    tree.dir("/t/root-allowance");
    tree.file("/t/root-allowance/open-plan.md", "a\n");
    tree.file("/t/root-allowance/.hidden-plan.md", "b\n");

    let index = Index::open_memory();
    let config = SearchConfig {
        roots: vec![
            SearchRoot::new(FilePath::from_text("/t/root-allowance")).include_hidden(true),
        ],
    };
    index.rebuild(&config, &tree);
    let outcome = index.search_with_metrics(&config, &SearchQuery::new("plan").with_limit(10));

    assert_eq!(outcome.results.len(), 2, "the root's allowance must survive the query flag");
}

#[test]
fn dotted_and_bare_extension_filters_agree() {
    let mut tree = Tree::default();
    tree.dir("/t/dotted-ext");
    tree.file("/t/dotted-ext/plan-report.md", "a\n");
    tree.file("/t/dotted-ext/plan-report.txt", "a\n");

    let index = Index::open_memory();
    let config = config(&["/t/dotted-ext"]);
    index.rebuild(&config, &tree);

    let mut dotted = SearchQuery::new("plan-report");
    dotted.extensions = vec![".md".to_string()];
    let dotted_outcome = index.search_with_metrics(&config, &dotted);

    let mut bare = SearchQuery::new("plan-report");
    bare.extensions = vec!["md".to_string()];
    let bare_outcome = index.search_with_metrics(&config, &bare);

    assert_eq!(dotted_outcome.results.len(), 1, "leading dot must be normalized");
    assert_eq!(dotted_outcome.results, bare_outcome.results);

    let mut upper = SearchQuery::new("plan-report");
    upper.extensions = vec!["..MD".to_string()];
    assert_eq!(index.search(&config, &upper), bare_outcome.results);
}

#[test]
fn search_scope_confines_candidates_to_configured_roots() {
    let mut tree = Tree::default();
    tree.dir("/t/scope-a");
    tree.dir("/t/scope-b");
    tree.dir("/t/scope-a/docs");
    tree.file("/t/scope-a/docs/plan-report.md", "a\n");
    tree.file("/t/scope-b/plan.md", "b\n");

    let index = Index::open_memory();
    index.rebuild(&config(&["/t/scope-a", "/t/scope-b"]), &tree);
    let query_config = config(&["/t/scope-a"]);
    let outcome = index.search_with_metrics(&query_config, &SearchQuery::new("plan").with_limit(10));

    assert_eq!(outcome.candidate_count, 1);
    assert_eq!(outcome.results.len(), 1);
    assert!(outcome.results[0].path.starts_with(&FilePath::from_text("/t/scope-a")));
}

#[test]
fn files_only_query_returns_file_behind_directory_window() {
    let root = "/t/kind-window";
    let mut tree = Tree::default();
    tree.dir(root);
    let index = Index::open_memory();
    let config = config(&[root]);
    index.rebuild(&config, &tree);

    for index_number in 0..101 {
        let name = format!("plan-dir-{index_number:03}");
        index.plant_entry(root, &name, 2, (false, false, false), &["plan"]);
    }
    index.plant_entry(root, "plan-file.md", 1, (false, false, false), &["plan"]);

    let files_only =
        SearchQuery { include_directories: false, ..SearchQuery::new("plan").with_limit(10) };
    let outcome = index.search_with_metrics(&config, &files_only);
    assert_eq!(outcome.results.len(), 1);
    assert!(ends_with(&outcome.results[0], "plan-file.md"));

    let directories_only =
        SearchQuery { include_files: false, ..SearchQuery::new("plan").with_limit(200) };
    assert_eq!(index.search(&config, &directories_only).len(), 101);

    let unfiltered = SearchQuery::new("plan").with_limit(5);
    let outcome = index.search_with_metrics(&config, &unfiltered);
    assert_eq!(outcome.results.len(), 5);
    assert!(outcome.truncated);

    let nothing = SearchQuery { include_files: false, ..files_only };
    let outcome = index.search_with_metrics(&config, &nothing);
    assert_eq!((outcome.candidate_count, outcome.results.len()), (0, 0));
    assert_eq!(outcome.coverage, CandidateCoverage::Complete);
}

#[test]
fn no_term_hit_returns_empty_complete_without_scanning_the_root() {
    let mut tree = Tree::default();
    tree.dir("/t/no-term");
    for index_number in 0..50 {
        tree.file(&format!("/t/no-term/document-{index_number:02}.txt"), "x\n");
    }

    let index = Index::open_memory();
    let config = config(&["/t/no-term"]);
    index.rebuild(&config, &tree);
    let outcome = index.search_with_metrics(&config, &SearchQuery::new("zzqqx"));

    assert_eq!(outcome.candidate_count, 0);
    assert_eq!(outcome.results, Vec::new());
    assert!(!outcome.truncated);
    assert_eq!(outcome.coverage, CandidateCoverage::Complete);

    let blank = index.search_with_metrics(&config, &SearchQuery::new(" - "));
    assert_eq!((blank.candidate_count, blank.coverage), (0, CandidateCoverage::Complete));
}

#[test]
fn equal_scores_break_ties_by_path_deterministically() {
    let mut tree = Tree::default();
    tree.dir("/t/tie-a");
    tree.dir("/t/tie-b");
    tree.file("/t/tie-a/same-name.md", "a\n");
    tree.file("/t/tie-b/same-name.md", "b\n");

    let index = Index::open_memory();
    let config = config(&["/t/tie-a", "/t/tie-b"]);
    index.rebuild(&config, &tree);

    let query = SearchQuery::new("same-name").with_limit(10);
    let first = index.search_with_metrics(&config, &query);
    let second = index.search_with_metrics(&config, &query);

    let first_paths: Vec<_> = first.results.iter().map(|r| r.path.to_lossy()).collect();
    let second_paths: Vec<_> = second.results.iter().map(|r| r.path.to_lossy()).collect();
    assert_eq!(first_paths, second_paths);
    let mut sorted = first_paths.clone();
    sorted.sort();
    assert_eq!(first_paths, sorted, "equal scores tie-break by path");
    assert_eq!(first_paths.len(), 2);
}

#[test]
fn non_ascii_names_rank_deterministically() {
    let mut tree = Tree::default();
    tree.dir("/t/non-ascii");
    tree.file("/t/non-ascii/计划书A.md", "a\n");
    tree.file("/t/non-ascii/计划书B.md", "b\n");

    let index = Index::open_memory();
    let config = config(&["/t/non-ascii"]);
    index.rebuild(&config, &tree);

    let query = SearchQuery::new("计划").with_limit(10);
    let first = index.search_with_metrics(&config, &query);
    let second = index.search_with_metrics(&config, &query);

    assert_eq!(first.results.len(), 2);
    let first_paths: Vec<_> = first.results.iter().map(|r| r.path.to_lossy()).collect();
    let second_paths: Vec<_> = second.results.iter().map(|r| r.path.to_lossy()).collect();
    assert_eq!(first_paths, second_paths);
}

#[test]
fn candidates_are_loaded_in_chunks() {
    let index = Index::open_memory();
    let config = config(&["/t/chunks"]);
    let root_id = index.store_root(&config.roots[0]);
    let mut entries = vec![];
    let mut terms = vec![];
    for n in 1..=402 {
        entries.push(format!(
            "({n}, {root_id}, '/t/chunks/item-{n:03}.txt', 'item-{n:03}.txt', 'item-{n:03}.txt', 1, 0)"
        ));
        terms.push(format!("('item', {n}, 1, 100)"));
    }
    let entries = entries.join(",");
    let terms = terms.join(",");
    execute(
        &index.conn,
        &plain(&format!(
            "INSERT INTO entries (id, root_id, path, name, name_lower, kind, indexed_at) VALUES {entries}"
        )),
    );
    execute(
        &index.conn,
        &plain(&format!("INSERT INTO terms (term, entry_id, field, weight) VALUES {terms}")),
    );

    let outcome = index.search_with_metrics(&config, &SearchQuery::new("item").with_limit(3));
    assert_eq!(outcome.candidate_count, 402);
    let names: Vec<_> =
        outcome.results.iter().map(|r| r.path.file_name_text().unwrap()).collect();
    assert_eq!(names, vec!["item-001.txt", "item-002.txt", "item-003.txt"]);
    assert!(outcome.truncated);
}

#[test]
fn open_memory_stamps_current_schema_version() {
    let index = Index::open_memory();
    assert_eq!(index.schema_version(), SCHEMA_VERSION);
}

#[test]
fn v1_database_stamps_forward_in_place() {
    let path = FilePath::from_text("/t/v1-forward");
    let index = Index::open_memory();
    index.set_schema_version(1);
    index.store_root(&SearchRoot::new(FilePath::from_text("/t/kept")));
    open(&index.conn, &path).unwrap();
    assert_eq!(index.schema_version(), SCHEMA_VERSION);
    assert_eq!(index.status().len(), 1);
}

#[test]
fn legacy_v0_database_is_recreated_on_open() {
    let path = FilePath::from_text("/t/v0-recreate");
    let index = Index::open_memory();
    execute(
        &index.conn,
        &plain("INSERT INTO roots (id, path, enabled, updated_at) VALUES (1, '/tmp/legacy', 1, 0)"),
    );
    execute(
        &index.conn,
        &plain("INSERT INTO entries (root_id, path, path_lower, name, name_lower, kind, indexed_at) VALUES (1, '/tmp/legacy/Report.PDF', '/tmp/legacy/report.pdf', 'Report.PDF', 'report.pdf', 1, 0)"),
    );
    index.set_schema_version(0);

    let error = open(&index.conn, &path).unwrap_err();
    assert_eq!(error, IndexError::RecreateRequired);
    assert_eq!(index.count("SELECT COUNT(*) FROM entries"), 1);
    assert!(matches!(after_failed_attempt(1, error), AfterAttempt::RecreateAndRetry));
    assert_eq!(
        database_files(&path),
        vec!["/t/v0-recreate", "/t/v0-recreate-wal", "/t/v0-recreate-shm"]
    );

    let recreated = Index { conn: connect() };
    open(&recreated.conn, &path).unwrap();
    assert_eq!(recreated.schema_version(), SCHEMA_VERSION);
    let status = recreated.status();
    assert!(status.is_empty());
}

#[test]
fn open_refuses_newer_schema_without_touching_the_database() {
    let path = FilePath::from_text("/t/refuse-newer");
    let index = Index::open_memory();
    index.set_schema_version(SCHEMA_VERSION + 1);
    let error = open(&index.conn, &path).unwrap_err();
    match error {
        IndexError::SchemaTooNew { found, supported } => {
            assert_eq!(found, SCHEMA_VERSION + 1);
            assert_eq!(supported, SCHEMA_VERSION);
        }
        other => panic!("expected schema version failure, got {}", other.message()),
    }
    let second = open(&index.conn, &path).unwrap_err();
    assert!(matches!(second, IndexError::SchemaTooNew { .. }));
    assert_eq!(index.schema_version(), SCHEMA_VERSION + 1);
}

#[test]
fn deleting_entries_cascades_to_terms() {
    let mut tree = Tree::default();
    tree.dir("/t/cascade");
    tree.file("/t/cascade/cascade-target.md", "cascade\n");

    let index = Index::open_memory();
    let config = config(&["/t/cascade"]);
    index.rebuild(&config, &tree);

    let terms_before = index.count("SELECT COUNT(*) FROM terms");
    assert!(terms_before > 0);
    execute(&index.conn, &plain("DELETE FROM entries"));
    let terms_after = index.count("SELECT COUNT(*) FROM terms");
    assert_eq!(terms_after, 0);
}

#[test]
fn foreign_v0_database_is_refused_and_left_untouched() {
    let path = FilePath::from_text("/t/foreign-db");
    let index = Index::open_memory();
    for sql in [
        "CREATE TABLE user_data (id INTEGER PRIMARY KEY, note TEXT)",
        "INSERT INTO user_data VALUES (1, 'precious')",
        "DROP TABLE roots",
        "DROP TABLE entries",
        "DROP TABLE terms",
        "DROP TABLE root_state",
    ] {
        execute(&index.conn, &plain(sql));
    }
    index.set_schema_version(0);
    let error = open(&index.conn, &path).unwrap_err();
    match error {
        IndexError::UnrecognizedDatabase { path: reported } => {
            assert_eq!(reported, path);
        }
        other => panic!("expected unrecognized-database refusal, got {}", other.message()),
    }
    let readable = index.count("SELECT COUNT(*) FROM user_data");
    assert_eq!(readable, 1);
    assert_eq!(index.count("SELECT COUNT(*) FROM sqlite_master WHERE name = 'roots'"), 0);
}

#[test]
fn foreign_databases_of_any_version_are_refused_and_left_untouched() {
    let path = FilePath::from_text("/t/foreign-version");
    for version in [-1, 0, 1, SCHEMA_VERSION] {
        let index = Index { conn: connect() };
        execute(&index.conn, &plain("CREATE TABLE user_data (id INTEGER PRIMARY KEY, note TEXT)"));
        index.set_schema_version(version);
        let error = open(&index.conn, &path).unwrap_err();
        assert_eq!(error, IndexError::UnrecognizedDatabase { path: path.clone() });
        assert_eq!(index.schema_version(), version);
        assert_eq!(index.count("SELECT COUNT(*) FROM sqlite_master WHERE type = 'table'"), 1);
    }
    let index = Index::open_memory();
    execute(&index.conn, &plain("CREATE TABLE user_data (id INTEGER PRIMARY KEY, note TEXT)"));
    index.set_schema_version(1);
    let error = open(&index.conn, &path).unwrap_err();
    assert_eq!(error, IndexError::UnrecognizedDatabase { path: path.clone() });
    assert_eq!(index.schema_version(), 1);
}

#[test]
fn a_versioned_database_with_missing_tables_is_completed() {
    let path = FilePath::from_text("/t/incomplete");
    for version in [-1, 1, SCHEMA_VERSION] {
        let index = Index::open_memory();
        index.store_root(&SearchRoot::new(FilePath::from_text("/t/kept")));
        execute(&index.conn, &plain("DROP TABLE root_state"));
        index.set_schema_version(version);
        open(&index.conn, &path).unwrap();
        assert_eq!(index.schema_version(), SCHEMA_VERSION);
        assert_eq!(index.status().len(), 1);

        let empty = Index { conn: connect() };
        empty.set_schema_version(version);
        open(&empty.conn, &path).unwrap();
        assert_eq!(empty.schema_version(), SCHEMA_VERSION);
        assert!(empty.status().is_empty());
    }
    let index = Index::open_memory();
    execute(&index.conn, &plain("DROP TABLE root_state"));
    index.set_schema_version(0);
    let error = open(&index.conn, &path).unwrap_err();
    assert_eq!(error, IndexError::UnrecognizedDatabase { path: path.clone() });
    assert_eq!(index.count("SELECT COUNT(*) FROM sqlite_master WHERE name = 'root_state'"), 0);
}

#[test]
fn open_refuses_non_utf8_database_paths_instead_of_aliasing() {
    let path = FilePath::from_bytes(b"/t/kuntu-index-nonutf8.not-\xff-utf8".to_vec());
    let error = database_path_text(&path).unwrap_err();
    assert!(matches!(error, IndexError::Io(_)));
    assert!(matches!(&error, IndexError::Io(e) if e.kind == IoErrorKind::InvalidInput));
    assert_eq!(
        error.message(),
        "index io error: index database path is not valid UTF-8: /t/kuntu-index-nonutf8.not-\u{fffd}-utf8"
    );
    assert_eq!(database_path_text(&FilePath::from_text("/t/\u{e9}.db")).unwrap(), "/t/\u{e9}.db");
}

#[test]
fn errors_tell_what_went_wrong() {
    let io = |message: &str| {
        IndexError::Io(IoError { kind: IoErrorKind::NotFound, message: message.to_string() })
    };
    let told = |error: IndexError| index_error_to_backend(error).message;
    assert_eq!(told(IndexError::Engine("disk full".into())), "index engine error: disk full");
    assert_eq!(told(io("gone")), "index io error: gone");
    assert_eq!(
        told(IndexError::SchemaTooNew { found: 3, supported: 2 }),
        "file-search index schema version 3 is newer than supported version 2; recreate the index file and rebuild"
    );
    assert_eq!(
        told(IndexError::RecreateRequired),
        "index database predates the turso engine and must be recreated"
    );
    assert_eq!(
        told(IndexError::UnrecognizedDatabase { path: FilePath::from_text("/x.db") }),
        "/x.db has user tables but is not a file-search index; move it aside or choose another --db, it was not modified"
    );
    match after_failed_attempt(2, IndexError::RecreateRequired) {
        AfterAttempt::Fail(error) => assert_eq!(
            told(error),
            "index recreation after legacy detection failed: index database predates the turso engine and must be recreated"
        ),
        other => panic!("{other:?}"),
    }
    match after_failed_attempt(1, io("x")) {
        AfterAttempt::Fail(error) => assert_eq!(error, io("x")),
        other => panic!("{other:?}"),
    }
}
