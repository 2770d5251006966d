//! The rules of the index that need no database.

use kuntu::index::candidates::{
    candidate_row, match_names, rank_results, CandidateColumns, CandidateScore, SearchResult,
};
use kuntu::index::refresh::{plan_refresh, EntryChange, ExistingEntries};
use kuntu::index::roots::{
    record_failed_scan_statement, record_incremental_scan_statement, root_status, StatusColumns,
};
use kuntu::index::rows::{
    entry_size_i64, int_to_kind, kind_to_int, term_rows, term_sources, CrawledEntry, EntryRow,
};
use kuntu::index::run::unix_seconds;
use kuntu::index::search::{take_ids, CandidateCoverage, SearchRequest, SearchRun};
use kuntu::index::sql::SqlValue;
use kuntu::index::terms::{
    ascii_prefix_upper_bound, placeholders, term_ids_statement, term_prefix_clause,
    MAX_KFS_CANDIDATE_ROWS,
};
use kuntu::index::work::{RootWork, WorkRequest};
use kuntu::model::{EntryKind, MatchKind, SearchConfig, SearchQuery, SearchRoot};
use kuntu::path::FilePath;
use kuntu::policy::PathPolicy;

fn path(text: &str) -> FilePath {
    FilePath::from_text(text)
}

fn entry(text: &str, size: Option<u64>) -> CrawledEntry {
    let policy = PathPolicy::new(SearchConfig { roots: vec![SearchRoot::new(path("/r"))] });
    let decision = policy.evaluate(&path(text), None);
    CrawledEntry { path: path(text), kind: EntryKind::File, size, mtime: Some(9), decision }
}

fn stored(text: &str, id: i64, size: Option<i64>, deleted: i64) -> EntryRow {
    EntryRow {
        path: text.to_string(),
        id,
        kind: 1,
        size,
        mtime: Some(9),
        hidden: 0,
        ignored: 0,
        sensitive: 0,
        deleted,
    }
}

#[test]
fn ascii_prefix_upper_bound_advances_last_ascii_byte() {
    assert_eq!(ascii_prefix_upper_bound("abc"), Some("abd".to_string()));
    assert_eq!(ascii_prefix_upper_bound("abz"), Some("ab{".to_string()));
    assert_eq!(ascii_prefix_upper_bound("é"), None);
}

#[test]
fn prefixes_without_an_upper_bound() {
    assert_eq!(ascii_prefix_upper_bound(""), None);
    assert_eq!(ascii_prefix_upper_bound("\u{7f}\u{7f}"), None);
    assert_eq!(ascii_prefix_upper_bound("a\u{7f}"), Some("b".to_string()));
    assert_eq!(ascii_prefix_upper_bound("~"), Some("\u{7f}".to_string()));
    assert_eq!(ascii_prefix_upper_bound("a\u{e9}"), None);
}

#[test]
fn prefix_clauses_use_a_range_or_a_pattern() {
    let (clause, params) = term_prefix_clause("plan");
    assert_eq!(clause, "term_index.term >= ? AND term_index.term < ?");
    assert_eq!(params, vec![SqlValue::Text("plan".into()), SqlValue::Text("plao".into())]);
    let (clause, params) = term_prefix_clause("\u{e9}t");
    assert_eq!(clause, "term_index.term LIKE ?");
    assert_eq!(params, vec![SqlValue::Text("\u{e9}t%".into())]);

    let statement = term_ids_statement("plan");
    assert_eq!(
        statement.sql,
        "SELECT DISTINCT term_index.entry_id FROM terms AS term_index WHERE term_index.term >= ? AND term_index.term < ? ORDER BY term_index.entry_id LIMIT ?"
    );
    assert_eq!(statement.params[2], SqlValue::Integer(50_001));
}

#[test]
fn placeholders_are_separated_by_commas() {
    assert_eq!(placeholders(0), "");
    assert_eq!(placeholders(1), "?");
    assert_eq!(placeholders(3), "?,?,?");
}

#[test]
fn kinds_are_stored_as_numbers() {
    for kind in [EntryKind::File, EntryKind::Directory, EntryKind::Other] {
        assert_eq!(int_to_kind(kind_to_int(kind)), kind);
    }
    assert_eq!(kind_to_int(EntryKind::File), 1);
    assert_eq!(kind_to_int(EntryKind::Directory), 2);
    assert_eq!(int_to_kind(0), EntryKind::Other);
    assert_eq!(int_to_kind(-1), EntryKind::Other);
}

#[test]
fn sizes_that_do_not_fit_are_not_stored() {
    assert_eq!(entry_size_i64(&entry("/r/a", Some(5))), Some(5));
    assert_eq!(entry_size_i64(&entry("/r/a", Some(u64::MAX))), None);
    assert_eq!(entry_size_i64(&entry("/r/a", None)), None);
}

#[test]
fn clocks_before_1970_or_beyond_63_bits_read_as_zero() {
    assert_eq!(unix_seconds(Some(1_700_000_000)), 1_700_000_000);
    assert_eq!(unix_seconds(None), 0);
    assert_eq!(unix_seconds(Some(u64::MAX)), 0);
}

#[test]
fn a_refresh_inserts_updates_and_deletes() {
    let rows = vec![
        stored("/r/same", 1, Some(3), 0),
        stored("/r/grown", 2, Some(3), 0),
        stored("/r/gone", 3, Some(3), 0),
        stored("/r/back", 4, Some(3), 1),
        stored("/r/long-gone", 5, Some(3), 1),
    ];
    let crawled = vec![
        entry("/r/new", Some(1)),
        entry("/r/grown", Some(4)),
        entry("/r/same", Some(3)),
        entry("/r/back", Some(3)),
    ];
    let plan = plan_refresh(ExistingEntries::from_rows(&rows), &crawled);
    assert_eq!(
        plan.changes,
        vec![
            EntryChange::Insert { entry: 0 },
            EntryChange::Update { id: 2, entry: 1 },
            EntryChange::Update { id: 4, entry: 3 },
            EntryChange::MarkDeleted { id: 3 },
        ]
    );
    assert_eq!((plan.inserted, plan.updated, plan.deleted, plan.unchanged), (1, 2, 1, 1));
}

#[test]
fn entries_are_found_by_name_extension_and_components() {
    let sources = term_sources(&path("/r/Docs/Report.PDF"));
    assert_eq!(sources.name, "Report.PDF");
    assert_eq!(sources.extension.as_deref(), Some("pdf"));
    assert_eq!(sources.components, vec!["/", "r", "Docs", "Report.PDF"]);

    let words = |s: &[&str]| s.iter().map(|w| w.to_string()).collect::<Vec<_>>();
    let rows = term_rows(
        &words(&["report", "pdf"]),
        sources.extension,
        &vec![words(&[]), words(&["r"]), words(&["docs"])],
    );
    let rows: Vec<_> = rows.iter().map(|r| (r.term.as_str(), r.field, r.weight)).collect();
    assert_eq!(
        rows,
        vec![
            ("report", 1, 100),
            ("pdf", 1, 100),
            ("pdf", 2, 50),
            ("r", 3, 10),
            ("docs", 3, 10),
        ]
    );

    let odd = term_sources(&FilePath::from_bytes(b"/r/\xff".to_vec()));
    assert_eq!(odd.name, "");
    assert_eq!(odd.extension, None);
    assert_eq!(odd.components, vec!["/", "r"]);
}

#[test]
fn candidates_drop_negative_sizes_and_times() {
    let columns = CandidateColumns {
        path: "/r/a".into(),
        kind: 2,
        priority: -4,
        size: Some(-1),
        mtime: Some(7),
    };
    let row = candidate_row(&columns);
    assert_eq!(row.path, path("/r/a"));
    assert_eq!(row.kind, EntryKind::Directory);
    assert_eq!(row.root_priority, -4);
    assert_eq!(row.byte_size, None);
    assert_eq!(row.modified_unix_seconds, Some(7));
}

#[test]
fn results_rank_by_score_and_by_path() {
    let result = |text: &str, score: i64| SearchResult {
        path: path(text),
        score,
        provider: "sqlite".into(),
        matches: vec![],
        kind: EntryKind::File,
        byte_size: None,
        modified_unix_seconds: None,
    };
    let found = vec![result("/r/b-x", 5), result("/r/z", 9), result("/r/b/x", 5), result("/r/a", 5)];
    let all = rank_results(&found, 10);
    let order: Vec<_> = all.iter().map(|r| r.path.to_lossy()).collect();
    assert_eq!(order, vec!["/r/z", "/r/a", "/r/b/x", "/r/b-x"]);
    assert_eq!(rank_results(&found, 1).len(), 1);
    assert_eq!(rank_results(&found, 0).len(), 0);
}

#[test]
fn matches_have_names() {
    assert_eq!(
        match_names(&[MatchKind::Empty, MatchKind::ExactBasename, MatchKind::RootPriority]),
        vec!["Empty", "ExactBasename", "RootPriority"]
    );
    assert_eq!(
        match_names(&[
            MatchKind::BasenamePrefix,
            MatchKind::BasenameToken,
            MatchKind::PathComponent,
            MatchKind::Substring,
            MatchKind::Fuzzy,
            MatchKind::Extension,
        ]),
        vec!["BasenamePrefix", "BasenameToken", "PathComponent", "Substring", "Fuzzy", "Extension"]
    );
}

#[test]
fn states_of_roots_are_read_leniently() {
    let row = StatusColumns {
        path: "/r".into(),
        entry_count: -3,
        generation: 4,
        dirty: 2,
        last_full_scan_at: None,
        last_incremental_at: Some(8),
    };
    let status = root_status(&row);
    assert_eq!(status.path, path("/r"));
    assert_eq!(status.entry_count, 0);
    assert_eq!(status.generation, 4);
    assert!(status.dirty);
    assert_eq!(status.last_full_scan_at, None);
    assert_eq!(status.last_incremental_at, Some(8));
}

#[test]
fn a_term_yields_at_most_the_work_bound() {
    let rows: Vec<i64> = (1..=MAX_KFS_CANDIDATE_ROWS as i64 + 1).collect();
    let (ids, full) = take_ids(&rows);
    assert_eq!(ids.len(), MAX_KFS_CANDIDATE_ROWS);
    assert!(full);
    let (ids, full) = take_ids(&rows[..MAX_KFS_CANDIDATE_ROWS].to_vec());
    assert_eq!(ids.len(), MAX_KFS_CANDIDATE_ROWS);
    assert!(!full);
}

#[test]
fn a_crowded_term_truncates_the_coverage() {
    let config = SearchConfig { roots: vec![SearchRoot::new(path("/r"))] };
    let mut run = SearchRun::start(&config, &SearchQuery::new("b b a"));
    run.on_root_id(Some(7));
    assert_eq!(run.request(), SearchRequest::Terms("b b a".into()));
    run.on_terms(&vec!["b".to_string(), "b".to_string(), "a".to_string()]);
    assert_eq!(run.request(), SearchRequest::EntryIds(term_ids_statement("a")));
    run.on_entry_ids(&(1..=MAX_KFS_CANDIDATE_ROWS as i64 + 1).collect());
    assert_eq!(run.request(), SearchRequest::EntryIds(term_ids_statement("b")));
    run.on_entry_ids(&vec![5, 9]);
    match run.request() {
        SearchRequest::Candidates(statement) => {
            assert!(statement.sql.contains("entries_main.id IN (?,?) AND entries_main.deleted = 0"));
            let integer = SqlValue::Integer;
            assert_eq!(
                statement.params,
                vec![integer(5), integer(9), integer(7), integer(0), integer(0)]
            );
        }
        other => panic!("{other:?}"),
    }
    run.on_candidates(&vec![]);
    assert_eq!(run.request(), SearchRequest::Finish);
    let outcome = run.finish(&vec![]);
    assert_eq!(outcome.candidate_count, 0);
    assert_eq!(outcome.coverage, CandidateCoverage::Truncated);
}

#[test]
fn truncated_results_do_not_depend_on_the_order_of_the_candidates() {
    let config = SearchConfig { roots: vec![SearchRoot::new(path("/r"))] };
    let crowd: Vec<i64> = (1..=MAX_KFS_CANDIDATE_ROWS as i64 + 1).collect();
    let search = |names: [&str; 3]| {
        let mut run = SearchRun::start(&config, &SearchQuery::new("a b"));
        run.on_root_id(Some(7));
        run.on_terms(&vec!["a".to_string(), "b".to_string()]);
        run.on_entry_ids(&crowd);
        run.on_entry_ids(&vec![2, 3, 5]);
        let row = |name: &&str| CandidateColumns {
            path: format!("/r/{name}"),
            kind: 1,
            priority: 0,
            size: Some(4),
            mtime: None,
        };
        run.on_candidates(&names.iter().map(row).collect());
        let scores = names.map(|name| CandidateScore {
            score: if name == "z" { 9 } else { 4 },
            matches: vec![],
        });
        run.finish(&scores.into())
    };
    let outcome = search(["x", "y", "z"]);
    assert_eq!(outcome.coverage, CandidateCoverage::Truncated);
    let found: Vec<_> = outcome.results.iter().map(|r| r.path.to_lossy()).collect();
    assert_eq!(found, vec!["/r/z", "/r/x", "/r/y"]);
    assert_eq!(search(["z", "y", "x"]), outcome);
    assert_eq!(search(["y", "z", "x"]), outcome);
}

#[test]
fn a_term_without_entries_completes_the_coverage_of_a_crowded_one() {
    let config = SearchConfig { roots: vec![SearchRoot::new(path("/r"))] };
    let crowd: Vec<i64> = (1..=MAX_KFS_CANDIDATE_ROWS as i64 + 1).collect();
    let words = |s: &[&str]| s.iter().map(|w| w.to_string()).collect::<Vec<_>>();

    let mut run = SearchRun::start(&config, &SearchQuery::new("aaa zzz"));
    run.on_root_id(Some(7));
    run.on_terms(&words(&["aaa", "zzz"]));
    run.on_entry_ids(&crowd);
    run.on_entry_ids(&vec![]);
    assert_eq!(run.request(), SearchRequest::Finish);
    let outcome = run.finish(&vec![]);
    assert_eq!((outcome.candidate_count, outcome.truncated), (0, false));
    assert_eq!(outcome.coverage, CandidateCoverage::Complete);

    // an entry that both terms have may lie past the bound
    let mut cut = SearchRun::start(&config, &SearchQuery::new("aaa bbb"));
    cut.on_root_id(Some(7));
    cut.on_terms(&words(&["aaa", "bbb"]));
    cut.on_entry_ids(&crowd);
    cut.on_entry_ids(&vec![MAX_KFS_CANDIDATE_ROWS as i64 + 1]);
    assert_eq!(cut.request(), SearchRequest::Finish);
    assert_eq!(cut.finish(&vec![]).coverage, CandidateCoverage::Truncated);

    // a later term still tells whether anything can be missed
    let mut later = SearchRun::start(&config, &SearchQuery::new("aaa bbb zzz"));
    later.on_root_id(Some(7));
    later.on_terms(&words(&["aaa", "bbb", "zzz"]));
    later.on_entry_ids(&crowd);
    later.on_entry_ids(&vec![MAX_KFS_CANDIDATE_ROWS as i64 + 1]);
    assert_eq!(later.request(), SearchRequest::EntryIds(term_ids_statement("zzz")));
    later.on_entry_ids(&vec![]);
    assert_eq!(later.request(), SearchRequest::Finish);
    assert_eq!(later.finish(&vec![]).coverage, CandidateCoverage::Complete);
}

#[test]
fn a_term_without_entries_ends_the_search() {
    let config = SearchConfig {
        roots: vec![SearchRoot::new(path("/r")), SearchRoot::new(path("/s"))],
    };
    let mut run = SearchRun::start(&config, &SearchQuery::new("a b"));
    run.on_root_id(None);
    run.on_root_id(Some(3));
    run.on_terms(&vec!["a".to_string(), "b".to_string()]);
    run.on_entry_ids(&vec![]);
    assert_eq!(run.request(), SearchRequest::Finish);
    assert_eq!(run.finish(&vec![]).coverage, CandidateCoverage::Complete);

    let mut unknown = SearchRun::start(&config, &SearchQuery::new("a b"));
    unknown.on_root_id(None);
    unknown.on_root_id(None);
    assert_eq!(unknown.request(), SearchRequest::Finish);
}

#[test]
fn a_failed_crawl_is_recorded_and_nothing_else_is_written() {
    let mut work = RootWork::failed(7, 100);
    match work.request() {
        WorkRequest::Count(statement) => {
            assert_eq!(statement.params, vec![SqlValue::Integer(7)]);
        }
        other => panic!("{other:?}"),
    }
    work.on_count(3);
    match work.request() {
        WorkRequest::Run(statements) => {
            assert_eq!(statements, vec![record_failed_scan_statement(7, 3)]);
        }
        other => panic!("{other:?}"),
    }
    work.on_run();
    assert!(matches!(work.request(), WorkRequest::Done));
}

#[test]
fn changes_are_carried_out_in_order() {
    let changes = vec![
        EntryChange::Update { id: 4, entry: 1 },
        EntryChange::Insert { entry: 0 },
        EntryChange::MarkDeleted { id: 9 },
    ];
    let entries = vec![entry("/r/new.md", Some(1)), entry("/r/old.md", Some(2))];
    let mut work = RootWork::apply(7, 100, entries, changes);
    let mut written = vec![];
    loop {
        match work.request() {
            WorkRequest::Run(statements) => {
                written.extend(statements);
                work.on_run();
            }
            WorkRequest::EntryId(_) => work.on_entry_id(12),
            WorkRequest::Terms { name, components } => {
                assert_eq!(components.len(), 3);
                work.on_terms(&vec![name], &vec![]);
            }
            WorkRequest::Count(_) => work.on_count(2),
            WorkRequest::Done => break,
        }
    }
    let heads: Vec<_> = written
        .iter()
        .map(|s| s.sql.split(' ').take(3).collect::<Vec<_>>().join(" "))
        .collect();
    assert_eq!(
        heads,
        vec![
            "UPDATE entries SET",
            "DELETE FROM terms",
            "INSERT OR IGNORE",
            "INSERT OR IGNORE",
            "INSERT INTO entries",
            "INSERT OR IGNORE",
            "INSERT OR IGNORE",
            "UPDATE entries SET",
            "DELETE FROM terms",
            "INSERT INTO root_state",
        ]
    );
    let integer = SqlValue::Integer;
    assert_eq!(
        written[5].params,
        vec![SqlValue::Text("new.md".into()), integer(12), integer(1), integer(100)]
    );
    assert_eq!(
        written[6].params,
        vec![SqlValue::Text("md".into()), integer(12), integer(2), integer(50)]
    );
    assert_eq!(written[7].params, vec![integer(100), integer(9)]);
    assert_eq!(written[9], record_incremental_scan_statement(7, 100, 2));
}
