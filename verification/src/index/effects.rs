//! What the database stores where a statement is run.
//!
//! The columns of a row are what the parameters at their places say. That the
//! statements of a change make the change that is meant, and those of a root's
//! state the one that is recorded, follows from it.

use crate::index::changes::{among_rows, rows_read_as_they_are_stored};
use crate::index::passes::stored_root;
use crate::index::refresh::{rows_table, EntryChange};
use crate::index::roots::{mark_root_dirty_view, status_of, status_view, upsert_root_view, StatusColumns};
use crate::index::rows::{delete_entries_view, delete_terms_view, entry_columns, insert_entry_view, insert_term_view, insert_term_views, load_entries_view, mark_entry_deleted_view, select_entry_id_view, update_entry_view, CrawledView, EntryRow, TermView};
use crate::index::sql::{count_entries_view, flag_value, StatementView, ValueView};
use crate::index::state::{after_marking, full_scan_of, generation_of, incremental_scan_of, reads_state, state_of, RootState, States};
use crate::index::store::{stored_entry, Store, StoredEntry, StoredRoot};
use crate::index::work::{Answers, ScanRecord, WorkView};
use crate::model::{EntryKind, RootView};
use crate::path::{extension, file_name, lossy_utf8, utf8_text};
use crate::text::ascii_lower_text;
use vstd::prelude::*;
use vstd::utf8::encode_utf8;

verus! {

/// A text or nothing.
pub open spec fn as_text(value: ValueView) -> Option<Seq<char>> {
    match value {
        ValueView::Text(s) => Some(s),
        _ => None,
    }
}

/// A number or nothing.
pub open spec fn as_number(value: ValueView) -> Option<i64> {
    match value {
        ValueView::Integer(n) => Some(n),
        _ => None,
    }
}

/// The live row whose columns, from its path to its last flag, are the values
/// from a place on: the path, the path in lower case, the name, the name in lower
/// case, the extension, the kind, the size, the time, and whether it is hidden,
/// ignored and sensitive.
pub open spec fn row_of(root_id: i64, p: Seq<ValueView>, at: int) -> StoredEntry {
    StoredEntry {
        root_id,
        path: p[at]->Text_0,
        kind: p[at + 5]->Integer_0,
        extension: as_text(p[at + 4]),
        size: as_number(p[at + 6]),
        mtime: as_number(p[at + 7]),
        hidden: p[at + 8]->Integer_0 != 0,
        ignored: p[at + 9]->Integer_0 != 0,
        sensitive: p[at + 10]->Integer_0 != 0,
        deleted: false,
    }
}

impl Store {
    /// Whether running a statement takes the database from this state to
    /// another; a new row gets the id `fresh`.
    pub open spec fn runs(self, s: StatementView, fresh: i64, after: Store) -> bool {
        let p = s.params;
        &&& s.sql
            == "INSERT INTO entries (root_id, path, path_lower, name, name_lower, extension, kind, size, mtime, hidden, ignored, sensitive, deleted, indexed_at) VALUES (?1, ?2, ?3, ?4, ?5, ?6, ?7, ?8, ?9, ?10, ?11, ?12, 0, ?13)"@
            && p.len() == 13 ==> after == (Store {
            entries: self.entries.insert(fresh, row_of(p[0]->Integer_0, p, 1)),
            ..self
        })
        &&& s.sql
            == "UPDATE entries SET path = ?1, path_lower = ?2, name = ?3, name_lower = ?4, extension = ?5, kind = ?6, size = ?7, mtime = ?8, hidden = ?9, ignored = ?10, sensitive = ?11, deleted = 0, indexed_at = ?12 WHERE id = ?13"@
            && p.len() == 13 ==> {
            let id = p[12]->Integer_0;
            if self.entries.contains_key(id) {
                after == (Store {
                    entries: self.entries.insert(id, row_of(self.entries[id].root_id, p, 0)),
                    ..self
                })
            } else {
                after == self
            }
        }
        &&& s.sql == "UPDATE entries SET deleted = 1, indexed_at = ?1 WHERE id = ?2"@ && p.len() == 2 ==> {
            let id = p[1]->Integer_0;
            if self.entries.contains_key(id) {
                after == (Store {
                    entries: self.entries.insert(
                        id,
                        StoredEntry { deleted: true, ..self.entries[id] },
                    ),
                    ..self
                })
            } else {
                after == self
            }
        }
        &&& s.sql == "DELETE FROM terms WHERE entry_id = ?1"@ && p.len() == 1 ==> after == (Store {
            terms: Set::new(
                |t: (Seq<char>, i64)| t.1 != p[0]->Integer_0 && self.terms.contains(t),
            ),
            ..self
        })
        &&& s.sql
            == "INSERT OR IGNORE INTO terms (term, entry_id, field, weight) VALUES (?1, ?2, ?3, ?4)"@
            && p.len() == 4 ==> after == (Store {
            terms: self.terms.insert((p[0]->Text_0, p[1]->Integer_0)),
            ..self
        })
        &&& s.sql == "DELETE FROM entries WHERE root_id = ?1"@ && p.len() == 1 ==> after == (Store {
            entries: Map::new(
                |id: i64|
                    self.entries.contains_key(id) && self.entries[id].root_id != p[0]->Integer_0,
                |id: i64| self.entries[id],
            ),
            terms: Set::new(
                |t: (Seq<char>, i64)|
                    self.terms.contains(t) && self.entries[t.1].root_id != p[0]->Integer_0,
            ),
            ..self
        })
        &&& s.sql
            == "INSERT INTO roots (path, enabled, priority, include_hidden, include_ignored, updated_at) VALUES (?1, ?2, ?3, ?4, ?5, ?6) ON CONFLICT(path) DO UPDATE SET enabled = excluded.enabled, priority = excluded.priority, include_hidden = excluded.include_hidden, include_ignored = excluded.include_ignored, updated_at = excluded.updated_at"@
            && p.len() == 6 && self.names_root(p[0]->Text_0, fresh) ==> after == (Store {
            roots: self.roots.insert(
                fresh,
                StoredRoot {
                    path: p[0]->Text_0,
                    priority: p[2]->Integer_0 as i32,
                    include_hidden: p[3]->Integer_0 != 0,
                    include_ignored: p[4]->Integer_0 != 0,
                },
            ),
            ..self
        })
    }

    /// Whether these are the states through which a list of statements takes the
    /// database.
    pub open spec fn goes_through(
        self,
        list: Seq<StatementView>,
        fresh: i64,
        states: Seq<Store>,
    ) -> bool {
        &&& states.len() == list.len() + 1
        &&& states[0] == self
        &&& forall|i: int|
            0 <= i < list.len() ==> states[i].runs(#[trigger] list[i], fresh, states[i + 1])
    }

    /// Whether a list of statements takes the database to another state.
    pub open spec fn reaches(self, list: Seq<StatementView>, fresh: i64, after: Store) -> bool {
        exists|states: Seq<Store>| #[trigger]
            self.goes_through(list, fresh, states) && states.last() == after
    }

    /// Whether an id is what the database gives where a statement looks up an
    /// entry by its root and its path.
    pub open spec fn gives_entry_id(self, s: StatementView, id: i64) -> bool {
        let p = s.params;
        s.sql == "SELECT id FROM entries WHERE root_id = ?1 AND path = ?2"@ && p.len() == 2
            ==> self.entries.contains_key(id) && self.entries[id].root_id == p[0]->Integer_0
            && self.entries[id].path == p[1]->Text_0
    }

    /// Whether a number is what the database gives where a statement counts the
    /// live entries of a root.
    pub open spec fn gives_count(self, s: StatementView, count: nat) -> bool {
        let p = s.params;
        s.sql == "SELECT COUNT(*) FROM entries WHERE root_id = ?1 AND deleted = 0"@ && p.len() == 1
            ==> self.counts(p[0]->Integer_0, count)
    }

    /// Whether rows are what the database gives where a statement reads what is
    /// stored of the entries of a root.
    pub open spec fn gives_rows(self, s: StatementView, rows: Seq<EntryRow>) -> bool {
        let p = s.params;
        s.sql == "SELECT path, id, kind, size, mtime, hidden, ignored, sensitive, deleted FROM entries WHERE root_id = ?1"@
            && p.len() == 1 ==> self.answers_rows(p[0]->Integer_0, rows)
    }

    /// Whether a root is among rows of states.
    pub open spec fn has_status(self, states: States, id: i64, rows: Seq<StatusColumns>) -> bool {
        exists|i: int|
            0 <= i < rows.len() && reads_state(
                #[trigger] rows[i],
                self.roots[id].path,
                state_of(states, id),
            )
    }

    /// Whether rows are what the database gives where a statement reads the
    /// state of every root.
    pub open spec fn gives_status(
        self,
        states: States,
        s: StatementView,
        rows: Seq<StatusColumns>,
    ) -> bool {
        s.sql
            == "SELECT r.path, COALESCE(s.entry_count, 0), COALESCE(s.generation, 0), COALESCE(s.dirty, 0), s.last_full_scan_at, s.last_incremental_at FROM roots r LEFT JOIN root_state s ON s.root_id = r.id ORDER BY r.path"@
            && s.params.len() == 0 ==> forall|id: i64| #[trigger]
            self.roots.contains_key(id) ==> self.has_status(states, id, rows)
    }
}

/// An updated row holds, column by column, what a new row would: the statement
/// that stores an entry anew carries for each column the value that the
/// statement that stores it first carries, and no other.
pub proof fn updates_carry_what_inserts_carry(
    root_id: i64,
    id: i64,
    entry: CrawledView,
    indexed_at: i64,
)
    ensures
        ({
            let new = insert_entry_view(root_id, entry, indexed_at).params;
            let anew = update_entry_view(id, entry, indexed_at).params;
            &&& new.len() == 13 && anew.len() == 13
            &&& forall|k: int| 0 <= k < 12 ==> #[trigger] anew[k] == new[k + 1]
            &&& new[0] == ValueView::Integer(root_id)
            &&& anew[12] == ValueView::Integer(id)
            &&& new[12] == ValueView::Integer(indexed_at)
        }),
{
    let new = insert_entry_view(root_id, entry, indexed_at).params;
    let anew = update_entry_view(id, entry, indexed_at).params;
    assert forall|k: int| 0 <= k < 12 implies #[trigger] anew[k] == new[k + 1] by {
        if k < 11 {
            assert(anew[k] == entry_columns(entry)[k]);
            assert(new[k + 1] == entry_columns(entry)[k]);
        }
    }
}

/// The row of an entry: each column is what the entry says. Its path is text, its
/// kind is a number, 1 for a file, 2 for a directory and 3 for anything else, a
/// size that 63 bits do not hold is missing, and a missing extension, size or
/// time is no value.
pub proof fn rows_hold_what_was_crawled(root_id: i64, entry: CrawledView, indexed_at: i64)
    ensures
        ({
            let p = insert_entry_view(root_id, entry, indexed_at).params;
            let row = row_of(root_id, p, 1);
            &&& row == stored_entry(root_id, entry)
            &&& row.root_id == root_id
            &&& row.path == lossy_utf8(entry.path)
            &&& entry.kind == EntryKind::File ==> row.kind == 1
            &&& entry.kind == EntryKind::Directory ==> row.kind == 2
            &&& entry.kind == EntryKind::Other ==> row.kind == 3
            &&& entry.size is None ==> row.size is None
            &&& entry.size is Some && entry.size->0 > 0x7fff_ffff_ffff_ffff ==> row.size is None
            &&& entry.size is Some && entry.size->0 <= 0x7fff_ffff_ffff_ffff ==> row.size is Some
                && row.size->0 == entry.size->0
            &&& row.mtime == entry.mtime
            &&& row.hidden == entry.hidden
            &&& row.ignored == entry.ignored
            &&& row.sensitive == entry.sensitive
            &&& !row.deleted
        }),
{
    let p = insert_entry_view(root_id, entry, indexed_at).params;
    assert forall|k: int| 0 <= k < 11 implies #[trigger] p[k + 1] == entry_columns(entry)[k] by {}
    assert(p[5] == entry_columns(entry)[4]);
    assert(row_of(root_id, p, 1) == stored_entry(root_id, entry));
}

/// The columns that are kept beside those that are read: the path in lower case,
/// the file name, empty where the path has none in UTF-8, the name in lower case,
/// the extension, and the time at which the row was stored.
pub proof fn names_are_kept_beside_the_path(
    root_id: i64,
    id: i64,
    entry: CrawledView,
    indexed_at: i64,
)
    ensures
        ({
            let p = insert_entry_view(root_id, entry, indexed_at).params;
            let q = update_entry_view(id, entry, indexed_at).params;
            let name = match file_name(entry.path) {
                Some(last) => match utf8_text(last) {
                    Some(text) => text,
                    None => Seq::<char>::empty(),
                },
                None => Seq::<char>::empty(),
            };
            let extension = match extension(entry.path) {
                Some(ext) => match utf8_text(ext) {
                    Some(text) => Some(ascii_lower_text(text)),
                    None => None,
                },
                None => None,
            };
            &&& p[1] == ValueView::Text(lossy_utf8(entry.path)) && q[0] == p[1]
            &&& p[2] == ValueView::Text(ascii_lower_text(lossy_utf8(entry.path))) && q[1] == p[2]
            &&& p[3] == ValueView::Text(name) && q[2] == p[3]
            &&& p[4] == ValueView::Text(ascii_lower_text(name)) && q[3] == p[4]
            &&& extension is Some ==> p[5] == ValueView::Text(extension->0) && q[4] == p[5]
            &&& extension is None ==> p[5] == ValueView::Null && q[4] == p[5]
            &&& as_text(p[5]) == extension
            &&& p[12] == ValueView::Integer(indexed_at) && q[11] == p[12]
        }),
{
    let p = insert_entry_view(root_id, entry, indexed_at).params;
    updates_carry_what_inserts_carry(root_id, id, entry, indexed_at);
    let q = update_entry_view(id, entry, indexed_at).params;
    assert(p[5] == entry_columns(entry)[4]);
    assert(q[0] == p[1] && q[1] == p[2] && q[2] == p[3] && q[3] == p[4]);
    assert(q[4] == p[5] && q[11] == p[12]);
}

proof fn lemma_terms_run(
    store: Store,
    id: i64,
    rows: Seq<TermView>,
    fresh: i64,
    states: Seq<Store>,
    n: nat,
)
    requires
        store.goes_through(insert_term_views(id, rows), fresh, states),
        n <= rows.len(),
    ensures
        states[n as int].roots == store.roots,
        states[n as int].entries == store.entries,
        forall|t: (Seq<char>, i64)| #[trigger]
            states[n as int].terms.contains(t) <==> store.terms.contains(t) || (t.1 == id
                && among_rows(rows.take(n as int), t.0)),
    decreases n,
{
    if n > 0 {
        let m = (n - 1) as nat;
        lemma_terms_run(store, id, rows, fresh, states, m);
        let list = insert_term_views(id, rows);
        assert(list[m as int] == insert_term_view(id, rows[m as int]));
        assert(states[m as int].runs(list[m as int], fresh, states[m as int + 1]));
        let before = states[m as int];
        let after = states[n as int];
        assert(after.terms == before.terms.insert((rows[m as int].term, id)));
        assert forall|t: (Seq<char>, i64)| #[trigger] after.terms.contains(t) <==> store.terms.contains(
            t,
        ) || (t.1 == id && among_rows(rows.take(n as int), t.0)) by {
            let few = rows.take(m as int);
            let more = rows.take(n as int);
            if among_rows(few, t.0) {
                let i = choose|i: int| 0 <= i < few.len() && (#[trigger] few[i]).term == t.0;
                assert(more[i].term == t.0);
            }
            if t.0 == rows[m as int].term {
                assert(more[m as int].term == t.0);
            }
            if among_rows(more, t.0) {
                let i = choose|i: int| 0 <= i < more.len() && (#[trigger] more[i]).term == t.0;
                if i < m {
                    assert(few[i].term == t.0);
                }
            }
        }
    }
}

/// A trace from a place on.
proof fn lemma_trace_from(
    store: Store,
    first: Seq<StatementView>,
    rest: Seq<StatementView>,
    fresh: i64,
    states: Seq<Store>,
)
    requires
        store.goes_through(first + rest, fresh, states),
    ensures
        store.goes_through(first, fresh, states.take(first.len() as int + 1)),
        states[first.len() as int].goes_through(rest, fresh, states.skip(first.len() as int)),
        states.skip(first.len() as int).last() == states.last(),
{
    let list = first + rest;
    let n = first.len() as int;
    let a = states.take(n + 1);
    let b = states.skip(n);
    assert forall|i: int| 0 <= i < first.len() implies a[i].runs(
        #[trigger] first[i],
        fresh,
        a[i + 1],
    ) by {
        assert(list[i] == first[i]);
    }
    assert forall|i: int| 0 <= i < rest.len() implies b[i].runs(
        #[trigger] rest[i],
        fresh,
        b[i + 1],
    ) by {
        assert(list[n + i] == rest[i]);
        assert(states[n + i].runs(list[n + i], fresh, states[n + i + 1]));
    }
}

/// The statements of a change make it: run one after the other, they leave the
/// database with the new entry and its terms, with the entry stored anew and its
/// terms in place of those it had, or with the entry deleted and without terms.
pub proof fn the_statements_of_a_change_make_it(
    store: Store,
    work: WorkView,
    answers: Answers,
    k: int,
    after: Store,
)
    requires
        0 <= k < work.changes.len(),
        match work.changes[k] {
            EntryChange::Insert { .. } => true,
            EntryChange::Update { id, .. } => store.entries.contains_key(id),
            EntryChange::MarkDeleted { id } => store.entries.contains_key(id),
        },
        work.changes.len() <= usize::MAX,
        store.reaches(work.change_statements(answers, k), (answers.entry_id)(k), after),
    ensures
        after == store.changed(
            work.root_id,
            work.entries,
            work.changes[k],
            (answers.entry_id)(k),
            work.terms(answers, k),
        ),
{
    let list = work.change_statements(answers, k);
    let fresh = (answers.entry_id)(k);
    let rows = work.terms(answers, k);
    let states = choose|states: Seq<Store>| #[trigger]
        store.goes_through(list, fresh, states) && states.last() == after;
    let made = store.changed(work.root_id, work.entries, work.changes[k], fresh, rows);
    match work.changes[k] {
        EntryChange::Insert { entry } => {
            let e = work.entries[entry as int];
            let first = seq![insert_entry_view(work.root_id, e, work.now)];
            let rest = insert_term_views(fresh, rows);
            lemma_trace_from(store, first, rest, fresh, states);
            assert(first[0] == list[0]);
            assert(states[0].runs(list[0], fresh, states[1]));
            rows_hold_what_was_crawled(work.root_id, e, work.now);
            lemma_terms_run(states[1], fresh, rows, fresh, states.skip(1), rows.len());
            assert(rows.take(rows.len() as int) =~= rows);
            assert(states.skip(1)[rows.len() as int] == after);
            assert(after.terms =~= made.terms);
            assert(after.entries =~= made.entries);
        },
        EntryChange::Update { id, entry } => {
            let e = work.entries[entry as int];
            let first = seq![update_entry_view(id, e, work.now), delete_terms_view(id)];
            let rest = insert_term_views(id, rows);
            lemma_trace_from(store, first, rest, fresh, states);
            assert(first[0] == list[0] && first[1] == list[1]);
            assert(states[0].runs(list[0], fresh, states[1]));
            assert(states[1].runs(list[1], fresh, states[2]));
            let root_id = store.entries[id].root_id;
            rows_hold_what_was_crawled(root_id, e, work.now);
            lemma_same_rows(root_id, id, e, work.now);
            lemma_terms_run(states[2], id, rows, fresh, states.skip(2), rows.len());
            assert(rows.take(rows.len() as int) =~= rows);
            assert(states.skip(2)[rows.len() as int] == after);
            assert(after.terms =~= made.terms);
            assert(after.entries =~= made.entries);
        },
        EntryChange::MarkDeleted { id } => {
            assert(list[0] == mark_entry_deleted_view(id, work.now));
            assert(list[1] == delete_terms_view(id));
            assert(states[0].runs(list[0], fresh, states[1]));
            assert(states[1].runs(list[1], fresh, states[2]));
            assert(after.terms =~= made.terms);
            assert(after.entries =~= made.entries);
        },
    }
}

proof fn lemma_same_rows(root_id: i64, id: i64, entry: CrawledView, indexed_at: i64)
    ensures
        row_of(root_id, update_entry_view(id, entry, indexed_at).params, 0) == row_of(
            root_id,
            insert_entry_view(root_id, entry, indexed_at).params,
            1,
        ),
{
    updates_carry_what_inserts_carry(root_id, id, entry, indexed_at);
    let new = insert_entry_view(root_id, entry, indexed_at).params;
    let anew = update_entry_view(id, entry, indexed_at).params;
    assert forall|k: int| 0 <= k < 11 implies #[trigger] new[1 + k] == anew[0 + k] by {
        assert(anew[k] == new[k + 1]);
    }
}

/// A row that is updated from a crawled entry is the row that would be inserted
/// for it, but for its id.
pub proof fn an_updated_row_is_as_if_new(
    store: Store,
    id: i64,
    entry: CrawledView,
    indexed_at: i64,
    other: Store,
    fresh: i64,
    updated: Store,
    inserted: Store,
)
    requires
        store.entries.contains_key(id),
        store.runs(update_entry_view(id, entry, indexed_at), fresh, updated),
        other.runs(
            insert_entry_view(store.entries[id].root_id, entry, indexed_at),
            fresh,
            inserted,
        ),
    ensures
        updated.entries[id] == inserted.entries[fresh],
        forall|n: i64| n != id ==> #[trigger] updated.entries.contains_key(n)
            == store.entries.contains_key(n) && updated.entries[n] == store.entries[n],
        updated.terms == store.terms,
{
    lemma_same_rows(store.entries[id].root_id, id, entry, indexed_at);
}

/// The id that is looked up once an entry was stored is its own.
pub proof fn a_stored_entry_is_looked_up(
    store: Store,
    work: WorkView,
    k: int,
    answers: Answers,
    entry: usize,
    id: i64,
)
    requires
        work.changes[k] == (EntryChange::Insert { entry }),
        ({
            let stored = store.changed(
                work.root_id,
                work.entries,
                work.changes[k],
                (answers.entry_id)(k),
                Seq::empty(),
            );
            stored.wf() && stored.gives_entry_id(
                select_entry_id_view(work.root_id, work.entries[entry as int]),
                id,
            )
        }),
    ensures
        id == (answers.entry_id)(k),
{
    let e = work.entries[entry as int];
    let fresh = (answers.entry_id)(k);
    let stored = store.changed(work.root_id, work.entries, work.changes[k], fresh, Seq::empty());
    let p = select_entry_id_view(work.root_id, e).params;
    assert(p[0] == ValueView::Integer(work.root_id) && p[1] == ValueView::Text(e.key()));
    assert(stored.entries.contains_key(fresh));
    assert(stored.entries.contains_key(id));
}

/// The statement that counts the live entries of a root counts those of that
/// root.
pub proof fn counting_counts_the_root(store: Store, root_id: i64, count: nat)
    requires
        store.gives_count(count_entries_view(root_id), count),
    ensures
        store.counts(root_id, count),
{
    assert(count_entries_view(root_id).params[0] == ValueView::Integer(root_id));
}

/// What is loaded of a root is what is stored of it.
pub proof fn loading_reads_the_root(store: Store, root_id: i64, rows: Seq<EntryRow>)
    requires
        store.wf(),
        store.gives_rows(load_entries_view(root_id), rows),
    ensures
        store.reads(root_id, rows_table(rows, rows.len())),
{
    assert(load_entries_view(root_id).params[0] == ValueView::Integer(root_id));
    rows_read_as_they_are_stored(store, root_id, rows);
}

/// The state of every root that is stored is reported: under its path, with its
/// generation and its times, and as dirty where it is.
pub proof fn the_status_of_every_root_is_read(
    store: Store,
    states: States,
    rows: Seq<StatusColumns>,
    id: i64,
) -> (i: int)
    requires
        store.gives_status(states, status_view(), rows),
        store.roots.contains_key(id),
    ensures
        0 <= i < rows.len(),
        status_of(rows[i]).path == encode_utf8(store.roots[id].path),
        status_of(rows[i]).generation == generation_of(state_of(states, id)),
        status_of(rows[i]).dirty <==> states.contains_key(id) && states[id].dirty,
        status_of(rows[i]).last_full_scan_at == full_scan_of(state_of(states, id)),
        status_of(rows[i]).last_incremental_at == incremental_scan_of(state_of(states, id)),
        states.contains_key(id) && 0 <= states[id].entry_count <= usize::MAX ==> status_of(
            rows[i],
        ).entry_count == states[id].entry_count,
        !states.contains_key(id) ==> status_of(rows[i]).entry_count == 0,
{
    assert(store.has_status(states, id, rows));
    choose|i: int|
        0 <= i < rows.len() && reads_state(
            #[trigger] rows[i],
            store.roots[id].path,
            state_of(states, id),
        )
}

/// Whether the statements of the first `n` changes of a work take the database
/// through these states; each change begins where the last one ended.
pub open spec fn works_through(
    work: WorkView,
    answers: Answers,
    stores: Seq<Store>,
    n: nat,
) -> bool {
    &&& stores.len() == n + 1
    &&& forall|k: int|
        0 <= k < n ==> #[trigger] stores[k].reaches(
            work.change_statements(answers, k),
            (answers.entry_id)(k),
            stores[k + 1],
        ) && match work.changes[k] {
            EntryChange::Insert { .. } => true,
            EntryChange::Update { id, .. } => stores[k].entries.contains_key(id),
            EntryChange::MarkDeleted { id } => stores[k].entries.contains_key(id),
        }
}

proof fn lemma_works_through(work: WorkView, answers: Answers, stores: Seq<Store>, n: nat)
    requires
        n <= work.changes.len() <= usize::MAX,
        works_through(work, answers, stores, n),
    ensures
        stores[n as int] == stores[0].changed_all(
            work.root_id,
            work.entries,
            work.changes.take(n as int),
            answers.entry_id,
            work.rows(answers),
        ),
    decreases n,
{
    let some = work.changes.take(n as int);
    if n > 0 {
        let m = (n - 1) as nat;
        let fewer = stores.take(n as int);
        assert forall|k: int| 0 <= k < m implies #[trigger] fewer[k].reaches(
            work.change_statements(answers, k),
            (answers.entry_id)(k),
            fewer[k + 1],
        ) && match work.changes[k] {
            EntryChange::Insert { .. } => true,
            EntryChange::Update { id, .. } => fewer[k].entries.contains_key(id),
            EntryChange::MarkDeleted { id } => fewer[k].entries.contains_key(id),
        } by {
            assert(stores[k].reaches(
                work.change_statements(answers, k),
                (answers.entry_id)(k),
                stores[k + 1],
            ));
        }
        lemma_works_through(work, answers, fewer, m);
        assert(some.drop_last() =~= work.changes.take(m as int));
        assert(stores[m as int].reaches(
            work.change_statements(answers, m as int),
            (answers.entry_id)(m as int),
            stores[m as int + 1],
        ));
        the_statements_of_a_change_make_it(
            stores[m as int],
            work,
            answers,
            m as int,
            stores[n as int],
        );
        assert((work.rows(answers))(m as int) == work.terms(answers, m as int));
    }
}

/// The statements of a work store what it is to store: for a rebuild, what is
/// stored of the root is removed first; then each change is made, in order.
pub proof fn the_statements_of_a_work_store_the_crawl(
    store: Store,
    work: WorkView,
    answers: Answers,
    stores: Seq<Store>,
)
    requires
        work.changes.len() <= usize::MAX,
        works_through(work, answers, stores, work.changes.len()),
        work.record == ScanRecord::Full ==> store.runs(
            delete_entries_view(work.root_id),
            0,
            stores[0],
        ),
        work.record != ScanRecord::Full ==> stores[0] == store,
    ensures
        stores.last() == work.stored(answers, store),
{
    lemma_works_through(work, answers, stores, work.changes.len());
    assert(work.changes.take(work.changes.len() as int) =~= work.changes);
    if work.record == ScanRecord::Full {
        assert(delete_entries_view(work.root_id).params[0] == ValueView::Integer(work.root_id));
        let cleared = store.cleared(work.root_id);
        assert(stores[0].entries =~= cleared.entries);
        assert(stores[0].terms =~= cleared.terms);
    }
}

/// Removing the entries of a root leaves none of them and none of their terms,
/// and all of every other root.
pub proof fn clearing_removes_the_root_alone(store: Store, root_id: i64, after: Store)
    requires
        store.wf(),
        store.runs(delete_entries_view(root_id), 0, after),
    ensures
        after.roots == store.roots,
        forall|id: i64| #[trigger]
            after.entries.contains_key(id) <==> store.entries.contains_key(id)
                && store.entries[id].root_id != root_id,
        forall|id: i64| #[trigger]
            after.entries.contains_key(id) ==> after.entries[id] == store.entries[id],
        forall|t: (Seq<char>, i64)| #[trigger]
            after.terms.contains(t) <==> store.terms.contains(t) && after.entries.contains_key(t.1),
{
    assert(delete_entries_view(root_id).params[0] == ValueView::Integer(root_id));
}

/// The statement that stores a root stores it as it is configured, under the id
/// that it has or under a new one, and changes nothing else.
pub proof fn a_root_is_stored_as_configured(
    store: Store,
    root: RootView,
    now: i64,
    id: i64,
    after: Store,
)
    requires
        store.names_root(lossy_utf8(root.path), id),
        store.runs(upsert_root_view(root, now), id, after),
    ensures
        after == store.with_root(id, root),
        after.roots[id].path == lossy_utf8(root.path),
        after.roots[id].priority == root.priority,
        after.roots[id].include_hidden == root.include_hidden,
        after.roots[id].include_ignored == root.include_ignored,
        after.entries == store.entries,
        after.terms == store.terms,
        forall|n: i64| #[trigger]
            after.roots.contains_key(n) <==> n == id || store.roots.contains_key(n),
        forall|n: i64|
            n != id && #[trigger] after.roots.contains_key(n) ==> after.roots[n] == store.roots[n],
{
    let p = upsert_root_view(root, now).params;
    assert(p[0] == ValueView::Text(lossy_utf8(root.path)));
    assert(p[2] == ValueView::Integer(root.priority as i64));
    assert(after.roots[id] == stored_root(root));
}

/// Whether running a statement takes the states of the roots from one to another.
pub open spec fn records(states: States, s: StatementView, after: States) -> bool {
    let p = s.params;
    let id = p[0]->Integer_0;
    let old = state_of(states, id);
    &&& s.sql
        == "INSERT INTO root_state (root_id, generation, last_full_scan_at, last_incremental_at, dirty, entry_count) VALUES (?1, COALESCE((SELECT generation + 1 FROM root_state WHERE root_id = ?1), 1), ?2, NULL, 0, ?3) ON CONFLICT(root_id) DO UPDATE SET generation = root_state.generation + 1, last_full_scan_at = excluded.last_full_scan_at, dirty = 0, entry_count = excluded.entry_count"@
        && p.len() == 3 ==> after == states.insert(
        id,
        RootState {
            generation: generation_of(old) + 1,
            last_full_scan_at: as_number(p[1]),
            last_incremental_at: incremental_scan_of(old),
            dirty: false,
            entry_count: p[2]->Integer_0,
        },
    )
    &&& s.sql
        == "INSERT INTO root_state (root_id, generation, last_full_scan_at, last_incremental_at, dirty, entry_count) VALUES (?1, COALESCE((SELECT generation + 1 FROM root_state WHERE root_id = ?1), 1), NULL, ?2, ?3, ?4) ON CONFLICT(root_id) DO UPDATE SET generation = root_state.generation + 1, last_incremental_at = excluded.last_incremental_at, dirty = excluded.dirty, entry_count = excluded.entry_count"@
        && p.len() == 4 ==> after == states.insert(
        id,
        RootState {
            generation: generation_of(old) + 1,
            last_full_scan_at: full_scan_of(old),
            last_incremental_at: as_number(p[1]),
            dirty: p[2]->Integer_0 != 0,
            entry_count: p[3]->Integer_0,
        },
    )
    &&& s.sql
        == "INSERT INTO root_state (root_id, generation, last_full_scan_at, last_incremental_at, dirty, entry_count) VALUES (?1, COALESCE((SELECT generation FROM root_state WHERE root_id = ?1), 0), NULL, NULL, 1, ?2) ON CONFLICT(root_id) DO UPDATE SET dirty = 1, entry_count = excluded.entry_count"@
        && p.len() == 2 ==> after == states.insert(
        id,
        RootState {
            generation: generation_of(old),
            last_full_scan_at: full_scan_of(old),
            last_incremental_at: incremental_scan_of(old),
            dirty: true,
            entry_count: p[1]->Integer_0,
        },
    )
    &&& s.sql
        == "INSERT INTO root_state (root_id, generation, last_full_scan_at, last_incremental_at, dirty, entry_count) VALUES (?1, COALESCE((SELECT generation FROM root_state WHERE root_id = ?1), 0), NULL, NULL, 1, ?2) ON CONFLICT(root_id) DO UPDATE SET dirty = 1"@
        && p.len() == 2 ==> after == states.insert(
        id,
        match old {
            Some(state) => RootState { dirty: true, ..state },
            None => RootState {
                generation: 0,
                last_full_scan_at: None,
                last_incremental_at: None,
                dirty: true,
                entry_count: p[1]->Integer_0,
            },
        },
    )
}

/// The statement that records a crawl records it: the state of the root becomes
/// the one that the work is to leave, with its own time and count, and that of
/// every other root stays.
pub proof fn a_crawl_is_recorded_as_it_was(
    states: States,
    work: WorkView,
    count: i64,
    after: States,
)
    requires
        records(states, work.recording(count), after),
    ensures
        after == work.states_after(states, count),
        after[work.root_id].entry_count == count,
        after[work.root_id].dirty <==> work.record == ScanRecord::Failed,
        work.record == ScanRecord::Full ==> after[work.root_id].last_full_scan_at == Some(work.now),
        work.record == ScanRecord::Incremental ==> after[work.root_id].last_incremental_at == Some(
            work.now,
        ),
{
    let p = work.recording(count).params;
    assert(p[0] == ValueView::Integer(work.root_id));
    match work.record {
        ScanRecord::Full => {
            assert(p[1] == ValueView::Integer(work.now) && p[2] == ValueView::Integer(count));
        },
        ScanRecord::Incremental => {
            assert(p[1] == ValueView::Integer(work.now) && p[3] == ValueView::Integer(count));
            assert(p[2] == flag_value(false));
        },
        ScanRecord::Failed => {
            assert(p[1] == ValueView::Integer(count));
        },
    }
}

/// The statement that marks a root as dirty marks that root and no other.
pub proof fn a_root_is_marked_alone(states: States, root_id: i64, count: i64, after: States)
    requires
        records(states, mark_root_dirty_view(root_id, count), after),
    ensures
        after == states.insert(root_id, after_marking(state_of(states, root_id), count)),
{
    assert(mark_root_dirty_view(root_id, count).params[0] == ValueView::Integer(root_id));
    assert(mark_root_dirty_view(root_id, count).params[1] == ValueView::Integer(count));
}

} // verus!
