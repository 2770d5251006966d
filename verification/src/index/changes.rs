//! What the work on a root does to what is stored.
//!
//! Each change of a work is modelled by what its statements do to the entries
//! and terms of the database, so that what a crawl found can be followed to what
//! a search finds.

use crate::index::candidates::normal_extension;
use crate::index::matching::selects;
use crate::index::refresh::{all_fit, apply, apply_all, distinct_ids, distinct_keys, fits, gives_fresh_ids, lemma_plan_fits, lemma_rebuild_fits, lists, matched, met, plan_changes, rebuild_makes_the_index_match, rebuilt, refresh_makes_the_index_match, refreshed, rows_table, EntryChange, Table};
use crate::index::rows::{kind_round_trips, number_kind, row_entry, stored_as, CrawledView, EntryRow, ExistingEntry, TermView};
use crate::index::run::enabled;
use crate::index::store::{indexed_entries_are_found, seeks_kind, starts_among, stored_entry, Store, StoredEntry};
use crate::index::work::{entry_at, Answers, ScanRecord, WorkView};
use crate::model::{QueryView, RootView};
use crate::policy::lowercase_extension;
use vstd::prelude::*;

verus! {

/// What is read of an entry that is stored.
pub open spec fn read_entry(id: i64, e: StoredEntry) -> ExistingEntry {
    ExistingEntry {
        id,
        kind: number_kind(e.kind),
        size: e.size,
        mtime: e.mtime,
        hidden: e.hidden,
        ignored: e.ignored,
        sensitive: e.sensitive,
        deleted: e.deleted,
    }
}

/// Whether a text is among the terms of these rows.
pub open spec fn among_rows(rows: Seq<TermView>, term: Seq<char>) -> bool {
    exists|i: int| 0 <= i < rows.len() && (#[trigger] rows[i]).term == term
}

impl Store {
    /// Whether a table is what is read of the entries of a root.
    pub open spec fn reads(self, root_id: i64, t: Table) -> bool {
        &&& forall|k: Seq<char>| #[trigger]
            t.contains_key(k) ==> {
                let id = t[k].id;
                &&& self.entries.contains_key(id)
                &&& self.entries[id].root_id == root_id
                &&& self.entries[id].path == k
                &&& t[k] == read_entry(id, self.entries[id])
            }
        &&& forall|id: i64| #[trigger]
            self.entries.contains_key(id) && self.entries[id].root_id == root_id ==> {
                let k = self.entries[id].path;
                t.contains_key(k) && t[k].id == id
            }
    }

    /// What is stored once a change is made: a new entry is stored with its
    /// terms; one that is there is stored anew, with its terms in place of those
    /// that it had; one that is missing is marked as deleted and loses its terms.
    pub open spec fn changed(
        self,
        root_id: i64,
        entries: Seq<CrawledView>,
        change: EntryChange,
        fresh: i64,
        rows: Seq<TermView>,
    ) -> Store {
        match change {
            EntryChange::Insert { entry } => Store {
                entries: self.entries.insert(fresh, stored_entry(root_id, entries[entry as int])),
                terms: Set::new(
                    |t: (Seq<char>, i64)|
                        self.terms.contains(t) || (t.1 == fresh && among_rows(rows, t.0)),
                ),
                ..self
            },
            EntryChange::Update { id, entry } => Store {
                entries: self.entries.insert(
                    id,
                    stored_entry(self.entries[id].root_id, entries[entry as int]),
                ),
                terms: Set::new(
                    |t: (Seq<char>, i64)|
                        if t.1 == id {
                            among_rows(rows, t.0)
                        } else {
                            self.terms.contains(t)
                        },
                ),
                ..self
            },
            EntryChange::MarkDeleted { id } => Store {
                entries: self.entries.insert(
                    id,
                    StoredEntry { deleted: true, ..self.entries[id] },
                ),
                terms: Set::new(|t: (Seq<char>, i64)| t.1 != id && self.terms.contains(t)),
                ..self
            },
        }
    }

    /// What is stored once all changes are made, in order; `fresh` gives the id
    /// of what the change at each position stores anew, `rows` its terms.
    pub open spec fn changed_all(
        self,
        root_id: i64,
        entries: Seq<CrawledView>,
        changes: Seq<EntryChange>,
        fresh: spec_fn(int) -> i64,
        rows: spec_fn(int) -> Seq<TermView>,
    ) -> Store
        decreases changes.len(),
    {
        if changes.len() == 0 {
            self
        } else {
            let n = changes.len() - 1;
            self.changed_all(root_id, entries, changes.drop_last(), fresh, rows).changed(
                root_id,
                entries,
                changes.last(),
                fresh(n),
                rows(n),
            )
        }
    }

    /// What is stored once the entries of a root are removed, and with them
    /// their terms.
    pub open spec fn cleared(self, root_id: i64) -> Store {
        Store {
            entries: Map::new(
                |id: i64| self.entries.contains_key(id) && self.entries[id].root_id != root_id,
                |id: i64| self.entries[id],
            ),
            terms: Set::new(
                |t: (Seq<char>, i64)|
                    self.terms.contains(t) && self.entries[t.1].root_id != root_id,
            ),
            ..self
        }
    }

    /// Whether another store differs in the entries and terms of a root only.
    pub open spec fn same_elsewhere(self, other: Store, root_id: i64) -> bool {
        other.roots == self.roots && self.same_entries_elsewhere(other, root_id)
    }

    /// Whether the entries and terms of another store differ in those of a root
    /// only.
    pub open spec fn same_entries_elsewhere(self, other: Store, root_id: i64) -> bool {
        &&& forall|id: i64|
            #![trigger self.entries.contains_key(id)]
            #![trigger other.entries.contains_key(id)]
            self.entries.contains_key(id) && self.entries[id].root_id != root_id
                ==> other.entries.contains_key(id) && other.entries[id] == self.entries[id]
        &&& forall|id: i64|
            #![trigger self.entries.contains_key(id)]
            #![trigger other.entries.contains_key(id)]
            other.entries.contains_key(id) && other.entries[id].root_id != root_id
                ==> self.entries.contains_key(id) && other.entries[id] == self.entries[id]
        &&& forall|t: (Seq<char>, i64)|
            #![trigger self.terms.contains(t)]
            #![trigger other.terms.contains(t)]
            self.entries.contains_key(t.1) && self.entries[t.1].root_id != root_id
                ==> self.terms.contains(t) == other.terms.contains(t)
    }

    /// Whether the ids that `fresh` gives the first `n` changes are those of no
    /// entry, and never the same twice.
    pub open spec fn leaves_free(self, fresh: spec_fn(int) -> i64, n: nat) -> bool {
        &&& forall|i: int, j: int| 0 <= i < j < n ==> #[trigger] fresh(i) != #[trigger] fresh(j)
        &&& forall|i: int| 0 <= i < n ==> !self.entries.contains_key(#[trigger] fresh(i))
    }
}

impl WorkView {
    /// The terms that each change stores.
    pub open spec fn rows(self, answers: Answers) -> spec_fn(int) -> Seq<TermView> {
        |k: int| self.terms(answers, k)
    }

    /// What is stored once the work is done.
    pub open spec fn stored(self, answers: Answers, store: Store) -> Store {
        let start = if self.record == ScanRecord::Full {
            store.cleared(self.root_id)
        } else {
            store
        };
        start.changed_all(
            self.root_id,
            self.entries,
            self.changes,
            answers.entry_id,
            self.rows(answers),
        )
    }
}

/// The entries that are read of a root have different ids.
proof fn lemma_read_ids(store: Store, root_id: i64, t: Table)
    requires
        store.reads(root_id, t),
    ensures
        distinct_ids(t),
{
}

proof fn lemma_change_reads(
    store: Store,
    t: Table,
    root_id: i64,
    crawled: Seq<CrawledView>,
    change: EntryChange,
    fresh: i64,
    rows: Seq<TermView>,
)
    requires
        store.wf(),
        store.roots.contains_key(root_id),
        store.reads(root_id, t),
        fits(t, crawled, change),
        change is Insert ==> !store.entries.contains_key(fresh),
    ensures
        ({
            let after = store.changed(root_id, crawled, change, fresh, rows);
            &&& after.wf()
            &&& after.reads(root_id, apply(t, crawled, change, fresh))
            &&& store.same_elsewhere(after, root_id)
            &&& forall|id: i64| #[trigger]
                after.entries.contains_key(id) ==> store.entries.contains_key(id) || (change is Insert
                    && id == fresh)
        }),
{
    let after = store.changed(root_id, crawled, change, fresh, rows);
    let s = apply(t, crawled, change, fresh);
    match change {
        EntryChange::Insert { entry } => {
            let e = crawled[entry as int];
            kind_round_trips(e.kind);
            assert(after.entries[fresh].path == e.key());
            assert forall|id: i64| #[trigger]
                after.entries.contains_key(id) && id != fresh && after.entries[id].root_id
                    == root_id implies after.entries[id].path != e.key() by {
                assert(store.entries.contains_key(id));
            }
        },
        EntryChange::Update { id, entry } => {
            let e = crawled[entry as int];
            kind_round_trips(e.kind);
            assert(t.contains_key(e.key()));
            assert(store.entries[id].path == e.key());
        },
        EntryChange::MarkDeleted { id } => {
            let key = choose|k: Seq<char>| #[trigger] t.contains_key(k) && t[k].id == id;
            assert(t.contains_key(key));
            lemma_read_ids(store, root_id, t);
            assert forall|k: Seq<char>| #[trigger] s.contains_key(k) implies {
                let i = s[k].id;
                &&& after.entries.contains_key(i)
                &&& after.entries[i].root_id == root_id
                &&& after.entries[i].path == k
                &&& s[k] == read_entry(i, after.entries[i])
            } by {
                assert(t.contains_key(k));
            }
            assert forall|i: i64| #[trigger]
                after.entries.contains_key(i) && after.entries[i].root_id == root_id implies {
                let k = after.entries[i].path;
                s.contains_key(k) && s[k].id == i
            } by {
                assert(store.entries.contains_key(i));
                assert(t.contains_key(store.entries[i].path));
            }
        },
    }
}

proof fn lemma_fit_front(
    t: Table,
    crawled: Seq<CrawledView>,
    changes: Seq<EntryChange>,
    fresh: spec_fn(int) -> i64,
    n: nat,
)
    requires
        changes.len() > 0,
        all_fit(t, crawled, changes, fresh, n),
    ensures
        all_fit(t, crawled, changes.drop_last(), fresh, n),
        fits(apply_all(t, crawled, changes.drop_last(), fresh), crawled, changes.last()),
        changes.last() is Insert ==> changes.len() - 1 < n,
{
    let front = changes.drop_last();
    assert forall|j: int| 0 <= j < front.len() implies fits(
        apply_all(t, crawled, front.take(j), fresh),
        crawled,
        #[trigger] front[j],
    ) && (front[j] is Insert ==> j < n) by {
        assert(front[j] == changes[j]);
        assert(front.take(j) =~= changes.take(j));
    }
    let last = changes.len() - 1;
    assert(changes[last] == changes.last());
    assert(changes.take(last) =~= front);
}

proof fn lemma_changes_read(
    store: Store,
    t: Table,
    root_id: i64,
    crawled: Seq<CrawledView>,
    changes: Seq<EntryChange>,
    fresh: spec_fn(int) -> i64,
    rows: spec_fn(int) -> Seq<TermView>,
    n: nat,
)
    requires
        store.wf(),
        store.roots.contains_key(root_id),
        store.reads(root_id, t),
        all_fit(t, crawled, changes, fresh, n),
        store.leaves_free(fresh, n),
    ensures
        ({
            let after = store.changed_all(root_id, crawled, changes, fresh, rows);
            &&& after.wf()
            &&& after.reads(root_id, apply_all(t, crawled, changes, fresh))
            &&& store.same_elsewhere(after, root_id)
            &&& forall|id: i64| #[trigger]
                after.entries.contains_key(id) ==> store.entries.contains_key(id) || exists|j: int|
                    0 <= j < changes.len() && j < n && id == #[trigger] fresh(j)
        }),
    decreases changes.len(),
{
    if changes.len() > 0 {
        let front = changes.drop_last();
        let last = changes.len() - 1;
        lemma_fit_front(t, crawled, changes, fresh, n);
        lemma_changes_read(store, t, root_id, crawled, front, fresh, rows, n);
        let before = store.changed_all(root_id, crawled, front, fresh, rows);
        let after = store.changed_all(root_id, crawled, changes, fresh, rows);
        if changes.last() is Insert {
            assert(!before.entries.contains_key(fresh(last))) by {
                if before.entries.contains_key(fresh(last)) {
                    let j = choose|j: int|
                        0 <= j < front.len() && j < n && fresh(last) == #[trigger] fresh(j);
                    assert(fresh(j) != fresh(last));
                }
            }
        }
        lemma_change_reads(
            before,
            apply_all(t, crawled, front, fresh),
            root_id,
            crawled,
            changes.last(),
            fresh(last),
            rows(last),
        );
        lemma_same_elsewhere(store, before, after, root_id);
        assert forall|id: i64| #[trigger] after.entries.contains_key(id) implies store.entries.contains_key(
            id,
        ) || exists|j: int| 0 <= j < changes.len() && j < n && id == #[trigger] fresh(j) by {
            if before.entries.contains_key(id) && !store.entries.contains_key(id) {
                let j = choose|j: int|
                    0 <= j < front.len() && j < n && id == #[trigger] fresh(j);
                assert(0 <= j < changes.len() && j < n && id == fresh(j));
            }
        }
    }
}

proof fn lemma_same_elsewhere(a: Store, b: Store, c: Store, root_id: i64)
    requires
        a.same_elsewhere(b, root_id),
        b.same_elsewhere(c, root_id),
    ensures
        a.same_elsewhere(c, root_id),
{
    assert forall|id: i64|
        a.entries.contains_key(id) && a.entries[id].root_id != root_id implies c.entries.contains_key(
        id,
    ) && c.entries[id] == a.entries[id] by {
        assert(b.entries.contains_key(id));
    }
    assert forall|id: i64|
        c.entries.contains_key(id) && c.entries[id].root_id != root_id implies a.entries.contains_key(
        id,
    ) && c.entries[id] == a.entries[id] by {
        assert(b.entries.contains_key(id));
    }
    assert forall|t: (Seq<char>, i64)|
        a.entries.contains_key(t.1) && a.entries[t.1].root_id != root_id implies a.terms.contains(t)
        == c.terms.contains(t) by {
        assert(b.entries.contains_key(t.1));
        assert(a.terms.contains(t) == b.terms.contains(t));
    }
}

impl Store {
    /// Whether a crawled entry is stored under an id, with the terms of these
    /// rows and no others.
    pub open spec fn indexes(
        self,
        id: i64,
        root_id: i64,
        entry: CrawledView,
        rows: Seq<TermView>,
    ) -> bool {
        &&& self.holds(id, root_id, entry, rows)
        &&& forall|term: Seq<char>| #[trigger]
            self.terms.contains((term, id)) ==> among_rows(rows, term)
    }

    /// Whether an entry has no terms.
    pub open spec fn is_termless(self, id: i64) -> bool {
        forall|term: Seq<char>| !#[trigger] self.terms.contains((term, id))
    }

    /// Whether an entry is stored as some crawl found it, with its own terms,
    /// and its path is that of every entry of this crawl with the same text.
    pub open spec fn is_indexed(
        self,
        id: i64,
        root_id: i64,
        crawled: Seq<CrawledView>,
        terms_of: spec_fn(Seq<u8>) -> Seq<TermView>,
    ) -> bool {
        exists|e: CrawledView| #[trigger]
            self.indexes(id, root_id, e, terms_of(e.path)) && agrees(crawled, e)
    }

    /// Whether each live entry of a root is stored with its own terms, and the
    /// deleted ones have none.
    pub open spec fn is_root_indexed(
        self,
        root_id: i64,
        crawled: Seq<CrawledView>,
        terms_of: spec_fn(Seq<u8>) -> Seq<TermView>,
    ) -> bool {
        forall|id: i64| #[trigger]
            self.entries.contains_key(id) && self.entries[id].root_id == root_id ==> if self.entries[id].deleted {
                self.is_termless(id)
            } else {
                self.is_indexed(id, root_id, crawled, terms_of)
            }
    }
}

/// Whether every entry of a crawl whose path has the same text as that of an
/// entry has the same path. Paths in UTF-8 always do.
pub open spec fn agrees(crawled: Seq<CrawledView>, e: CrawledView) -> bool {
    forall|i: int|
        0 <= i < crawled.len() && (#[trigger] crawled[i]).key() == e.key() ==> crawled[i].path
            == e.path
}

/// Whether the terms of each change are those of its entry's path.
pub open spec fn splits_as(
    entries: Seq<CrawledView>,
    changes: Seq<EntryChange>,
    rows: spec_fn(int) -> Seq<TermView>,
    terms_of: spec_fn(Seq<u8>) -> Seq<TermView>,
) -> bool {
    forall|j: int|
        0 <= j < changes.len() ==> match entry_at(#[trigger] changes[j]) {
            Some(entry) => rows(j) == terms_of(entries[entry as int].path),
            None => true,
        }
}

proof fn lemma_unchanged_entry_stays_indexed(
    store: Store,
    after: Store,
    id: i64,
    root_id: i64,
    crawled: Seq<CrawledView>,
    terms_of: spec_fn(Seq<u8>) -> Seq<TermView>,
)
    requires
        store.is_indexed(id, root_id, crawled, terms_of),
        after.entries.contains_key(id),
        after.entries[id] == store.entries[id],
        forall|term: Seq<char>| #[trigger]
            after.terms.contains((term, id)) == store.terms.contains((term, id)),
    ensures
        after.is_indexed(id, root_id, crawled, terms_of),
{
    let e = choose|e: CrawledView| #[trigger]
        store.indexes(id, root_id, e, terms_of(e.path)) && agrees(crawled, e);
    let rows = terms_of(e.path);
    assert forall|i: int| 0 <= i < rows.len() implies after.terms.contains(
        ((#[trigger] rows[i]).term, id),
    ) by {
        assert(store.terms.contains((rows[i].term, id)));
    }
    assert(after.indexes(id, root_id, e, terms_of(e.path)));
}

proof fn lemma_stored_entry_is_indexed(
    after: Store,
    id: i64,
    root_id: i64,
    crawled: Seq<CrawledView>,
    at: int,
    terms_of: spec_fn(Seq<u8>) -> Seq<TermView>,
)
    requires
        0 <= at < crawled.len(),
        distinct_keys(crawled),
        after.entries.contains_key(id),
        after.entries[id] == stored_entry(root_id, crawled[at]),
        forall|term: Seq<char>| #[trigger]
            after.terms.contains((term, id)) == among_rows(terms_of(crawled[at].path), term),
    ensures
        after.is_indexed(id, root_id, crawled, terms_of),
{
    let e = crawled[at];
    let rows = terms_of(e.path);
    assert forall|i: int| 0 <= i < rows.len() implies after.terms.contains(
        ((#[trigger] rows[i]).term, id),
    ) by {
        assert(among_rows(rows, rows[i].term));
    }
    assert(agrees(crawled, e)) by {
        assert forall|i: int|
            0 <= i < crawled.len() && (#[trigger] crawled[i]).key() == e.key() implies crawled[i].path
            == e.path by {
            if i != at {
                assert(crawled[i].key() != crawled[at].key());
            }
        }
    }
    assert(after.indexes(id, root_id, e, terms_of(e.path)));
}

proof fn lemma_change_indexes(
    store: Store,
    t: Table,
    root_id: i64,
    crawled: Seq<CrawledView>,
    change: EntryChange,
    fresh: i64,
    rows: Seq<TermView>,
    terms_of: spec_fn(Seq<u8>) -> Seq<TermView>,
)
    requires
        store.wf(),
        store.reads(root_id, t),
        distinct_keys(crawled),
        fits(t, crawled, change),
        change is Insert ==> !store.entries.contains_key(fresh),
        match entry_at(change) {
            Some(entry) => rows == terms_of(crawled[entry as int].path),
            None => true,
        },
        store.is_root_indexed(root_id, crawled, terms_of),
    ensures
        store.changed(root_id, crawled, change, fresh, rows).is_root_indexed(
            root_id,
            crawled,
            terms_of,
        ),
{
    let after = store.changed(root_id, crawled, change, fresh, rows);
    let touched = match change {
        EntryChange::Insert { .. } => fresh,
        EntryChange::Update { id, .. } => id,
        EntryChange::MarkDeleted { id } => id,
    };
    assert forall|id: i64| #[trigger]
        after.entries.contains_key(id) && after.entries[id].root_id == root_id implies if after.entries[id].deleted {
        after.is_termless(id)
    } else {
        after.is_indexed(id, root_id, crawled, terms_of)
    } by {
        if id != touched {
            assert(store.entries.contains_key(id));
            assert(after.entries[id] == store.entries[id]);
            assert forall|term: Seq<char>| #[trigger]
                after.terms.contains((term, id)) == store.terms.contains((term, id)) by {}
            if after.entries[id].deleted {
                assert(store.is_termless(id));
            } else {
                lemma_unchanged_entry_stays_indexed(store, after, id, root_id, crawled, terms_of);
            }
        } else {
            match change {
                EntryChange::Insert { entry } => {
                    assert forall|term: Seq<char>| #[trigger]
                        after.terms.contains((term, id)) == among_rows(rows, term) by {
                        assert(!store.terms.contains((term, id)));
                    }
                    lemma_stored_entry_is_indexed(
                        after,
                        id,
                        root_id,
                        crawled,
                        entry as int,
                        terms_of,
                    );
                },
                EntryChange::Update { entry, .. } => {
                    assert(t.contains_key(crawled[entry as int].key()));
                    assert forall|term: Seq<char>| #[trigger]
                        after.terms.contains((term, id)) == among_rows(rows, term) by {}
                    lemma_stored_entry_is_indexed(
                        after,
                        id,
                        root_id,
                        crawled,
                        entry as int,
                        terms_of,
                    );
                },
                EntryChange::MarkDeleted { .. } => {
                    assert(after.is_termless(id));
                },
            }
        }
    }
}

proof fn lemma_changes_index(
    store: Store,
    t: Table,
    root_id: i64,
    crawled: Seq<CrawledView>,
    changes: Seq<EntryChange>,
    fresh: spec_fn(int) -> i64,
    rows: spec_fn(int) -> Seq<TermView>,
    n: nat,
    terms_of: spec_fn(Seq<u8>) -> Seq<TermView>,
)
    requires
        store.wf(),
        store.roots.contains_key(root_id),
        store.reads(root_id, t),
        distinct_keys(crawled),
        all_fit(t, crawled, changes, fresh, n),
        store.leaves_free(fresh, n),
        splits_as(crawled, changes, rows, terms_of),
        store.is_root_indexed(root_id, crawled, terms_of),
    ensures
        store.changed_all(root_id, crawled, changes, fresh, rows).is_root_indexed(
            root_id,
            crawled,
            terms_of,
        ),
    decreases changes.len(),
{
    if changes.len() > 0 {
        let front = changes.drop_last();
        let last = changes.len() - 1;
        lemma_fit_front(t, crawled, changes, fresh, n);
        assert(splits_as(crawled, front, rows, terms_of)) by {
            assert forall|j: int| 0 <= j < front.len() implies match entry_at(#[trigger] front[j]) {
                Some(entry) => rows(j) == terms_of(crawled[entry as int].path),
                None => true,
            } by {
                assert(front[j] == changes[j]);
            }
        }
        lemma_changes_index(store, t, root_id, crawled, front, fresh, rows, n, terms_of);
        lemma_changes_read(store, t, root_id, crawled, front, fresh, rows, n);
        let before = store.changed_all(root_id, crawled, front, fresh, rows);
        if changes.last() is Insert {
            assert(!before.entries.contains_key(fresh(last))) by {
                if before.entries.contains_key(fresh(last)) {
                    let j = choose|j: int|
                        0 <= j < front.len() && j < n && fresh(last) == #[trigger] fresh(j);
                    assert(fresh(j) != fresh(last));
                }
            }
        }
        assert(changes[last] == changes.last());
        lemma_change_indexes(
            before,
            apply_all(t, crawled, front, fresh),
            root_id,
            crawled,
            changes.last(),
            fresh(last),
            rows(last),
            terms_of,
        );
    }
}

impl Store {
    /// Whether what is stored of a root is what a crawl met: each of its entries
    /// as it was crawled, and nothing else that is live.
    pub open spec fn tracks(self, root_id: i64, crawled: Seq<CrawledView>) -> bool {
        &&& forall|i: int| 0 <= i < crawled.len() ==> self.has_entry(root_id, #[trigger] crawled[i])
        &&& forall|id: i64| #[trigger]
            self.entries.contains_key(id) && self.entries[id].root_id == root_id
                ==> self.entries[id].deleted || met(crawled, crawled.len(), self.entries[id].path)
    }

    /// Whether an entry is stored under an id as it was crawled.
    pub open spec fn keeps_entry(self, id: i64, root_id: i64, entry: CrawledView) -> bool {
        &&& self.entries.contains_key(id)
        &&& self.entries[id].root_id == root_id
        &&& self.entries[id].path == entry.key()
        &&& read_entry(id, self.entries[id]) == stored_as(entry, id)
    }

    /// Whether an entry is stored as it was crawled.
    pub open spec fn has_entry(self, root_id: i64, entry: CrawledView) -> bool {
        exists|id: i64| #[trigger] self.keeps_entry(id, root_id, entry)
    }

    /// Whether a crawled entry is stored with the terms of these rows and no
    /// others.
    pub open spec fn has_indexed(
        self,
        root_id: i64,
        entry: CrawledView,
        rows: Seq<TermView>,
    ) -> bool {
        exists|id: i64| #[trigger] self.indexes(id, root_id, entry, rows)
    }

    /// Whether exactly the entries of a crawl are live in a root, each stored as
    /// it was crawled, with its own terms and no others; what is deleted has no
    /// terms.
    pub open spec fn indexes_crawl(
        self,
        root_id: i64,
        crawled: Seq<CrawledView>,
        terms_of: spec_fn(Seq<u8>) -> Seq<TermView>,
    ) -> bool {
        &&& forall|i: int|
            0 <= i < crawled.len() ==> self.has_indexed(
                root_id,
                #[trigger] crawled[i],
                terms_of(crawled[i].path),
            )
        &&& forall|id: i64| #[trigger]
            self.entries.contains_key(id) && self.entries[id].root_id == root_id ==> if self.entries[id].deleted {
                self.is_termless(id)
            } else {
                exists|i: int|
                    0 <= i < crawled.len() && self.indexes(
                        id,
                        root_id,
                        #[trigger] crawled[i],
                        terms_of(crawled[i].path),
                    )
            }
    }
}

/// What is read of a root that is what a crawl met matches the crawl.
pub proof fn lemma_tracked_root_matches(
    store: Store,
    root_id: i64,
    t: Table,
    crawled: Seq<CrawledView>,
)
    requires
        store.wf(),
        store.reads(root_id, t),
        store.tracks(root_id, crawled),
    ensures
        matched(t, crawled),
{
    assert forall|i: int| 0 <= i < crawled.len() implies {
        let k = (#[trigger] crawled[i]).key();
        t.contains_key(k) && t[k] == stored_as(crawled[i], t[k].id)
    } by {
        assert(store.has_entry(root_id, crawled[i]));
        let id = choose|id: i64| #[trigger] store.keeps_entry(id, root_id, crawled[i]);
        assert(store.entries.contains_key(id));
        assert(t.contains_key(crawled[i].key()));
    }
    assert forall|k: Seq<char>| #[trigger] t.contains_key(k) implies t[k].deleted || met(
        crawled,
        crawled.len(),
        k,
    ) by {
        assert(store.entries.contains_key(t[k].id));
    }
}

proof fn lemma_matched_root_is_tracked(
    store: Store,
    root_id: i64,
    t: Table,
    crawled: Seq<CrawledView>,
)
    requires
        store.wf(),
        store.reads(root_id, t),
        matched(t, crawled),
    ensures
        store.tracks(root_id, crawled),
{
    assert forall|i: int| 0 <= i < crawled.len() implies store.has_entry(
        root_id,
        #[trigger] crawled[i],
    ) by {
        let k = crawled[i].key();
        assert(t.contains_key(k));
        assert(store.keeps_entry(t[k].id, root_id, crawled[i]));
    }
    assert forall|id: i64| #[trigger]
        store.entries.contains_key(id) && store.entries[id].root_id == root_id implies store.entries[id].deleted
        || met(crawled, crawled.len(), store.entries[id].path) by {
        assert(t.contains_key(store.entries[id].path));
    }
}

/// A root that is what a crawl met, each entry with the terms of some path of its
/// text, has the entries of the crawl with their own terms.
proof fn lemma_crawl_is_indexed(
    store: Store,
    root_id: i64,
    crawled: Seq<CrawledView>,
    terms_of: spec_fn(Seq<u8>) -> Seq<TermView>,
)
    requires
        store.tracks(root_id, crawled),
        store.is_root_indexed(root_id, crawled, terms_of),
        store.wf(),
    ensures
        store.indexes_crawl(root_id, crawled, terms_of),
{
    assert forall|i: int| 0 <= i < crawled.len() implies store.has_indexed(
        root_id,
        #[trigger] crawled[i],
        terms_of(crawled[i].path),
    ) by {
        assert(store.has_entry(root_id, crawled[i]));
        let id = choose|id: i64| #[trigger] store.keeps_entry(id, root_id, crawled[i]);
        assert(store.entries.contains_key(id));
        lemma_entry_is_indexed(store, root_id, crawled, terms_of, id, i);
    }
    assert forall|id: i64| #[trigger]
        store.entries.contains_key(id) && store.entries[id].root_id == root_id implies if store.entries[id].deleted {
        store.is_termless(id)
    } else {
        exists|i: int|
            0 <= i < crawled.len() && store.indexes(
                id,
                root_id,
                #[trigger] crawled[i],
                terms_of(crawled[i].path),
            )
    } by {
        if !store.entries[id].deleted {
            let i = choose|i: int|
                0 <= i < crawled.len() && (#[trigger] crawled[i]).key() == store.entries[id].path;
            assert(store.has_entry(root_id, crawled[i]));
            let other = choose|other: i64| #[trigger] store.keeps_entry(other, root_id, crawled[i]);
            assert(store.entries.contains_key(other));
            assert(other == id);
            lemma_entry_is_indexed(store, root_id, crawled, terms_of, id, i);
        }
    }
}

proof fn lemma_entry_is_indexed(
    store: Store,
    root_id: i64,
    crawled: Seq<CrawledView>,
    terms_of: spec_fn(Seq<u8>) -> Seq<TermView>,
    id: i64,
    i: int,
)
    requires
        0 <= i < crawled.len(),
        store.keeps_entry(id, root_id, crawled[i]),
        store.is_root_indexed(root_id, crawled, terms_of),
    ensures
        store.indexes(id, root_id, crawled[i], terms_of(crawled[i].path)),
{
    assert(store.entries.contains_key(id));
    assert(!store.entries[id].deleted) by {
        assert(read_entry(id, store.entries[id]).deleted == stored_as(crawled[i], id).deleted);
    }
    let e = choose|e: CrawledView| #[trigger]
        store.indexes(id, root_id, e, terms_of(e.path)) && agrees(crawled, e);
    assert(crawled[i].key() == e.key());
    assert(crawled[i].path == e.path);
    kind_round_trips(e.kind);
    kind_round_trips(crawled[i].kind);
    assert(read_entry(id, stored_entry(root_id, e)) == stored_as(crawled[i], id));
    assert(stored_entry(root_id, crawled[i]) == stored_entry(root_id, e));
}

/// What is read of a root, and the ids for new entries, are as a refresh needs
/// them.
proof fn lemma_free_ids(store: Store, root_id: i64, t: Table, fresh: spec_fn(int) -> i64, n: nat)
    requires
        store.reads(root_id, t),
        store.leaves_free(fresh, n),
    ensures
        distinct_ids(t),
        gives_fresh_ids(fresh, t, n),
{
    lemma_read_ids(store, root_id, t);
}

/// After a refresh what is stored of the root is what its crawl met, what the
/// schema asks still holds, and the other roots are untouched.
pub proof fn a_refresh_stores_the_crawl(
    store: Store,
    root_id: i64,
    now: i64,
    keys: Seq<Seq<char>>,
    t: Table,
    crawled: Seq<CrawledView>,
    answers: Answers,
)
    requires
        store.wf(),
        store.roots.contains_key(root_id),
        store.reads(root_id, t),
        lists(keys, t),
        crawled.len() <= usize::MAX,
        distinct_keys(crawled),
        store.leaves_free(answers.entry_id, crawled.len()),
    ensures
        ({
            let work = WorkView::apply(root_id, now, crawled, plan_changes(keys, t, crawled));
            let after = work.stored(answers, store);
            &&& after.wf()
            &&& after.tracks(root_id, crawled)
            &&& store.same_elsewhere(after, root_id)
        }),
{
    let work = WorkView::apply(root_id, now, crawled, plan_changes(keys, t, crawled));
    let after = work.stored(answers, store);
    let fresh = answers.entry_id;
    lemma_free_ids(store, root_id, t, fresh, crawled.len());
    lemma_plan_fits(keys, t, crawled, fresh);
    lemma_changes_read(
        store,
        t,
        root_id,
        crawled,
        work.changes,
        fresh,
        work.rows(answers),
        crawled.len(),
    );
    refresh_makes_the_index_match(keys, t, crawled, fresh);
    lemma_matched_root_is_tracked(after, root_id, refreshed(keys, t, crawled, fresh), crawled);
}

/// After a refresh exactly the entries of the crawl are live in the root, each
/// stored with its own terms and no others, if that was so of what was live
/// before: what a search then finds is what the crawl met.
///
/// This leaves out crawls with a path of the same text as a different path that
/// is stored: such a text stands for bytes that are not UTF-8.
pub proof fn a_refresh_indexes_the_crawl(
    store: Store,
    root_id: i64,
    now: i64,
    keys: Seq<Seq<char>>,
    t: Table,
    crawled: Seq<CrawledView>,
    answers: Answers,
    terms_of: spec_fn(Seq<u8>) -> Seq<TermView>,
)
    requires
        store.wf(),
        store.roots.contains_key(root_id),
        store.reads(root_id, t),
        lists(keys, t),
        crawled.len() <= usize::MAX,
        distinct_keys(crawled),
        store.leaves_free(answers.entry_id, crawled.len()),
        store.is_root_indexed(root_id, crawled, terms_of),
        ({
            let work = WorkView::apply(root_id, now, crawled, plan_changes(keys, t, crawled));
            splits_as(crawled, work.changes, work.rows(answers), terms_of)
        }),
    ensures
        ({
            let work = WorkView::apply(root_id, now, crawled, plan_changes(keys, t, crawled));
            work.stored(answers, store).indexes_crawl(root_id, crawled, terms_of)
        }),
{
    let work = WorkView::apply(root_id, now, crawled, plan_changes(keys, t, crawled));
    let after = work.stored(answers, store);
    let fresh = answers.entry_id;
    a_refresh_stores_the_crawl(store, root_id, now, keys, t, crawled, answers);
    lemma_free_ids(store, root_id, t, fresh, crawled.len());
    lemma_plan_fits(keys, t, crawled, fresh);
    lemma_changes_index(
        store,
        t,
        root_id,
        crawled,
        work.changes,
        fresh,
        work.rows(answers),
        crawled.len(),
        terms_of,
    );
    lemma_crawl_is_indexed(after, root_id, crawled, terms_of);
}

proof fn lemma_cleared(store: Store, root_id: i64, fresh: spec_fn(int) -> i64, n: nat)
    requires
        store.wf(),
        store.leaves_free(fresh, n),
    ensures
        store.cleared(root_id).wf(),
        store.cleared(root_id).reads(root_id, Map::empty()),
        store.cleared(root_id).leaves_free(fresh, n),
        store.same_elsewhere(store.cleared(root_id), root_id),
{
}

/// After a rebuild what is stored of the root is what its crawl met, what the
/// schema asks still holds, and the other roots are untouched.
pub proof fn a_rebuild_stores_the_crawl(
    store: Store,
    root_id: i64,
    now: i64,
    crawled: Seq<CrawledView>,
    answers: Answers,
)
    requires
        store.wf(),
        store.roots.contains_key(root_id),
        crawled.len() <= usize::MAX,
        distinct_keys(crawled),
        store.leaves_free(answers.entry_id, crawled.len()),
    ensures
        ({
            let after = WorkView::replace(root_id, now, crawled).stored(answers, store);
            &&& after.wf()
            &&& after.tracks(root_id, crawled)
            &&& store.same_elsewhere(after, root_id)
        }),
{
    let work = WorkView::replace(root_id, now, crawled);
    let after = work.stored(answers, store);
    let fresh = answers.entry_id;
    let start = store.cleared(root_id);
    let none = Map::<Seq<char>, ExistingEntry>::empty();
    lemma_cleared(store, root_id, fresh, crawled.len());
    lemma_rebuild_fits(crawled, fresh);
    lemma_changes_read(
        start,
        none,
        root_id,
        crawled,
        work.changes,
        fresh,
        work.rows(answers),
        crawled.len(),
    );
    lemma_same_elsewhere(store, start, after, root_id);
    rebuild_makes_the_index_match(crawled, fresh);
    lemma_matched_root_is_tracked(after, root_id, rebuilt(crawled, fresh), crawled);
}

/// After a rebuild exactly the entries of the crawl are stored of the root, each
/// with its own terms and no others, whatever was stored before.
pub proof fn a_rebuild_indexes_the_crawl(
    store: Store,
    root_id: i64,
    now: i64,
    crawled: Seq<CrawledView>,
    answers: Answers,
    terms_of: spec_fn(Seq<u8>) -> Seq<TermView>,
)
    requires
        store.wf(),
        store.roots.contains_key(root_id),
        crawled.len() <= usize::MAX,
        distinct_keys(crawled),
        store.leaves_free(answers.entry_id, crawled.len()),
        ({
            let work = WorkView::replace(root_id, now, crawled);
            splits_as(crawled, work.changes, work.rows(answers), terms_of)
        }),
    ensures
        WorkView::replace(root_id, now, crawled).stored(answers, store).indexes_crawl(
            root_id,
            crawled,
            terms_of,
        ),
{
    let work = WorkView::replace(root_id, now, crawled);
    let after = work.stored(answers, store);
    let fresh = answers.entry_id;
    let start = store.cleared(root_id);
    let none = Map::<Seq<char>, ExistingEntry>::empty();
    a_rebuild_stores_the_crawl(store, root_id, now, crawled, answers);
    lemma_cleared(store, root_id, fresh, crawled.len());
    lemma_rebuild_fits(crawled, fresh);
    assert(start.is_root_indexed(root_id, crawled, terms_of));
    lemma_changes_index(
        start,
        none,
        root_id,
        crawled,
        work.changes,
        fresh,
        work.rows(answers),
        crawled.len(),
        terms_of,
    );
    lemma_crawl_is_indexed(after, root_id, crawled, terms_of);
}

/// After a crawl with errors nothing that is stored has changed.
pub proof fn a_failed_crawl_stores_nothing(
    store: Store,
    root_id: i64,
    now: i64,
    answers: Answers,
)
    ensures
        WorkView::failed(root_id, now).stored(answers, store) == store,
{
}

/// What is stored of a root, with its terms, is untouched by work on another.
pub proof fn other_roots_stay_indexed(
    before: Store,
    after: Store,
    root_id: i64,
    other: i64,
    crawled: Seq<CrawledView>,
    terms_of: spec_fn(Seq<u8>) -> Seq<TermView>,
)
    requires
        before.same_entries_elsewhere(after, root_id),
        other != root_id,
        before.indexes_crawl(other, crawled, terms_of),
    ensures
        after.indexes_crawl(other, crawled, terms_of),
{
    assert forall|i: int| 0 <= i < crawled.len() implies after.has_indexed(
        other,
        #[trigger] crawled[i],
        terms_of(crawled[i].path),
    ) by {
        let rows = terms_of(crawled[i].path);
        assert(before.has_indexed(other, crawled[i], rows));
        let id = choose|id: i64| #[trigger] before.indexes(id, other, crawled[i], rows);
        lemma_stays_indexed(before, after, root_id, other, id, crawled[i], rows);
    }
    assert forall|id: i64| #[trigger]
        after.entries.contains_key(id) && after.entries[id].root_id == other implies if after.entries[id].deleted {
        after.is_termless(id)
    } else {
        exists|i: int|
            0 <= i < crawled.len() && after.indexes(
                id,
                other,
                #[trigger] crawled[i],
                terms_of(crawled[i].path),
            )
    } by {
        lemma_live_entry_stays_indexed(before, after, root_id, other, crawled, terms_of, id);
    }
}

proof fn lemma_live_entry_stays_indexed(
    before: Store,
    after: Store,
    root_id: i64,
    other: i64,
    crawled: Seq<CrawledView>,
    terms_of: spec_fn(Seq<u8>) -> Seq<TermView>,
    id: i64,
)
    requires
        before.same_entries_elsewhere(after, root_id),
        other != root_id,
        before.indexes_crawl(other, crawled, terms_of),
        after.entries.contains_key(id),
        after.entries[id].root_id == other,
    ensures
        after.entries[id].deleted ==> after.is_termless(id),
        !after.entries[id].deleted ==> exists|i: int|
            0 <= i < crawled.len() && after.indexes(
                id,
                other,
                #[trigger] crawled[i],
                terms_of(crawled[i].path),
            ),
{
    assert(before.entries.contains_key(id));
    if after.entries[id].deleted {
        assert(before.is_termless(id));
        assert forall|term: Seq<char>| !#[trigger] after.terms.contains((term, id)) by {
            assert(!before.terms.contains((term, id)));
        }
    } else {
        let i = choose|i: int|
            0 <= i < crawled.len() && before.indexes(
                id,
                other,
                #[trigger] crawled[i],
                terms_of(crawled[i].path),
            );
        let rows = terms_of(crawled[i].path);
        lemma_stays_indexed(before, after, root_id, other, id, crawled[i], rows);
    }
}

proof fn lemma_stays_indexed(
    before: Store,
    after: Store,
    root_id: i64,
    other: i64,
    id: i64,
    entry: CrawledView,
    rows: Seq<TermView>,
)
    requires
        before.same_entries_elsewhere(after, root_id),
        other != root_id,
        before.indexes(id, other, entry, rows),
    ensures
        after.indexes(id, other, entry, rows),
{
    assert forall|i: int| 0 <= i < rows.len() implies after.terms.contains(
        ((#[trigger] rows[i]).term, id),
    ) by {
        assert(before.terms.contains((rows[i].term, id)));
    }
    assert forall|term: Seq<char>| #[trigger] after.terms.contains((term, id)) implies among_rows(
        rows,
        term,
    ) by {
        assert(before.terms.contains((term, id)));
    }
}

/// What a crawl met is found once it is indexed: a search is about the entry
/// where its root is enabled, it is of a kind and an extension that is sought, is
/// not sensitive, is neither hidden nor ignored unless that is allowed, and each
/// term of the query starts one of its own.
pub proof fn crawled_entries_are_found(
    store: Store,
    config: Seq<RootView>,
    query: QueryView,
    terms: Seq<Seq<char>>,
    root_id: i64,
    crawled: Seq<CrawledView>,
    terms_of: spec_fn(Seq<u8>) -> Seq<TermView>,
    i: int,
) -> (id: i64)
    requires
        store.indexes_crawl(root_id, crawled, terms_of),
        store.in_scope(enabled(config), root_id),
        0 <= i < crawled.len(),
        seeks_kind(query, crawled[i].kind),
        !crawled[i].sensitive,
        !crawled[i].hidden || query.include_hidden || store.roots[root_id].include_hidden,
        !crawled[i].ignored || query.include_ignored || store.roots[root_id].include_ignored,
        query.extensions.len() == 0 || exists|j: int|
            0 <= j < query.extensions.len() && lowercase_extension(crawled[i].path) == Some(
                normal_extension(#[trigger] query.extensions[j]),
            ),
        terms.len() > 0,
        forall|k: int|
            0 <= k < terms.len() ==> starts_among(
                #[trigger] terms[k],
                terms_of(crawled[i].path),
            ),
    ensures
        store.offers(config, query, terms, id),
        store.holds(id, root_id, crawled[i], terms_of(crawled[i].path)),
{
    let rows = terms_of(crawled[i].path);
    assert(store.has_indexed(root_id, crawled[i], rows));
    let id = choose|id: i64| #[trigger] store.indexes(id, root_id, crawled[i], rows);
    indexed_entries_are_found(store, config, query, terms, id, root_id, crawled[i], rows);
    id
}

/// What a search is about in an indexed root is what the crawl met: an entry of
/// the crawl, each term of the query selects one of its own terms, and it is not
/// sensitive.
pub proof fn found_entries_were_crawled(
    store: Store,
    config: Seq<RootView>,
    query: QueryView,
    terms: Seq<Seq<char>>,
    root_id: i64,
    crawled: Seq<CrawledView>,
    terms_of: spec_fn(Seq<u8>) -> Seq<TermView>,
    id: i64,
) -> (i: int)
    requires
        store.indexes_crawl(root_id, crawled, terms_of),
        store.offers(config, query, terms, id),
        store.entries[id].root_id == root_id,
    ensures
        0 <= i < crawled.len(),
        store.holds(id, root_id, crawled[i], terms_of(crawled[i].path)),
        !crawled[i].sensitive,
        forall|k: int|
            0 <= k < terms.len() ==> selects_among(
                #[trigger] terms[k],
                terms_of(crawled[i].path),
            ),
{
    assert(store.entries.contains_key(id));
    let i = choose|i: int|
        0 <= i < crawled.len() && store.indexes(
            id,
            root_id,
            #[trigger] crawled[i],
            terms_of(crawled[i].path),
        );
    let rows = terms_of(crawled[i].path);
    assert forall|k: int| 0 <= k < terms.len() implies selects_among(#[trigger] terms[k], rows) by {
        assert(store.has_term(id, terms[k]));
        let term = choose|t: Seq<char>| #[trigger]
            store.terms.contains((t, id)) && selects(terms[k], t);
        assert(among_rows(rows, term));
        let j = choose|j: int| 0 <= j < rows.len() && (#[trigger] rows[j]).term == term;
        assert(selects(terms[k], rows[j].term));
    }
    i
}

/// Whether a prefix selects a term of these rows.
pub open spec fn selects_among(prefix: Seq<char>, rows: Seq<TermView>) -> bool {
    exists|j: int| 0 <= j < rows.len() && selects(prefix, (#[trigger] rows[j]).term)
}

impl Store {
    /// Whether `n` is what the database answers where the live entries of a root
    /// are counted.
    pub open spec fn counts(self, root_id: i64, n: nat) -> bool {
        exists|ids: Seq<i64>| #[trigger]
            ids.no_duplicates() && ids.len() == n && self.are_live(root_id, ids)
    }

    /// Whether these are the ids of the live entries of a root.
    pub open spec fn are_live(self, root_id: i64, ids: Seq<i64>) -> bool {
        forall|id: i64| #[trigger]
            ids.contains(id) <==> self.entries.contains_key(id) && self.entries[id].root_id
                == root_id && !self.entries[id].deleted
    }
}

/// Once what is stored of a root is what its crawl met, its live entries are as
/// many as the crawl met.
pub proof fn the_count_is_that_of_the_crawl(
    store: Store,
    root_id: i64,
    crawled: Seq<CrawledView>,
    n: nat,
)
    requires
        store.wf(),
        distinct_keys(crawled),
        store.tracks(root_id, crawled),
        store.counts(root_id, n),
    ensures
        n == crawled.len(),
{
    let ids = choose|ids: Seq<i64>| #[trigger]
        ids.no_duplicates() && ids.len() == n && store.are_live(root_id, ids);
    let own = Seq::new(
        crawled.len(),
        |i: int| choose|id: i64| #[trigger] store.keeps_entry(id, root_id, crawled[i]),
    );
    assert forall|i: int| 0 <= i < own.len() implies #[trigger] store.keeps_entry(
        own[i],
        root_id,
        crawled[i],
    ) by {
        assert(store.has_entry(root_id, crawled[i]));
    }
    assert(own.no_duplicates()) by {
        assert forall|i: int, j: int| 0 <= i < own.len() && 0 <= j < own.len() && i != j implies own[i]
            != own[j] by {
            assert(store.keeps_entry(own[i], root_id, crawled[i]));
            assert(store.keeps_entry(own[j], root_id, crawled[j]));
            if i < j {
                assert(crawled[i].key() != crawled[j].key());
            } else {
                assert(crawled[j].key() != crawled[i].key());
            }
        }
    }
    assert forall|id: i64| #[trigger] ids.contains(id) <==> own.contains(id) by {
        if ids.contains(id) {
            let i = choose|i: int|
                0 <= i < crawled.len() && (#[trigger] crawled[i]).key() == store.entries[id].path;
            assert(store.keeps_entry(own[i], root_id, crawled[i]));
            assert(store.entries.contains_key(own[i]));
            assert(own[i] == id);
        }
        if own.contains(id) {
            let i = choose|i: int| 0 <= i < own.len() && own[i] == id;
            assert(store.keeps_entry(own[i], root_id, crawled[i]));
            assert(read_entry(id, store.entries[id]).deleted == stored_as(crawled[i], id).deleted);
        }
    }
    ids.unique_seq_to_set();
    own.unique_seq_to_set();
    assert(ids.to_set() =~= own.to_set()) by {
        assert forall|id: i64| ids.to_set().contains(id) <==> own.to_set().contains(id) by {
            assert(ids.contains(id) <==> own.contains(id));
        }
    }
}

impl Store {
    /// Whether a row is what the database answers of an entry of a root.
    pub open spec fn answers_row(self, root_id: i64, row: EntryRow) -> bool {
        let e = self.entries[row.id];
        &&& self.entries.contains_key(row.id)
        &&& e.root_id == root_id
        &&& e.path == row.path@
        &&& e.kind == row.kind
        &&& e.size == row.size
        &&& e.mtime == row.mtime
        &&& e.hidden == (row.hidden != 0)
        &&& e.ignored == (row.ignored != 0)
        &&& e.sensitive == (row.sensitive != 0)
        &&& e.deleted == (row.deleted != 0)
    }

    /// Whether the entry of an id is among rows.
    pub open spec fn is_answered(self, id: i64, rows: Seq<EntryRow>) -> bool {
        exists|i: int| 0 <= i < rows.len() && (#[trigger] rows[i]).id == id
    }

    /// Whether rows are what the database answers where the entries of a root
    /// are read: every entry of the root, and nothing else.
    pub open spec fn answers_rows(self, root_id: i64, rows: Seq<EntryRow>) -> bool {
        &&& forall|i: int| 0 <= i < rows.len() ==> self.answers_row(root_id, #[trigger] rows[i])
        &&& forall|id: i64| #[trigger]
            self.entries.contains_key(id) && self.entries[id].root_id == root_id
                ==> self.is_answered(id, rows)
    }
}

proof fn lemma_rows_table(rows: Seq<EntryRow>, n: nat)
    requires
        n <= rows.len(),
        forall|i: int, j: int|
            0 <= i < rows.len() && 0 <= j < rows.len() && (#[trigger] rows[i]).path@ == (
            #[trigger] rows[j]).path@ ==> row_entry(rows[i]) == row_entry(rows[j]),
    ensures
        forall|i: int|
            0 <= i < n ==> rows_table(rows, n).contains_key((#[trigger] rows[i]).path@)
                && rows_table(rows, n)[rows[i].path@] == row_entry(rows[i]),
        forall|k: Seq<char>| #[trigger]
            rows_table(rows, n).contains_key(k) ==> exists|i: int|
                0 <= i < n && (#[trigger] rows[i]).path@ == k,
    decreases n,
{
    if n > 0 {
        let m = (n - 1) as nat;
        lemma_rows_table(rows, m);
        assert forall|k: Seq<char>| #[trigger] rows_table(rows, n).contains_key(k) implies exists|i: int|
            0 <= i < n && (#[trigger] rows[i]).path@ == k by {
            if k == rows[n - 1].path@ {
                assert(rows[n - 1].path@ == k);
            } else {
                assert(rows_table(rows, m).contains_key(k));
                let i = choose|i: int| 0 <= i < m && (#[trigger] rows[i]).path@ == k;
                assert(rows[i].path@ == k);
            }
        }
    }
}

/// What a refresh makes of the rows that it reads is what is stored of the root.
pub proof fn rows_read_as_they_are_stored(store: Store, root_id: i64, rows: Seq<EntryRow>)
    requires
        store.wf(),
        store.answers_rows(root_id, rows),
    ensures
        store.reads(root_id, rows_table(rows, rows.len())),
{
    let t = rows_table(rows, rows.len());
    assert forall|i: int, j: int|
        0 <= i < rows.len() && 0 <= j < rows.len() && (#[trigger] rows[i]).path@ == (
        #[trigger] rows[j]).path@ implies row_entry(rows[i]) == row_entry(rows[j]) by {
        assert(store.answers_row(root_id, rows[i]) && store.answers_row(root_id, rows[j]));
        assert(rows[i].id == rows[j].id);
    }
    lemma_rows_table(rows, rows.len());
    assert forall|k: Seq<char>| #[trigger] t.contains_key(k) implies {
        let id = t[k].id;
        &&& store.entries.contains_key(id)
        &&& store.entries[id].root_id == root_id
        &&& store.entries[id].path == k
        &&& t[k] == read_entry(id, store.entries[id])
    } by {
        let i = choose|i: int| 0 <= i < rows.len() && (#[trigger] rows[i]).path@ == k;
        assert(store.answers_row(root_id, rows[i]));
        assert(t[k] == row_entry(rows[i]));
    }
    assert forall|id: i64| #[trigger]
        store.entries.contains_key(id) && store.entries[id].root_id == root_id implies {
        let k = store.entries[id].path;
        t.contains_key(k) && t[k].id == id
    } by {
        assert(store.is_answered(id, rows));
        let i = choose|i: int| 0 <= i < rows.len() && (#[trigger] rows[i]).id == id;
        assert(store.answers_row(root_id, rows[i]));
    }
}

} // verus!
