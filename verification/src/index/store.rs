//! What a search finds of what is stored.
//!
//! The database is modelled as the roots, entries and terms that it holds, and
//! its answers as what the statements of a search select of them.

use crate::index::candidates::{candidate_of, first_results, first_results_were_found, hits_of, lemma_hits_in_any_order, normal_extension, rates, result_of, results_score_above_zero, scores_above_zero_become_results, ties_have_one_path, unsigned_or_none, CandidateScore, CandidateView, ColumnsView, ResultView};
use crate::index::engine::{lemma_candidates_are_answered, lemma_entry_ids_are_answered, lemma_root_id_is_answered};
use crate::index::matching::{selects, terms_with_the_prefix_are_selected};
use crate::index::rows::{kind_number, kind_round_trips, CrawledView, TermView};
use crate::index::run::enabled;
use crate::index::search::{bounded_ids, lemma_bounded_ids, narrowed, CandidateCoverage, OutcomeView, SearchRequestView, SearchView};
use crate::index::terms::MAX_KFS_CANDIDATE_ROWS;
use crate::model::{EntryKind, QueryView, RootView};
use crate::order::{lemma_order_is_order, ranked, ranking_is_permutation, rankings_of_the_same_items_agree, Ranked};
use crate::path::{components, lossy_utf8, utf8_paths_survive_as_text};
use crate::policy::lowercase_extension;
use crate::text::starts_with_text;
use crate::sorted::{increasing, insert_sorted, lemma_increasing_has_no_duplicates, lemma_increasing_unique, lemma_orders_strict_total, lemma_shared, lemma_sorted_set, number_order, shared, sorted_set, text_order};
use vstd::prelude::*;
use vstd::seq_lib::{to_multiset_contains, to_multiset_len};
use vstd::set_lib::{lemma_len_subset, lemma_subset_equality};
use vstd::utf8::{encode_utf8, valid_utf8};

verus! {

/// A root as it is stored.
pub struct StoredRoot {
    pub path: Seq<char>,
    pub priority: i32,
    pub include_hidden: bool,
    pub include_ignored: bool,
}

/// An entry as it is stored.
pub struct StoredEntry {
    pub root_id: i64,
    pub path: Seq<char>,
    pub kind: i64,
    pub extension: Option<Seq<char>>,
    pub size: Option<i64>,
    pub mtime: Option<i64>,
    pub hidden: bool,
    pub ignored: bool,
    pub sensitive: bool,
    pub deleted: bool,
}

/// What the database holds: roots and entries by their ids, and the terms of
/// entries.
pub struct Store {
    pub roots: Map<i64, StoredRoot>,
    pub entries: Map<i64, StoredEntry>,
    pub terms: Set<(Seq<char>, i64)>,
}

impl Store {
    /// What the schema asks of the database: no two roots have one path, every
    /// entry belongs to a root, no two entries of a root have one path, and
    /// every term belongs to an entry.
    pub open spec fn wf(self) -> bool {
        &&& forall|a: i64, b: i64| #[trigger]
            self.roots.contains_key(a) && #[trigger] self.roots.contains_key(b) && a != b
                ==> self.roots[a].path != self.roots[b].path
        &&& forall|id: i64| #[trigger]
            self.entries.contains_key(id) ==> self.roots.contains_key(self.entries[id].root_id)
        &&& forall|a: i64, b: i64| #[trigger]
            self.entries.contains_key(a) && #[trigger] self.entries.contains_key(b) && a != b
                && self.entries[a].root_id == self.entries[b].root_id ==> self.entries[a].path
                != self.entries[b].path
        &&& forall|t: (Seq<char>, i64)| #[trigger]
            self.terms.contains(t) ==> self.entries.contains_key(t.1)
    }

    /// Whether an entry has a term that a prefix selects.
    pub open spec fn has_term(self, id: i64, prefix: Seq<char>) -> bool {
        exists|t: Seq<char>| #[trigger] self.terms.contains((t, id)) && selects(prefix, t)
    }

    /// Whether any entry has a term that a prefix selects.
    pub open spec fn is_known(self, prefix: Seq<char>) -> bool {
        exists|id: i64| #[trigger] self.has_term(id, prefix)
    }

    /// Whether more entries than a search takes have a term that a prefix
    /// selects.
    pub open spec fn is_crowded(self, prefix: Seq<char>) -> bool {
        exists|rows: Seq<i64>|
            {
                &&& #[trigger] increasing(rows, number_order())
                &&& rows.len() > MAX_KFS_CANDIDATE_ROWS
                &&& forall|i: int| 0 <= i < rows.len() ==> self.has_term(#[trigger] rows[i], prefix)
            }
    }

    /// Whether an entry is live, of a kind and an extension that a query seeks,
    /// and visible to it: hidden and ignored entries are where the query or
    /// their root allows it, sensitive ones never.
    pub open spec fn shows(self, query: QueryView, id: i64) -> bool {
        let e = self.entries[id];
        let root = self.roots[e.root_id];
        &&& self.entries.contains_key(id)
        &&& !e.deleted
        &&& (query.include_files && query.include_directories) || (query.include_files && e.kind
            == kind_number(EntryKind::File)) || (query.include_directories && e.kind == kind_number(
            EntryKind::Directory,
        ))
        &&& !e.hidden || query.include_hidden || root.include_hidden
        &&& !e.ignored || query.include_ignored || root.include_ignored
        &&& !e.sensitive
        &&& query.extensions.len() == 0 || exists|i: int|
            0 <= i < query.extensions.len() && e.extension == Some(
                normal_extension(#[trigger] query.extensions[i]),
            )
    }

    /// Whether a root is one of those that are configured.
    pub open spec fn in_scope(self, roots: Seq<RootView>, root_id: i64) -> bool {
        exists|i: int|
            0 <= i < roots.len() && lossy_utf8((#[trigger] roots[i]).path)
                == self.roots[root_id].path
    }

    /// Whether an entry is one that a search for these terms is about: it lies
    /// in an enabled root, is shown to the query, and has all terms.
    pub open spec fn offers(
        self,
        config: Seq<RootView>,
        query: QueryView,
        terms: Seq<Seq<char>>,
        id: i64,
    ) -> bool {
        &&& self.shows(query, id)
        &&& self.in_scope(enabled(config), self.entries[id].root_id)
        &&& terms.len() > 0
        &&& forall|i: int| 0 <= i < terms.len() ==> self.has_term(id, #[trigger] terms[i])
    }

    /// The columns of an entry.
    pub open spec fn columns(self, id: i64) -> ColumnsView {
        let e = self.entries[id];
        ColumnsView {
            path: e.path,
            kind: e.kind,
            priority: self.roots[e.root_id].priority,
            size: e.size,
            mtime: e.mtime,
        }
    }

    /// The candidate of an entry.
    pub open spec fn candidate(self, id: i64) -> CandidateView {
        candidate_of(self.columns(id))
    }

    /// Whether an id is what the database answers where a root is looked up.
    pub open spec fn answers_root_id(self, path: Seq<u8>, id: Option<i64>) -> bool {
        match id {
            Some(n) => self.roots.contains_key(n) && self.roots[n].path == lossy_utf8(path),
            None => forall|n: i64| #[trigger]
                self.roots.contains_key(n) ==> self.roots[n].path != lossy_utf8(path),
        }
    }

    /// Whether rows are what the database answers where the entries of a term
    /// are sought: each once, in order, and all of them unless the statement's
    /// limit was reached; none is left out before the last that is given.
    pub open spec fn answers_entry_ids(self, prefix: Seq<char>, rows: Seq<i64>) -> bool {
        &&& increasing(rows, number_order())
        &&& rows.len() <= MAX_KFS_CANDIDATE_ROWS + 1
        &&& forall|i: int| 0 <= i < rows.len() ==> self.has_term(#[trigger] rows[i], prefix)
        &&& rows.len() <= MAX_KFS_CANDIDATE_ROWS ==> forall|id: i64| #[trigger]
            self.has_term(id, prefix) ==> rows.contains(id)
        &&& rows.len() > 0 ==> forall|id: i64| #[trigger]
            self.has_term(id, prefix) && id <= rows.last() ==> rows.contains(id)
    }

    /// Whether the candidates among these ids are those of the entries `picked`.
    pub open spec fn picks(
        self,
        ids: Seq<i64>,
        root_ids: Seq<i64>,
        query: QueryView,
        picked: Seq<i64>,
    ) -> bool {
        &&& picked.no_duplicates()
        &&& forall|id: i64| #[trigger]
            picked.contains(id) <==> ids.contains(id) && self.shows(query, id) && root_ids.contains(
                self.entries[id].root_id,
            )
    }

    /// Whether rows are what the database answers where candidates are loaded:
    /// the columns of those among the ids that pass, in any order.
    pub open spec fn answers_candidates(
        self,
        ids: Seq<i64>,
        root_ids: Seq<i64>,
        query: QueryView,
        rows: Seq<ColumnsView>,
    ) -> bool {
        exists|picked: Seq<i64>|
            #[trigger] self.picks(ids, root_ids, query, picked) && rows == picked.map_values(
                |id: i64| self.columns(id),
            )
    }

    /// Whether a search goes from one state to another where the database
    /// answers the statement of its request, and the query is split into these
    /// terms.
    pub open spec fn step(self, terms: Seq<Seq<char>>, v: SearchView, w: SearchView) -> bool {
        match v.request() {
            SearchRequestView::RootId(s) => exists|id: Option<i64>| #[trigger]
                self.gives_root_id(s, id) && w == v.after_root_id(id),
            SearchRequestView::Terms(_) => w == v.after_terms(terms),
            SearchRequestView::EntryIds(s) => exists|rows: Seq<i64>| #[trigger]
                self.gives_entry_ids(s, rows) && w == v.after_entry_ids(rows),
            SearchRequestView::Candidates(s) => exists|rows: Seq<ColumnsView>| #[trigger]
                self.gives_candidates(s, rows) && w == v.after_candidates(rows),
            SearchRequestView::Finish => false,
        }
    }

    /// Whether these are the states of a search, from its start to its end.
    pub open spec fn is_search(
        self,
        config: Seq<RootView>,
        query: QueryView,
        terms: Seq<Seq<char>>,
        states: Seq<SearchView>,
    ) -> bool {
        &&& states.len() > 0
        &&& states[0] == SearchView::start(config, query)
        &&& forall|i: int|
            0 <= i < states.len() - 1 ==> self.step(terms, #[trigger] states[i], states[i + 1])
        &&& states.last().request() is Finish
    }

    /// What holds of every state of a search, where `picked` are the entries of
    /// its candidates.
    spec fn keeps(
        self,
        config: Seq<RootView>,
        query: QueryView,
        terms: Seq<Seq<char>>,
        v: SearchView,
        picked: Seq<i64>,
    ) -> bool {
        &&& v.roots == enabled(config)
        &&& v.query == query
        &&& v.asked <= v.roots.len()
        &&& forall|n: i64| #[trigger]
            v.root_ids.contains(n) ==> self.roots.contains_key(n) && self.in_scope(v.roots, n)
        &&& forall|n: i64, i: int|
            #![trigger self.roots.contains_key(n), v.roots[i]]
            self.roots.contains_key(n) && 0 <= i < v.asked && lossy_utf8(v.roots[i].path)
                == self.roots[n].path ==> v.root_ids.contains(n)
        &&& v.terms is Some ==> v.terms == Some(sorted_set(terms, text_order())) && v.asked
            == v.roots.len()
        &&& v.terms is Some ==> v.root_ids.len() > 0 && (query.include_files
            || query.include_directories)
        &&& v.terms is None ==> v.resolved == 0
        &&& v.terms is Some ==> v.resolved <= v.terms->0.len()
        &&& v.found is None <==> v.resolved == 0
        &&& v.found is None ==> !v.saturated
        &&& increasing(v.ids(), number_order())
        &&& forall|id: i64, k: int|
            #![trigger v.ids().contains(id), v.terms->0[k]]
            v.ids().contains(id) && 0 <= k < v.resolved ==> self.has_term(id, v.terms->0[k])
        &&& v.found is Some && !v.saturated ==> forall|id: i64|
            (forall|k: int| 0 <= k < v.resolved ==> self.has_term(id, #[trigger] v.terms->0[k]))
                ==> #[trigger] v.ids().contains(id)
        &&& v.saturated ==> exists|k: int|
            0 <= k < v.resolved && self.is_crowded(#[trigger] v.terms->0[k])
        &&& v.saturated ==> forall|k: int|
            0 <= k < v.resolved ==> self.is_known(#[trigger] v.terms->0[k])
        &&& v.loaded <= v.ids().len()
        &&& v.loaded > 0 ==> !v.resolving()
        &&& v.candidates == picked.map_values(|id: i64| self.candidate(id))
        &&& self.picks(v.ids().take(v.loaded as int), v.root_ids, query, picked)
    }
}

/// Of increasing rows the first are taken, and there are more exactly where the
/// rows are more than the bound.
pub proof fn lemma_bounded_increasing(rows: Seq<i64>)
    requires
        increasing(rows, number_order()),
    ensures
        bounded_ids(rows).1 == (rows.len() > MAX_KFS_CANDIDATE_ROWS),
        bounded_ids(rows).0 == if rows.len() > MAX_KFS_CANDIDATE_ROWS {
            rows.take(MAX_KFS_CANDIDATE_ROWS as int)
        } else {
            rows
        },
    decreases rows.len(),
{
    let lt = number_order();
    if rows.len() == 0 {
        assert(rows =~= Seq::empty());
    } else {
        let front = rows.drop_last();
        assert(increasing(front, lt)) by {
            assert forall|i: int, j: int| 0 <= i < j < front.len() implies #[trigger] lt(
                front[i],
                front[j],
            ) by {
                assert(lt(rows[i], rows[j]));
            }
        }
        lemma_bounded_increasing(front);
        if rows.len() > MAX_KFS_CANDIDATE_ROWS {
            assert(front.take(MAX_KFS_CANDIDATE_ROWS as int) =~= rows.take(
                MAX_KFS_CANDIDATE_ROWS as int,
            ));
            if front.len() == MAX_KFS_CANDIDATE_ROWS {
                assert(front =~= rows.take(MAX_KFS_CANDIDATE_ROWS as int));
            }
        } else {
            if front.len() > 0 {
                assert(lt(rows[rows.len() - 2], rows[rows.len() - 1]));
            }
            assert(insert_sorted(front, rows.last(), lt) =~= rows);
        }
    }
}

proof fn lemma_start_keeps(
    store: Store,
    config: Seq<RootView>,
    query: QueryView,
    terms: Seq<Seq<char>>,
)
    ensures
        store.keeps(config, query, terms, SearchView::start(config, query), Seq::empty()),
{
    let v = SearchView::start(config, query);
    let none = Seq::<i64>::empty();
    assert(v.candidates =~= none.map_values(|id: i64| store.candidate(id)));
    assert(v.ids().take(0) =~= none);
}

proof fn lemma_nothing_picked(
    store: Store,
    config: Seq<RootView>,
    query: QueryView,
    terms: Seq<Seq<char>>,
    v: SearchView,
    picked: Seq<i64>,
)
    requires
        store.keeps(config, query, terms, v, picked),
        v.loaded == 0,
    ensures
        picked == Seq::<i64>::empty(),
        v.candidates == Seq::<CandidateView>::empty(),
{
    if picked.len() > 0 {
        assert(picked.contains(picked[0]));
        assert(v.ids().take(0).contains(picked[0]));
    }
    assert(picked =~= Seq::empty());
    assert(v.candidates =~= Seq::empty());
}

proof fn lemma_root_id_keeps(
    store: Store,
    config: Seq<RootView>,
    query: QueryView,
    terms: Seq<Seq<char>>,
    v: SearchView,
    picked: Seq<i64>,
    id: Option<i64>,
)
    requires
        store.wf(),
        store.keeps(config, query, terms, v, picked),
        v.request() is RootId,
        store.answers_root_id(v.roots[v.asked as int].path, id),
    ensures
        store.keeps(config, query, terms, v.after_root_id(id), picked),
{
    let w = v.after_root_id(id);
    let path = lossy_utf8(v.roots[v.asked as int].path);
    lemma_nothing_picked(store, config, query, terms, v, picked);
    assert(w.ids() == v.ids());
    assert forall|n: i64| #[trigger] w.root_ids.contains(n) implies store.roots.contains_key(n)
        && store.in_scope(w.roots, n) by {
        let k = choose|k: int| 0 <= k < w.root_ids.len() && w.root_ids[k] == n;
        if k < v.root_ids.len() {
            assert(v.root_ids[k] == n);
            assert(v.root_ids.contains(n));
        } else {
            assert(lossy_utf8(v.roots[v.asked as int].path) == store.roots[n].path);
        }
    }
    assert forall|n: i64, i: int|
        #![trigger store.roots.contains_key(n), w.roots[i]]
        store.roots.contains_key(n) && 0 <= i < w.asked && lossy_utf8(w.roots[i].path)
            == store.roots[n].path implies w.root_ids.contains(n) by {
        if i < v.asked {
            assert(v.roots[i] == w.roots[i]);
            assert(v.root_ids.contains(n));
            let k = choose|k: int| 0 <= k < v.root_ids.len() && v.root_ids[k] == n;
            assert(w.root_ids[k] == n);
        } else {
            assert(store.roots[n].path == path);
            let m = id->0;
            assert(id is Some && store.roots.contains_key(m) && store.roots[m].path == path);
            assert(m == n);
            assert(w.root_ids[v.root_ids.len() as int] == n);
        }
    }
    assert(w.ids().take(0) =~= Seq::empty());
}

proof fn lemma_terms_keeps(
    store: Store,
    config: Seq<RootView>,
    query: QueryView,
    terms: Seq<Seq<char>>,
    v: SearchView,
    picked: Seq<i64>,
)
    requires
        store.keeps(config, query, terms, v, picked),
        v.request() is Terms,
    ensures
        store.keeps(config, query, terms, v.after_terms(terms), picked),
{
    let w = v.after_terms(terms);
    assert(w.ids() == v.ids());
}

proof fn lemma_entry_ids_keeps(
    store: Store,
    config: Seq<RootView>,
    query: QueryView,
    terms: Seq<Seq<char>>,
    v: SearchView,
    picked: Seq<i64>,
    rows: Seq<i64>,
)
    requires
        store.keeps(config, query, terms, v, picked),
        v.request() is EntryIds,
        store.answers_entry_ids(v.terms->0[v.resolved as int], rows),
    ensures
        store.keeps(config, query, terms, v.after_entry_ids(rows), picked),
{
    let w = v.after_entry_ids(rows);
    let (ids, full) = bounded_ids(rows);
    let list = v.terms->0;
    let term = list[v.resolved as int];
    lemma_nothing_picked(store, config, query, terms, v, picked);
    lemma_bounded_ids(rows);
    lemma_bounded_increasing(rows);
    if v.found is Some {
        lemma_shared(v.ids(), ids);
    }
    assert(w.ids() == narrowed(v.found, ids));
    assert forall|id: i64, k: int|
        #![trigger w.ids().contains(id), w.terms->0[k]]
        w.ids().contains(id) && 0 <= k < w.resolved implies store.has_term(id, w.terms->0[k]) by {
        assert(ids.contains(id));
        assert(rows.contains(id));
        let i = choose|i: int| 0 <= i < rows.len() && rows[i] == id;
        assert(store.has_term(rows[i], term));
        if k < v.resolved {
            assert(v.ids().contains(id));
            assert(store.has_term(id, v.terms->0[k]));
        }
    }
    if !w.saturated {
        assert forall|id: i64|
            (forall|k: int| 0 <= k < w.resolved ==> store.has_term(id, #[trigger] w.terms->0[k]))
                implies #[trigger] w.ids().contains(id) by {
            assert(store.has_term(id, w.terms->0[v.resolved as int]));
            assert(rows.contains(id));
            assert(ids.contains(id));
            if v.found is Some {
                assert forall|k: int| 0 <= k < v.resolved implies store.has_term(
                    id,
                    #[trigger] v.terms->0[k],
                ) by {
                    assert(store.has_term(id, w.terms->0[k]));
                }
                assert(v.ids().contains(id));
                assert(shared(v.ids(), ids).contains(id));
            }
        }
    }
    if w.saturated {
        if v.saturated {
            let k = choose|k: int| 0 <= k < v.resolved && store.is_crowded(#[trigger] v.terms->0[k]);
            assert(store.is_crowded(w.terms->0[k]));
        } else {
            assert(store.is_crowded(w.terms->0[v.resolved as int]));
        }
        assert(exists|k: int| 0 <= k < w.resolved && store.is_crowded(#[trigger] w.terms->0[k]));
        assert forall|k: int| 0 <= k < w.resolved implies store.is_known(
            #[trigger] w.terms->0[k],
        ) by {
            if k < v.resolved {
                if v.saturated {
                    assert(store.is_known(v.terms->0[k]));
                } else {
                    assert(v.ids().contains(v.ids()[0]));
                    assert(store.has_term(v.ids()[0], v.terms->0[k]));
                }
            } else {
                assert(ids.contains(ids[0]));
                assert(rows.contains(ids[0]));
                let i = choose|i: int| 0 <= i < rows.len() && rows[i] == ids[0];
                assert(store.has_term(rows[i], term));
            }
        }
    }
    assert(w.ids().take(0) =~= Seq::empty());
}

proof fn lemma_candidates_keeps(
    store: Store,
    config: Seq<RootView>,
    query: QueryView,
    terms: Seq<Seq<char>>,
    v: SearchView,
    picked: Seq<i64>,
    rows: Seq<ColumnsView>,
) -> (all: Seq<i64>)
    requires
        store.keeps(config, query, terms, v, picked),
        v.request() is Candidates,
        store.answers_candidates(v.chunk(), v.root_ids, v.query, rows),
    ensures
        store.keeps(config, query, terms, v.after_candidates(rows), all),
{
    let w = v.after_candidates(rows);
    let ids = v.ids();
    let chunk = v.chunk();
    let more = choose|more: Seq<i64>|
        #[trigger] store.picks(chunk, v.root_ids, v.query, more) && rows == more.map_values(
            |id: i64| store.columns(id),
        );
    let all = picked + more;
    let before = ids.take(v.loaded as int);
    let after = ids.take(w.loaded as int);
    assert(w.ids() == ids);
    assert(after =~= before + chunk);
    assert(w.candidates =~= all.map_values(|id: i64| store.candidate(id)));
    assert forall|id: i64| before.contains(id) && chunk.contains(id) implies false by {
        let i = choose|i: int| 0 <= i < before.len() && before[i] == id;
        let j = choose|j: int| 0 <= j < chunk.len() && chunk[j] == id;
        assert(ids[i] == id && ids[v.loaded + j] == id);
        assert(number_order()(ids[i], ids[v.loaded + j]));
    }
    assert forall|id: i64| #[trigger] all.contains(id) <==> after.contains(id) && store.shows(
        query,
        id,
    ) && v.root_ids.contains(store.entries[id].root_id) by {
        if all.contains(id) {
            let k = choose|k: int| 0 <= k < all.len() && all[k] == id;
            if k < picked.len() {
                assert(picked[k] == id);
                assert(picked.contains(id));
                let i = choose|i: int| 0 <= i < before.len() && before[i] == id;
                assert(after[i] == id);
            } else {
                assert(more[k - picked.len()] == id);
                assert(more.contains(id));
                let j = choose|j: int| 0 <= j < chunk.len() && chunk[j] == id;
                assert(after[before.len() + j] == id);
            }
        }
        if after.contains(id) && store.shows(query, id) && v.root_ids.contains(
            store.entries[id].root_id,
        ) {
            let i = choose|i: int| 0 <= i < after.len() && after[i] == id;
            if i < before.len() {
                assert(before[i] == id);
                assert(picked.contains(id));
                let k = choose|k: int| 0 <= k < picked.len() && picked[k] == id;
                assert(all[k] == id);
            } else {
                assert(chunk[i - before.len()] == id);
                assert(more.contains(id));
                let k = choose|k: int| 0 <= k < more.len() && more[k] == id;
                assert(all[picked.len() + k] == id);
            }
        }
    }
    assert(all.no_duplicates()) by {
        assert forall|i: int, j: int| 0 <= i < all.len() && 0 <= j < all.len() && i != j implies all[i]
            != all[j] by {
            if i < picked.len() && j >= picked.len() {
                assert(picked.contains(all[i]) && more.contains(all[j]));
            } else if j < picked.len() && i >= picked.len() {
                assert(picked.contains(all[j]) && more.contains(all[i]));
            } else if i < picked.len() {
                assert(picked[i] != picked[j]);
            } else {
                assert(more[i - picked.len()] != more[j - picked.len()]);
            }
        }
    }
    all
}

proof fn lemma_states_keep(
    store: Store,
    config: Seq<RootView>,
    query: QueryView,
    terms: Seq<Seq<char>>,
    states: Seq<SearchView>,
    n: int,
) -> (picked: Seq<i64>)
    requires
        store.wf(),
        store.is_search(config, query, terms, states),
        0 <= n < states.len(),
    ensures
        store.keeps(config, query, terms, states[n], picked),
    decreases n,
{
    if n == 0 {
        lemma_start_keeps(store, config, query, terms);
        Seq::empty()
    } else {
        let picked = lemma_states_keep(store, config, query, terms, states, n - 1);
        let v = states[n - 1];
        let w = states[n];
        assert(store.step(terms, states[n - 1], states[n - 1 + 1]));
        match v.request() {
            SearchRequestView::RootId(s) => {
                let id = choose|id: Option<i64>| #[trigger]
                    store.gives_root_id(s, id) && w == v.after_root_id(id);
                lemma_root_id_is_answered(store, v.roots[v.asked as int].path, id);
                lemma_root_id_keeps(store, config, query, terms, v, picked, id);
                picked
            },
            SearchRequestView::Terms(_) => {
                lemma_terms_keeps(store, config, query, terms, v, picked);
                picked
            },
            SearchRequestView::EntryIds(s) => {
                let rows = choose|rows: Seq<i64>| #[trigger]
                    store.gives_entry_ids(s, rows) && w == v.after_entry_ids(rows);
                lemma_entry_ids_are_answered(store, v.terms->0[v.resolved as int], rows);
                lemma_entry_ids_keeps(store, config, query, terms, v, picked, rows);
                picked
            },
            SearchRequestView::Candidates(s) => {
                let rows = choose|rows: Seq<ColumnsView>| #[trigger]
                    store.gives_candidates(s, rows) && w == v.after_candidates(rows);
                lemma_candidates_are_answered(store, v.chunk(), v.root_ids, v.query, rows);
                lemma_candidates_keeps(store, config, query, terms, v, picked, rows)
            },
            SearchRequestView::Finish => picked,
        }
    }
}

proof fn lemma_search_picks(
    store: Store,
    config: Seq<RootView>,
    query: QueryView,
    terms: Seq<Seq<char>>,
    states: Seq<SearchView>,
) -> (picked: Seq<i64>)
    requires
        store.wf(),
        store.is_search(config, query, terms, states),
    ensures
        states.last().candidates == picked.map_values(|id: i64| store.candidate(id)),
        picked.no_duplicates(),
        forall|id: i64| #[trigger]
            picked.contains(id) ==> store.offers(config, query, terms, id),
        !states.last().saturated ==> forall|id: i64| #[trigger]
            store.offers(config, query, terms, id) ==> picked.contains(id),
        states.last().query == query,
        store.picks(
            states.last().ids().take(states.last().loaded as int),
            states.last().root_ids,
            query,
            picked,
        ),
{
    let n = states.len() - 1;
    let picked = lemma_states_keep(store, config, query, terms, states, n);
    let v = states[n];
    let all = sorted_set(terms, text_order());
    lemma_orders_strict_total();
    lemma_sorted_set(terms, text_order());
    assert forall|id: i64| #[trigger] picked.contains(id) implies store.offers(
        config,
        query,
        terms,
        id,
    ) by {
        assert(v.loaded > 0) by {
            if v.loaded == 0 {
                lemma_nothing_picked(store, config, query, terms, v, picked);
            }
        }
        assert(v.ids().take(v.loaded as int).contains(id));
        let i = choose|i: int|
            0 <= i < v.loaded && #[trigger] v.ids().take(v.loaded as int)[i] == id;
        assert(v.ids()[i] == id);
        assert(v.ids().contains(id));
        assert(v.found is Some && v.terms is Some);
        assert(v.resolved == all.len());
        assert forall|k: int| 0 <= k < terms.len() implies store.has_term(
            id,
            #[trigger] terms[k],
        ) by {
            assert(terms.contains(terms[k]));
            assert(all.contains(terms[k]));
            let j = choose|j: int| 0 <= j < all.len() && all[j] == terms[k];
            assert(store.has_term(id, v.terms->0[j]));
        }
    }
    if !v.saturated {
        assert forall|id: i64| #[trigger] store.offers(config, query, terms, id) implies picked.contains(
            id,
        ) by {
            let root = store.entries[id].root_id;
            let i = choose|i: int|
                0 <= i < v.roots.len() && lossy_utf8((#[trigger] v.roots[i]).path)
                    == store.roots[root].path;
            assert(store.roots.contains_key(root));
            assert(v.asked == v.roots.len());
            assert(v.root_ids.contains(root));
            assert(v.terms == Some(all));
            assert forall|k: int| 0 <= k < v.resolved implies store.has_term(
                id,
                #[trigger] v.terms->0[k],
            ) by {
                assert(all.contains(all[k]));
                assert(terms.contains(all[k]));
                let j = choose|j: int| 0 <= j < terms.len() && terms[j] == all[k];
                assert(store.has_term(id, terms[j]));
            }
            assert(v.found is Some);
            assert(v.ids().contains(id));
            assert(v.loaded == v.ids().len());
            assert(v.ids().take(v.loaded as int) =~= v.ids());
        }
    }
    picked
}

/// Every candidate of a search is an entry that the search is about, and none
/// comes twice. Where the coverage is complete, every such entry is a candidate.
/// So nothing outside the configured roots, the kinds that are sought and the
/// policy becomes a candidate, and nothing is missed in silence.
pub proof fn search_finds_what_is_stored(
    store: Store,
    config: Seq<RootView>,
    query: QueryView,
    terms: Seq<Seq<char>>,
    states: Seq<SearchView>,
) -> (picked: Seq<i64>)
    requires
        store.wf(),
        store.is_search(config, query, terms, states),
    ensures
        states.last().candidates == picked.map_values(|id: i64| store.candidate(id)),
        picked.no_duplicates(),
        forall|id: i64| #[trigger]
            picked.contains(id) ==> store.offers(config, query, terms, id),
        !states.last().saturated ==> forall|id: i64| #[trigger]
            store.offers(config, query, terms, id) ==> picked.contains(id),
{
    lemma_search_picks(store, config, query, terms, states)
}

/// Every result of a search is that of an entry which the search is about, with
/// a score above zero.
pub proof fn results_are_of_stored_entries(
    store: Store,
    config: Seq<RootView>,
    query: QueryView,
    terms: Seq<Seq<char>>,
    states: Seq<SearchView>,
    scores: Seq<CandidateScore>,
    a: int,
) -> (id: i64)
    requires
        store.wf(),
        store.is_search(config, query, terms, states),
        scores.len() == states.last().candidates.len(),
        0 <= a < states.last().outcome(scores).results.len(),
    ensures
        store.offers(config, query, terms, id),
        exists|k: int|
            0 <= k < scores.len() && (#[trigger] scores[k]).score > 0
                && states.last().outcome(scores).results[a] == result_of(
                store.candidate(id),
                scores[k],
            ),
{
    let v = states.last();
    let picked = search_finds_what_is_stored(store, config, query, terms, states);
    let hits = hits_of(v.candidates, scores);
    first_results_were_found(hits, v.query.limit, a);
    let i = choose|i: int|
        0 <= i < hits.len() && hits[i] == first_results(ranked(hits), v.query.limit)[a];
    results_score_above_zero(v.candidates, scores, i);
    let k = choose|k: int|
        0 <= k < v.candidates.len() && (#[trigger] scores[k]).score > 0 && hits[i] == result_of(
            v.candidates[k],
            scores[k],
        );
    assert(picked.contains(picked[k]));
    assert(v.candidates[k] == store.candidate(picked[k]));
    picked[k]
}

/// Where the coverage is complete and the limit is not exceeded, no entry that
/// the search is about is missing from its results, unless it scores zero or
/// less.
pub proof fn complete_searches_miss_nothing(
    store: Store,
    config: Seq<RootView>,
    query: QueryView,
    terms: Seq<Seq<char>>,
    states: Seq<SearchView>,
    scores: Seq<CandidateScore>,
    id: i64,
) -> (k: int)
    requires
        store.wf(),
        store.is_search(config, query, terms, states),
        scores.len() == states.last().candidates.len(),
        states.last().outcome(scores).coverage == CandidateCoverage::Complete,
        !states.last().outcome(scores).truncated,
        store.offers(config, query, terms, id),
    ensures
        0 <= k < scores.len(),
        states.last().candidates[k] == store.candidate(id),
        scores[k].score > 0 ==> states.last().outcome(scores).results.contains(
            result_of(store.candidate(id), scores[k]),
        ),
{
    let v = states.last();
    let picked = search_finds_what_is_stored(store, config, query, terms, states);
    assert(picked.contains(id));
    let k = choose|k: int| 0 <= k < picked.len() && picked[k] == id;
    assert(v.candidates[k] == store.candidate(picked[k]));
    if scores[k].score > 0 {
        let hits = hits_of(v.candidates, scores);
        scores_above_zero_become_results(v.candidates, scores, k);
        ranking_is_permutation(hits);
        lemma_order_is_order(hits);
        let x = result_of(store.candidate(id), scores[k]);
        to_multiset_contains(hits, x);
        to_multiset_contains(ranked(hits), x);
    }
    k
}

/// The database answers the search for a term's entries in one way only.
proof fn lemma_entry_ids_are_fixed(store: Store, prefix: Seq<char>, a: Seq<i64>, b: Seq<i64>)
    requires
        store.answers_entry_ids(prefix, a),
        store.answers_entry_ids(prefix, b),
        a.len() <= b.len(),
    ensures
        a == b,
{
    lemma_increasing_has_no_duplicates(a);
    lemma_increasing_has_no_duplicates(b);
    a.unique_seq_to_set();
    b.unique_seq_to_set();
    if a.len() <= MAX_KFS_CANDIDATE_ROWS {
        assert(b.to_set().subset_of(a.to_set())) by {
            assert forall|id: i64| b.to_set().contains(id) implies a.to_set().contains(id) by {
                let i = choose|i: int| 0 <= i < b.len() && b[i] == id;
                assert(store.has_term(b[i], prefix));
                assert(a.contains(id));
            }
        }
        lemma_same_when_contained(b, a);
    } else if a.last() <= b.last() {
        assert(a.to_set().subset_of(b.to_set())) by {
            assert forall|id: i64| a.to_set().contains(id) implies b.to_set().contains(id) by {
                lemma_at_most_the_last(a, id);
                assert(b.contains(id));
            }
        }
        lemma_same_when_contained(a, b);
    } else {
        assert(b.to_set().subset_of(a.to_set())) by {
            assert forall|id: i64| b.to_set().contains(id) implies a.to_set().contains(id) by {
                lemma_at_most_the_last(b, id);
                assert(a.contains(id));
            }
        }
        lemma_same_when_contained(b, a);
    }
}

proof fn lemma_at_most_the_last(a: Seq<i64>, id: i64)
    requires
        increasing(a, number_order()),
        a.contains(id),
    ensures
        id <= a.last(),
        exists|i: int| 0 <= i < a.len() && #[trigger] a[i] == id,
{
    let i = choose|i: int| 0 <= i < a.len() && a[i] == id;
    if i < a.len() - 1 {
        assert(number_order()(a[i], a[a.len() - 1]));
    }
}

/// Of two increasing lists, one that holds no fewer elements and only those of
/// the other is the other.
proof fn lemma_same_when_contained(a: Seq<i64>, b: Seq<i64>)
    requires
        increasing(a, number_order()),
        increasing(b, number_order()),
        a.len() >= b.len(),
        a.to_set().subset_of(b.to_set()),
    ensures
        a == b,
{
    lemma_increasing_has_no_duplicates(a);
    lemma_increasing_has_no_duplicates(b);
    a.unique_seq_to_set();
    b.unique_seq_to_set();
    lemma_len_subset(a.to_set(), b.to_set());
    lemma_subset_equality(a.to_set(), b.to_set());
    assert forall|y: i64| #[trigger] a.contains(y) <==> b.contains(y) by {
        assert(a.to_set().contains(y) <==> b.to_set().contains(y));
    }
    lemma_increasing_unique(a, b);
}

/// Two states that differ at most in the candidates, which are read in any order.
spec fn alike(v: SearchView, w: SearchView) -> bool {
    w == (SearchView { candidates: w.candidates, ..v })
}

proof fn lemma_steps_alike(
    store: Store,
    terms: Seq<Seq<char>>,
    v: SearchView,
    w: SearchView,
    v_next: SearchView,
    w_next: SearchView,
)
    requires
        store.wf(),
        alike(v, w),
        store.step(terms, v, v_next),
        store.step(terms, w, w_next),
    ensures
        alike(v_next, w_next),
{
    assert(v.ids() == w.ids() && v.chunk() == w.chunk());
    assert(v.resolving() == w.resolving());
    match v.request() {
        SearchRequestView::RootId(s) => {
            let path = v.roots[v.asked as int].path;
            let a = choose|id: Option<i64>| #[trigger]
                store.gives_root_id(s, id) && v_next == v.after_root_id(id);
            let b = choose|id: Option<i64>| #[trigger]
                store.gives_root_id(s, id) && w_next == w.after_root_id(id);
            lemma_root_id_is_answered(store, path, a);
            lemma_root_id_is_answered(store, path, b);
            assert(a == b);
        },
        SearchRequestView::Terms(_) => {},
        SearchRequestView::EntryIds(s) => {
            let prefix = v.terms->0[v.resolved as int];
            let a = choose|rows: Seq<i64>| #[trigger]
                store.gives_entry_ids(s, rows) && v_next == v.after_entry_ids(rows);
            let b = choose|rows: Seq<i64>| #[trigger]
                store.gives_entry_ids(s, rows) && w_next == w.after_entry_ids(rows);
            lemma_entry_ids_are_answered(store, prefix, a);
            lemma_entry_ids_are_answered(store, prefix, b);
            if a.len() <= b.len() {
                lemma_entry_ids_are_fixed(store, prefix, a, b);
            } else {
                lemma_entry_ids_are_fixed(store, prefix, b, a);
            }
        },
        SearchRequestView::Candidates(_) => {},
        SearchRequestView::Finish => {},
    }
}

/// Two searches for the same go through the same states, but for the order of
/// the candidates.
proof fn lemma_searches_alike(
    store: Store,
    config: Seq<RootView>,
    query: QueryView,
    terms: Seq<Seq<char>>,
    states: Seq<SearchView>,
    again: Seq<SearchView>,
    n: int,
)
    requires
        store.wf(),
        store.is_search(config, query, terms, states),
        store.is_search(config, query, terms, again),
        0 <= n < states.len(),
    ensures
        n < again.len(),
        alike(states[n], again[n]),
        n == states.len() - 1 ==> again.len() == states.len(),
    decreases n,
{
    if n > 0 {
        let m = n - 1;
        lemma_searches_alike(store, config, query, terms, states, again, m);
        assert(store.step(terms, states[m], states[m + 1]));
        lemma_same_request(states[m], again[m]);
        assert(!(again[m].request() is Finish));
        assert(m < again.len() - 1);
        assert(store.step(terms, again[m], again[m + 1]));
        lemma_steps_alike(store, terms, states[m], again[m], states[n], again[n]);
    }
    if n == states.len() - 1 {
        lemma_same_request(states[n], again[n]);
        if n < again.len() - 1 {
            assert(store.step(terms, again[n], again[n + 1]));
        }
    }
}

proof fn lemma_same_request(v: SearchView, w: SearchView)
    requires
        alike(v, w),
    ensures
        v.request() == w.request(),
{
    assert(v.ids() == w.ids() && v.chunk() == w.chunk());
    assert(v.resolving() == w.resolving());
}

/// Two searches for the same over the same database agree, where the result of a
/// candidate depends on the candidate alone. So results are deterministic, those
/// of a search whose coverage is truncated too.
///
/// This leaves out entries that share a path and differ in their results, such
/// as those of a file that was crawled through two roots and changed in between:
/// they tie, and the order in which they are read decides.
pub proof fn searches_agree(
    store: Store,
    config: Seq<RootView>,
    query: QueryView,
    terms: Seq<Seq<char>>,
    states: Seq<SearchView>,
    again: Seq<SearchView>,
    scores: Seq<CandidateScore>,
    scores_again: Seq<CandidateScore>,
    rate: spec_fn(CandidateView) -> ResultView,
)
    requires
        store.wf(),
        store.is_search(config, query, terms, states),
        store.is_search(config, query, terms, again),
        rates(states.last().candidates, scores, rate),
        rates(again.last().candidates, scores_again, rate),
        forall|a: i64, b: i64| #[trigger]
            store.offers(config, query, terms, a) && #[trigger] store.offers(
                config,
                query,
                terms,
                b,
            ) && components(store.candidate(a).path) == components(store.candidate(b).path)
                ==> rate(store.candidate(a)) == rate(store.candidate(b)),
    ensures
        again.last().outcome(scores_again) == states.last().outcome(scores),
{
    let of = |id: i64| store.candidate(id);
    let v = states.last();
    let w = again.last();
    let x = lemma_search_picks(store, config, query, terms, states);
    let y = lemma_search_picks(store, config, query, terms, again);
    lemma_searches_alike(store, config, query, terms, states, again, states.len() - 1);
    assert(alike(v, w));
    assert(v.ids() == w.ids());
    assert(v.candidates =~= x.map_values(of));
    assert(w.candidates =~= y.map_values(of));
    assert forall|id: i64| #[trigger] x.contains(id) <==> y.contains(id) by {
        let loaded = v.ids().take(v.loaded as int);
        assert(x.contains(id) <==> loaded.contains(id) && store.shows(query, id)
            && v.root_ids.contains(store.entries[id].root_id));
        assert(y.contains(id) <==> loaded.contains(id) && store.shows(query, id)
            && v.root_ids.contains(store.entries[id].root_id));
    }
    lemma_hits_in_any_order(x, y, of, scores, scores_again, rate);
    let hits = hits_of(v.candidates, scores);
    let others = hits_of(w.candidates, scores_again);
    to_multiset_len(hits);
    to_multiset_len(others);
    assert forall|i: int, j: int|
        0 <= i < hits.len() && 0 <= j < hits.len() && !(#[trigger] hits[i]).before(
            #[trigger] hits[j],
        ) && !hits[j].before(hits[i]) implies hits[i] == hits[j] by {
        results_score_above_zero(v.candidates, scores, i);
        results_score_above_zero(v.candidates, scores, j);
        let k = choose|k: int|
            0 <= k < v.candidates.len() && (#[trigger] scores[k]).score > 0 && hits[i] == result_of(
                v.candidates[k],
                scores[k],
            );
        let m = choose|m: int|
            0 <= m < v.candidates.len() && (#[trigger] scores[m]).score > 0 && hits[j] == result_of(
                v.candidates[m],
                scores[m],
            );
        ties_have_one_path(hits[i], hits[j]);
        assert(v.candidates[k] == store.candidate(x[k]));
        assert(v.candidates[m] == store.candidate(x[m]));
        assert(x.contains(x[k]) && x.contains(x[m]));
        assert(store.offers(config, query, terms, x[k]));
        assert(store.offers(config, query, terms, x[m]));
    }
    rankings_of_the_same_items_agree(hits, others);
}

/// The coverage is truncated only where a term of the query has more entries
/// than a search takes.
pub proof fn coverage_is_complete_within_the_bound(
    store: Store,
    config: Seq<RootView>,
    query: QueryView,
    terms: Seq<Seq<char>>,
    states: Seq<SearchView>,
)
    requires
        store.wf(),
        store.is_search(config, query, terms, states),
        forall|i: int| 0 <= i < terms.len() ==> !store.is_crowded(#[trigger] terms[i]),
    ensures
        !states.last().saturated,
{
    let n = states.len() - 1;
    let picked = lemma_states_keep(store, config, query, terms, states, n);
    let v = states[n];
    let all = sorted_set(terms, text_order());
    lemma_orders_strict_total();
    lemma_sorted_set(terms, text_order());
    if v.saturated {
        let k = choose|k: int| 0 <= k < v.resolved && store.is_crowded(#[trigger] v.terms->0[k]);
        assert(all.contains(all[k]));
        let j = choose|j: int| 0 <= j < terms.len() && terms[j] == all[k];
        assert(store.is_crowded(terms[j]));
    }
}

/// A term that no entry has ends a search empty, and its coverage is complete,
/// however many entries the other terms have.
pub proof fn a_term_that_matches_nothing_ends_the_search(
    store: Store,
    config: Seq<RootView>,
    query: QueryView,
    terms: Seq<Seq<char>>,
    states: Seq<SearchView>,
    scores: Seq<CandidateScore>,
    i: int,
)
    requires
        store.wf(),
        store.is_search(config, query, terms, states),
        0 <= i < terms.len(),
        !store.is_known(terms[i]),
    ensures
        states.last().candidates == Seq::<CandidateView>::empty(),
        states.last().outcome(scores) == (OutcomeView {
            candidate_count: 0,
            results: Seq::empty(),
            truncated: false,
            coverage: CandidateCoverage::Complete,
        }),
{
    let v = states.last();
    lemma_unknown_term_completes(store, config, query, terms, states, i);
    let found = search_finds_what_is_stored(store, config, query, terms, states);
    if found.len() > 0 {
        assert(found.contains(found[0]));
        assert(store.has_term(found[0], terms[i]));
    }
    assert(v.candidates =~= Seq::empty());
    let hits = hits_of(v.candidates, scores);
    lemma_order_is_order(hits);
    assert(ranked(hits) =~= Seq::empty());
}

proof fn lemma_unknown_term_completes(
    store: Store,
    config: Seq<RootView>,
    query: QueryView,
    terms: Seq<Seq<char>>,
    states: Seq<SearchView>,
    i: int,
)
    requires
        store.wf(),
        store.is_search(config, query, terms, states),
        0 <= i < terms.len(),
        !store.is_known(terms[i]),
    ensures
        !states.last().saturated,
{
    let v = states.last();
    let picked = lemma_states_keep(store, config, query, terms, states, states.len() - 1);
    if v.saturated {
        lemma_saturated_end(store, config, query, terms, v, picked);
        lemma_orders_strict_total();
        lemma_sorted_set(terms, text_order());
        let all = sorted_set(terms, text_order());
        assert(terms.contains(terms[i]));
        assert(all.contains(terms[i]));
        let k = choose|k: int| 0 <= k < all.len() && all[k] == terms[i];
        assert(store.is_known(all[k]));
    }
}

proof fn lemma_saturated_end(
    store: Store,
    config: Seq<RootView>,
    query: QueryView,
    terms: Seq<Seq<char>>,
    v: SearchView,
    picked: Seq<i64>,
)
    requires
        store.keeps(config, query, terms, v, picked),
        v.request() is Finish,
        v.saturated,
    ensures
        ({
            let all = sorted_set(terms, text_order());
            forall|k: int| 0 <= k < all.len() ==> store.is_known(#[trigger] all[k])
        }),
{
    let all = sorted_set(terms, text_order());
    if v.terms is None {
        assert(v.found is None);
    }
    assert(v.terms == Some(all));
    assert(v.resolved == all.len());
    assert forall|k: int| 0 <= k < all.len() implies store.is_known(#[trigger] all[k]) by {
        assert(store.is_known(v.terms->0[k]));
    }
}

/// A query without terms is a miss: it has no candidates, and its coverage is
/// complete.
pub proof fn a_query_without_terms_finds_nothing(
    store: Store,
    config: Seq<RootView>,
    query: QueryView,
    states: Seq<SearchView>,
)
    requires
        store.wf(),
        store.is_search(config, query, Seq::empty(), states),
    ensures
        states.last().candidates == Seq::<CandidateView>::empty(),
        !states.last().saturated,
{
    let none = Seq::<Seq<char>>::empty();
    let picked = search_finds_what_is_stored(store, config, query, none, states);
    coverage_is_complete_within_the_bound(store, config, query, none, states);
    if picked.len() > 0 {
        assert(picked.contains(picked[0]));
        assert(store.offers(config, query, none, picked[0]));
    }
    assert(states.last().candidates =~= Seq::empty());
}

/// Each answer brings a search nearer to its end: roots, terms and entries that
/// are left to ask for grow fewer, in this order.
pub proof fn every_answer_brings_the_end_nearer(
    store: Store,
    terms: Seq<Seq<char>>,
    v: SearchView,
    w: SearchView,
)
    requires
        store.step(terms, v, w),
    ensures
        v.asked < v.roots.len() ==> w.asked == v.asked + 1 && w.roots == v.roots,
        v.asked >= v.roots.len() && v.terms is None ==> w.terms is Some && w.asked == v.asked,
        v.asked >= v.roots.len() && v.terms is Some && v.resolving() ==> w.terms == v.terms
            && w.resolved == v.resolved + 1,
        v.asked >= v.roots.len() && v.terms is Some && !v.resolving() ==> w.terms == v.terms
            && w.ids() == v.ids() && w.resolved == v.resolved && v.loaded < w.loaded <= w.ids().len(),
{
}

/// An entry with a term that starts with a prefix is found by the prefix.
pub proof fn entries_are_found_by_prefix(
    store: Store,
    id: i64,
    stored: Seq<char>,
    prefix: Seq<char>,
)
    requires
        store.terms.contains((stored, id)),
        starts_with_text(stored, prefix),
    ensures
        store.has_term(id, prefix),
{
    terms_with_the_prefix_are_selected(prefix, stored);
}

/// Two queries that differ only in the dots before their extensions and in the
/// case of their letters show the same entries.
pub proof fn dots_and_case_of_extensions_do_not_matter(
    store: Store,
    a: QueryView,
    b: QueryView,
    id: i64,
)
    requires
        b == (QueryView { extensions: b.extensions, query: b.query, limit: b.limit, ..a }),
        a.extensions.len() == b.extensions.len(),
        forall|i: int|
            0 <= i < a.extensions.len() ==> normal_extension(#[trigger] a.extensions[i])
                == normal_extension(b.extensions[i]),
    ensures
        store.shows(a, id) == store.shows(b, id),
{
    if store.shows(a, id) && a.extensions.len() > 0 {
        let i = choose|i: int|
            0 <= i < a.extensions.len() && store.entries[id].extension == Some(
                normal_extension(#[trigger] a.extensions[i]),
            );
        assert(store.entries[id].extension == Some(normal_extension(b.extensions[i])));
    }
    if store.shows(b, id) && b.extensions.len() > 0 {
        let i = choose|i: int|
            0 <= i < b.extensions.len() && store.entries[id].extension == Some(
                normal_extension(#[trigger] b.extensions[i]),
            );
        assert(normal_extension(a.extensions[i]) == normal_extension(b.extensions[i]));
    }
}

/// What is stored of a crawled entry of a root.
pub open spec fn stored_entry(root_id: i64, entry: CrawledView) -> StoredEntry {
    StoredEntry {
        root_id,
        path: entry.key(),
        kind: kind_number(entry.kind),
        extension: lowercase_extension(entry.path),
        size: entry.stored_size(),
        mtime: entry.mtime,
        hidden: entry.hidden,
        ignored: entry.ignored,
        sensitive: entry.sensitive,
        deleted: false,
    }
}

impl Store {
    /// Whether a crawled entry is stored under an id, with these terms.
    pub open spec fn holds(
        self,
        id: i64,
        root_id: i64,
        entry: CrawledView,
        rows: Seq<TermView>,
    ) -> bool {
        &&& self.entries.contains_key(id)
        &&& self.entries[id] == stored_entry(root_id, entry)
        &&& forall|i: int|
            0 <= i < rows.len() ==> self.terms.contains(((#[trigger] rows[i]).term, id))
    }
}

/// Whether a query is about entries of a kind.
pub open spec fn seeks_kind(query: QueryView, kind: EntryKind) -> bool {
    match kind {
        EntryKind::File => query.include_files,
        EntryKind::Directory => query.include_directories,
        EntryKind::Other => query.include_files && query.include_directories,
    }
}

/// Whether a prefix starts a term of these rows.
pub open spec fn starts_among(prefix: Seq<char>, rows: Seq<TermView>) -> bool {
    exists|j: int| 0 <= j < rows.len() && starts_with_text((#[trigger] rows[j]).term, prefix)
}

/// An indexed entry is found: a search is about it where it lies in an enabled
/// root, is of a kind and an extension that is sought, is not sensitive, is
/// neither hidden nor ignored unless that is allowed, and each term of the query
/// starts one of its terms.
pub proof fn indexed_entries_are_found(
    store: Store,
    config: Seq<RootView>,
    query: QueryView,
    terms: Seq<Seq<char>>,
    id: i64,
    root_id: i64,
    entry: CrawledView,
    rows: Seq<TermView>,
)
    requires
        store.holds(id, root_id, entry, rows),
        store.in_scope(enabled(config), root_id),
        seeks_kind(query, entry.kind),
        !entry.sensitive,
        !entry.hidden || query.include_hidden || store.roots[root_id].include_hidden,
        !entry.ignored || query.include_ignored || store.roots[root_id].include_ignored,
        query.extensions.len() == 0 || exists|i: int|
            0 <= i < query.extensions.len() && lowercase_extension(entry.path) == Some(
                normal_extension(#[trigger] query.extensions[i]),
            ),
        terms.len() > 0,
        forall|i: int| 0 <= i < terms.len() ==> starts_among(#[trigger] terms[i], rows),
    ensures
        store.offers(config, query, terms, id),
{
    assert forall|i: int| 0 <= i < terms.len() implies store.has_term(id, #[trigger] terms[i]) by {
        assert(starts_among(terms[i], rows));
        let j = choose|j: int|
            0 <= j < rows.len() && starts_with_text((#[trigger] rows[j]).term, terms[i]);
        entries_are_found_by_prefix(store, id, rows[j].term, terms[i]);
    }
    if query.extensions.len() > 0 {
        let i = choose|i: int|
            0 <= i < query.extensions.len() && lowercase_extension(entry.path) == Some(
                normal_extension(#[trigger] query.extensions[i]),
            );
        assert(store.entries[id].extension == Some(normal_extension(query.extensions[i])));
    }
}

/// What a search gives back of an indexed entry: its kind, its time where that
/// is not before 1970, its size where 63 bits hold it, and its path, which is
/// the entry's own where that is UTF-8.
pub proof fn indexed_entries_read_back(
    store: Store,
    id: i64,
    root_id: i64,
    entry: CrawledView,
    rows: Seq<TermView>,
)
    requires
        store.holds(id, root_id, entry, rows),
    ensures
        store.candidate(id).kind == entry.kind,
        store.candidate(id).root_priority == store.roots[root_id].priority,
        store.candidate(id).modified_unix_seconds == unsigned_or_none(entry.mtime),
        store.candidate(id).byte_size == match entry.size {
            Some(n) => if n <= i64::MAX {
                Some(n)
            } else {
                None
            },
            None => None,
        },
        store.candidate(id).path == encode_utf8(entry.key()),
        valid_utf8(entry.path) ==> store.candidate(id).path == entry.path,
{
    kind_round_trips(entry.kind);
    if valid_utf8(entry.path) {
        utf8_paths_survive_as_text(entry.path);
    }
}

} // verus!
