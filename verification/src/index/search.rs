//! Searching the index.
//!
//! A search runs in two stages. The first resolves each term of the query to a
//! bounded set of entries, and the sets are intersected; the second loads what
//! is left in chunks, with every condition on scope, kind and policy in the
//! statement, so that nothing outside them becomes a candidate. There is no
//! fallback that scans a whole root: a term that matches nothing ends the
//! search, and its coverage is complete.
//!
//! A run is driven from outside: ask it for its next request, run the
//! statement, hand it the answer, and at the end the scores of the candidates.

use crate::index::candidates::{above_zero, candidate_of, candidate_row, candidate_views, candidates_statement, candidates_view, column_views, each_score_above_zero_counts, first_results, hits_of, rank_results, result_views, results_are_limited, results_of, CandidateColumns, CandidateRow, CandidateScore, CandidateView, ColumnsView, ResultView, SearchResult};
use crate::index::roots::{root_id_view, select_root_id_statement};
use crate::index::run::{enabled, enabled_roots};
use crate::index::sql::{Statement, StatementView};
use crate::index::terms::{term_ids_statement, term_ids_view, MAX_KFS_CANDIDATE_ROWS};
use crate::model::{root_views, texts, QueryView, RootView, SearchConfig, SearchQuery, SearchRoot};
use crate::order::ranked;
use crate::sorted::{increasing, insert_number, insert_sorted, lemma_insert_sorted, lemma_orders_strict_total, lemma_shared, number_order, shared, shared_numbers, sorted_set, sorted_texts, text_order};
use vstd::prelude::*;
use vstd::slice::slice_subrange;

verus! {

/// How much of what the roots could offer was ranked.
#[derive(Debug, Clone, Copy, PartialEq, Eq, Structural)]
pub enum CandidateCoverage {
    /// Every candidate the configured roots could offer was ranked.
    Complete,
    /// The candidate work bound was reached; results are deterministic but
    /// partial and never claim to be the best over the whole root.
    Truncated,
}

/// What a search found.
#[derive(Debug, Clone, PartialEq, Eq)]
pub struct IndexedSearchOutcome {
    /// Candidates that were read, after the work bound.
    pub candidate_count: usize,
    pub results: Vec<SearchResult>,
    /// More valid results existed than the requested limit.
    pub truncated: bool,
    pub coverage: CandidateCoverage,
}

/// What an [`IndexedSearchOutcome`] says.
#[verifier::ext_equal]
pub struct OutcomeView {
    pub candidate_count: nat,
    pub results: Seq<ResultView>,
    pub truncated: bool,
    pub coverage: CandidateCoverage,
}

impl View for IndexedSearchOutcome {
    type V = OutcomeView;

    open spec fn view(&self) -> OutcomeView {
        OutcomeView {
            candidate_count: self.candidate_count as nat,
            results: result_views(self.results@),
            truncated: self.truncated,
            coverage: self.coverage,
        }
    }
}

/// How many candidates are loaded at once.
pub const CHUNK: usize = 400;

/// The entries of a term, up to the work bound, and whether there are more:
/// rows are taken into an increasing list until it is full.
pub open spec fn bounded_ids(rows: Seq<i64>) -> (Seq<i64>, bool)
    decreases rows.len(),
{
    if rows.len() == 0 {
        (Seq::empty(), false)
    } else {
        let (ids, full) = bounded_ids(rows.drop_last());
        if full || ids.len() == MAX_KFS_CANDIDATE_ROWS {
            (ids, true)
        } else {
            (insert_sorted(ids, rows.last(), number_order()), false)
        }
    }
}

/// What is left once the entries of one more term are known.
pub open spec fn narrowed(found: Option<Seq<i64>>, ids: Seq<i64>) -> Seq<i64> {
    match found {
        Some(previous) => shared(previous, ids),
        None => ids,
    }
}

/// How far a search has come.
#[verifier::ext_equal]
pub struct SearchView {
    /// The enabled roots.
    pub roots: Seq<RootView>,
    pub query: QueryView,
    /// How many roots have been looked up, and the ids of those that were
    /// found.
    pub asked: nat,
    pub root_ids: Seq<i64>,
    /// The terms of the query, each once, in order, once they are known; how
    /// many have been resolved, the entries that have all of those, and whether
    /// any of them had more entries than are taken while each had some.
    pub terms: Option<Seq<Seq<char>>>,
    pub resolved: nat,
    pub found: Option<Seq<i64>>,
    pub saturated: bool,
    /// How many of the found entries have been loaded, and the candidates among
    /// them.
    pub loaded: nat,
    pub candidates: Seq<CandidateView>,
}

/// What a search asks for.
pub enum SearchRequestView {
    RootId(StatementView),
    Terms(Seq<char>),
    EntryIds(StatementView),
    Candidates(StatementView),
    Finish,
}

/// The end of the next chunk of a list.
pub open spec fn chunk_end(from: nat, len: nat) -> nat {
    if len - from > CHUNK {
        from + CHUNK as nat
    } else {
        len
    }
}

impl SearchView {
    /// The start of a search.
    pub open spec fn start(config: Seq<RootView>, query: QueryView) -> SearchView {
        SearchView {
            roots: enabled(config),
            query,
            asked: 0,
            root_ids: Seq::empty(),
            terms: None,
            resolved: 0,
            found: None,
            saturated: false,
            loaded: 0,
            candidates: Seq::empty(),
        }
    }

    /// Whether another term is to be resolved: there is one, and an entry may
    /// have it and all that were: one that was found, or one that was not taken.
    pub open spec fn resolving(self) -> bool {
        match self.terms {
            Some(terms) => self.resolved < terms.len() && match self.found {
                Some(ids) => ids.len() > 0 || self.saturated,
                None => true,
            },
            None => false,
        }
    }

    /// The entries that have all terms.
    pub open spec fn ids(self) -> Seq<i64> {
        match self.found {
            Some(ids) => ids,
            None => Seq::empty(),
        }
    }

    /// The next entries to load.
    pub open spec fn chunk(self) -> Seq<i64> {
        self.ids().subrange(self.loaded as int, chunk_end(self.loaded, self.ids().len()) as int)
    }

    /// What is asked for next. Nothing is where neither files nor directories
    /// are sought, where no root is known, and where the query has no term.
    pub open spec fn request(self) -> SearchRequestView {
        if !self.query.include_files && !self.query.include_directories {
            SearchRequestView::Finish
        } else if self.asked < self.roots.len() {
            SearchRequestView::RootId(root_id_view(self.roots[self.asked as int].path))
        } else if self.root_ids.len() == 0 {
            SearchRequestView::Finish
        } else if self.terms is None {
            SearchRequestView::Terms(self.query.query)
        } else if self.resolving() {
            SearchRequestView::EntryIds(term_ids_view(self.terms->0[self.resolved as int]))
        } else if self.loaded < self.ids().len() {
            SearchRequestView::Candidates(candidates_view(self.chunk(), self.root_ids, self.query))
        } else {
            SearchRequestView::Finish
        }
    }

    /// The search once a root was looked up.
    pub open spec fn after_root_id(self, id: Option<i64>) -> SearchView {
        SearchView {
            asked: self.asked + 1,
            root_ids: match id {
                Some(n) => self.root_ids.push(n),
                None => self.root_ids,
            },
            ..self
        }
    }

    /// The search once the terms of the query are known.
    pub open spec fn after_terms(self, terms: Seq<Seq<char>>) -> SearchView {
        SearchView { terms: Some(sorted_set(terms, text_order())), ..self }
    }

    /// The search once the entries of a term are known. A term without entries
    /// leaves nothing to be missed, whatever the terms before it had.
    pub open spec fn after_entry_ids(self, rows: Seq<i64>) -> SearchView {
        let (ids, full) = bounded_ids(rows);
        SearchView {
            resolved: self.resolved + 1,
            found: Some(narrowed(self.found, ids)),
            saturated: ids.len() > 0 && (self.saturated || full),
            ..self
        }
    }

    /// The search once a chunk of candidates was loaded.
    pub open spec fn after_candidates(self, rows: Seq<ColumnsView>) -> SearchView {
        SearchView {
            loaded: chunk_end(self.loaded, self.ids().len()),
            candidates: self.candidates + rows.map_values(|r: ColumnsView| candidate_of(r)),
            ..self
        }
    }

    /// What the search found, where the candidates score so.
    pub open spec fn outcome(self, scores: Seq<CandidateScore>) -> OutcomeView {
        let hits = hits_of(self.candidates, scores);
        OutcomeView {
            candidate_count: self.candidates.len(),
            results: first_results(ranked(hits), self.query.limit),
            truncated: hits.len() > self.query.limit,
            coverage: if self.saturated {
                CandidateCoverage::Truncated
            } else {
                CandidateCoverage::Complete
            },
        }
    }
}

/// What a search asks for.
#[derive(Debug, PartialEq, Eq)]
pub enum SearchRequest {
    /// The id that the statement gives, if any.
    RootId(Statement),
    /// The terms of this text.
    Terms(String),
    /// The ids that the statement gives.
    EntryIds(Statement),
    /// The rows that the statement gives.
    Candidates(Statement),
    /// The scores of the candidates.
    Finish,
}

impl View for SearchRequest {
    type V = SearchRequestView;

    open spec fn view(&self) -> SearchRequestView {
        match self {
            SearchRequest::RootId(statement) => SearchRequestView::RootId(statement@),
            SearchRequest::Terms(query) => SearchRequestView::Terms(query@),
            SearchRequest::EntryIds(statement) => SearchRequestView::EntryIds(statement@),
            SearchRequest::Candidates(statement) => SearchRequestView::Candidates(statement@),
            SearchRequest::Finish => SearchRequestView::Finish,
        }
    }
}

/// A search of the index.
#[derive(Debug)]
pub struct SearchRun {
    roots: Vec<SearchRoot>,
    query: SearchQuery,
    asked: usize,
    root_ids: Vec<i64>,
    terms: Option<Vec<String>>,
    resolved: usize,
    found: Option<Vec<i64>>,
    saturated: bool,
    loaded: usize,
    candidates: Vec<CandidateRow>,
}

/// The texts of a list that may be missing.
pub open spec fn optional_texts(list: Option<Vec<String>>) -> Option<Seq<Seq<char>>> {
    match list {
        Some(s) => Some(texts(s@)),
        None => None,
    }
}

/// The numbers of a list that may be missing.
pub open spec fn optional_numbers(list: Option<Vec<i64>>) -> Option<Seq<i64>> {
    match list {
        Some(s) => Some(s@),
        None => None,
    }
}

impl View for SearchRun {
    type V = SearchView;

    closed spec fn view(&self) -> SearchView {
        SearchView {
            roots: root_views(self.roots@),
            query: self.query@,
            asked: self.asked as nat,
            root_ids: self.root_ids@,
            terms: optional_texts(self.terms),
            resolved: self.resolved as nat,
            found: optional_numbers(self.found),
            saturated: self.saturated,
            loaded: self.loaded as nat,
            candidates: candidate_views(self.candidates@),
        }
    }
}

/// What is taken of the entries of a term.
pub proof fn lemma_bounded_ids(rows: Seq<i64>)
    ensures
        increasing(bounded_ids(rows).0, number_order()),
        bounded_ids(rows).0.len() <= MAX_KFS_CANDIDATE_ROWS,
        forall|y: i64| #[trigger] bounded_ids(rows).0.contains(y) ==> rows.contains(y),
        !bounded_ids(rows).1 ==> forall|y: i64| #[trigger] rows.contains(y) ==> bounded_ids(
            rows,
        ).0.contains(y),
    decreases rows.len(),
{
    if rows.len() > 0 {
        let front = rows.drop_last();
        lemma_bounded_ids(front);
        lemma_orders_strict_total();
        let (ids, full) = bounded_ids(front);
        lemma_insert_sorted(ids, rows.last(), number_order());
        assert forall|y: i64| #[trigger] bounded_ids(rows).0.contains(y) implies rows.contains(
            y,
        ) by {
            if ids.contains(y) {
                assert(front.contains(y));
                let k = choose|k: int| 0 <= k < front.len() && front[k] == y;
                assert(rows[k] == y);
            } else {
                assert(rows[rows.len() - 1] == y);
            }
        }
        if !bounded_ids(rows).1 {
            assert forall|y: i64| #[trigger] rows.contains(y) implies bounded_ids(rows).0.contains(
                y,
            ) by {
                let k = choose|k: int| 0 <= k < rows.len() && rows[k] == y;
                if k < front.len() {
                    assert(front[k] == y);
                    assert(front.contains(y));
                    assert(ids.contains(y));
                }
            }
        }
    }
}

/// The entries of a term, up to the work bound, and whether there are more.
pub fn take_ids(rows: &Vec<i64>) -> (r: (Vec<i64>, bool))
    ensures
        (r.0@, r.1) == bounded_ids(rows@),
{
    let mut ids: Vec<i64> = Vec::new();
    let mut full: bool = false;
    let mut i: usize = 0;
    assert((ids@, full) == bounded_ids(rows@.take(0)));
    while i < rows.len()
        invariant
            i <= rows.len(),
            (ids@, full) == bounded_ids(rows@.take(i as int)),
        decreases rows.len() - i,
    {
        assert(rows@.take(i + 1).drop_last() =~= rows@.take(i as int));
        if full || ids.len() == MAX_KFS_CANDIDATE_ROWS {
            full = true;
        } else {
            insert_number(&mut ids, rows[i]);
        }
        i += 1;
    }
    assert(rows@.take(i as int) =~= rows@);
    (ids, full)
}

impl SearchRun {
    /// Whether the state is one that a search can reach.
    pub closed spec fn wf(self) -> bool {
        &&& self.asked <= self.roots.len()
        &&& self.resolved <= match self.terms {
            Some(terms) => terms@.len(),
            None => 0,
        }
        &&& self.loaded <= self@.ids().len()
        &&& match self.found {
            Some(ids) => increasing(ids@, number_order()),
            None => true,
        }
        &&& self.terms is None ==> self.found is None
        &&& self@.resolving() ==> self.loaded == 0
    }

    /// Begins a search of the enabled roots.
    pub fn start(config: &SearchConfig, query: &SearchQuery) -> (r: Self)
        ensures
            r.wf(),
            r@ == SearchView::start(config@, query@),
    {
        let candidates: Vec<CandidateRow> = Vec::new();
        assert(candidate_views(candidates@) =~= Seq::empty());
        SearchRun {
            roots: enabled_roots(config),
            query: query.clone(),
            asked: 0,
            root_ids: Vec::new(),
            terms: None,
            resolved: 0,
            found: None,
            saturated: false,
            loaded: 0,
            candidates,
        }
    }

    /// What to do next.
    pub fn request(&self) -> (r: SearchRequest)
        requires
            self.wf(),
        ensures
            r@ == self@.request(),
    {
        assert(self@.roots.len() == self.roots.len());
        if !self.query.include_files && !self.query.include_directories {
            return SearchRequest::Finish;
        }
        if self.asked < self.roots.len() {
            return SearchRequest::RootId(select_root_id_statement(&self.roots[self.asked]));
        }
        if self.root_ids.len() == 0 {
            return SearchRequest::Finish;
        }
        match &self.terms {
            None => SearchRequest::Terms(self.query.query.clone()),
            Some(terms) => {
                assert(texts(terms@).len() == terms.len());
                let open: bool = match &self.found {
                    Some(ids) => ids.len() > 0 || self.saturated,
                    None => true,
                };
                if self.resolved < terms.len() && open {
                    return SearchRequest::EntryIds(term_ids_statement(terms[self.resolved].as_str()));
                }
                match &self.found {
                    None => SearchRequest::Finish,
                    Some(ids) => {
                        if self.loaded < ids.len() {
                            let end: usize = if ids.len() - self.loaded > CHUNK {
                                self.loaded + CHUNK
                            } else {
                                ids.len()
                            };
                            let chunk = slice_subrange(ids.as_slice(), self.loaded, end);
                            assert(chunk@ =~= self@.chunk());
                            SearchRequest::Candidates(
                                candidates_statement(chunk, self.root_ids.as_slice(), &self.query),
                            )
                        } else {
                            SearchRequest::Finish
                        }
                    },
                }
            },
        }
    }

    /// A root was looked up.
    pub fn on_root_id(&mut self, id: Option<i64>)
        requires
            old(self).wf(),
            old(self)@.request() is RootId,
        ensures
            final(self).wf(),
            final(self)@ == old(self)@.after_root_id(id),
    {
        assert(self@.roots.len() == self.roots.len());
        self.asked = self.asked + 1;
        match id {
            Some(n) => self.root_ids.push(n),
            None => {},
        }
    }

    /// The query was split into terms.
    pub fn on_terms(&mut self, terms: &Vec<String>)
        requires
            old(self).wf(),
            old(self)@.request() is Terms,
        ensures
            final(self).wf(),
            final(self)@ == old(self)@.after_terms(texts(terms@)),
    {
        assert(self.resolved == 0);
        self.terms = Some(sorted_texts(terms));
    }

    /// The entries of a term were found.
    pub fn on_entry_ids(&mut self, rows: &Vec<i64>)
        requires
            old(self).wf(),
            old(self)@.request() is EntryIds,
        ensures
            final(self).wf(),
            final(self)@ == old(self)@.after_entry_ids(rows@),
    {
        let (ids, full) = take_ids(rows);
        proof {
            lemma_bounded_ids(rows@);
            let terms = self.terms->0;
            assert(texts(terms@).len() == terms.len());
        }
        let matched: bool = ids.len() > 0;
        let rest: Vec<i64> = match &self.found {
            Some(previous) => {
                proof {
                    lemma_shared(previous@, ids@);
                }
                shared_numbers(previous, &ids)
            },
            None => ids,
        };
        self.found = Some(rest);
        self.resolved = self.resolved + 1;
        self.saturated = matched && (self.saturated || full);
        assert(self@ =~= old(self)@.after_entry_ids(rows@));
    }

    /// A chunk of candidates was loaded.
    pub fn on_candidates(&mut self, rows: &Vec<CandidateColumns>)
        requires
            old(self).wf(),
            old(self)@.request() is Candidates,
        ensures
            final(self).wf(),
            final(self)@ == old(self)@.after_candidates(column_views(rows@)),
    {
        let total: usize = match &self.found {
            Some(ids) => ids.len(),
            None => 0,
        };
        assert(total == self@.ids().len());
        self.loaded = if total - self.loaded > CHUNK {
            self.loaded + CHUNK
        } else {
            total
        };
        let ghost start = candidate_views(self.candidates@);
        let ghost views = column_views(rows@);
        let ghost turn = |r: ColumnsView| candidate_of(r);
        let ghost rest = *self;
        assert(start =~= start + views.take(0).map_values(turn));
        let mut i: usize = 0;
        while i < rows.len()
            invariant
                i <= rows.len(),
                views == column_views(rows@),
                turn == (|r: ColumnsView| candidate_of(r)),
                candidate_views(self.candidates@) == start + views.take(i as int).map_values(turn),
                *self == (SearchRun { candidates: self.candidates, ..rest }),
            decreases rows.len() - i,
        {
            let row = candidate_row(&rows[i]);
            let ghost view = row@;
            let ghost before = self.candidates@;
            self.candidates.push(row);
            assert(candidate_views(self.candidates@) =~= candidate_views(before).push(view));
            assert(views.take(i + 1).map_values(turn) =~= views.take(i as int).map_values(turn).push(
                view,
            ));
            i += 1;
        }
        assert(views.take(i as int) =~= views);
        assert(self@ =~= old(self)@.after_candidates(views));
    }

    /// The candidates, to be scored.
    pub fn candidates(&self) -> (r: &Vec<CandidateRow>)
        ensures
            candidate_views(r@) == self@.candidates,
    {
        &self.candidates
    }

    /// Ends the search, with the score of each candidate.
    pub fn finish(self, scores: &Vec<CandidateScore>) -> (r: IndexedSearchOutcome)
        requires
            self.wf(),
            self@.request() is Finish,
            scores@.len() == self@.candidates.len(),
        ensures
            r@ == self@.outcome(scores@),
    {
        assert(self@.candidates.len() == self.candidates.len());
        let hits = results_of(&self.candidates, scores);
        assert(result_views(hits@).len() == hits.len());
        let results = rank_results(&hits, self.query.limit);
        let r = IndexedSearchOutcome {
            candidate_count: self.candidates.len(),
            results,
            truncated: hits.len() > self.query.limit,
            coverage: if self.saturated {
                CandidateCoverage::Truncated
            } else {
                CandidateCoverage::Complete
            },
        };
        assert(r@ =~= self@.outcome(scores@));
        r
    }
}

/// What a search reports: how many candidates were read, whether more of them
/// scored above zero than were asked for, and that it is complete exactly where
/// no term had more entries than are taken.
pub proof fn outcomes_tell_of_the_search(v: SearchView, scores: Seq<CandidateScore>)
    requires
        v.candidates.len() == scores.len(),
    ensures
        v.outcome(scores).candidate_count == v.candidates.len(),
        v.outcome(scores).truncated <==> above_zero(scores) > v.query.limit,
        v.outcome(scores).results.len() == if above_zero(scores) > v.query.limit {
            v.query.limit as nat
        } else {
            above_zero(scores)
        },
        v.outcome(scores).coverage == CandidateCoverage::Truncated <==> v.saturated,
        v.outcome(scores).coverage == CandidateCoverage::Complete <==> !v.saturated,
{
    each_score_above_zero_counts(v.candidates, scores);
    results_are_limited(hits_of(v.candidates, scores), v.query.limit);
}

/// A search begins with nothing asked for, of the enabled roots. One that seeks
/// neither files nor directories is over at once, and finds nothing.
pub proof fn a_search_for_nothing_finds_nothing(config: Seq<RootView>, query: QueryView)
    ensures
        SearchView::start(config, query).roots == enabled(config),
        SearchView::start(config, query).query == query,
        SearchView::start(config, query).asked == 0,
        SearchView::start(config, query).candidates.len() == 0,
        !query.include_files && !query.include_directories ==> SearchView::start(
            config,
            query,
        ).request() is Finish,
        SearchView::start(config, query).outcome(Seq::empty()).results.len() == 0,
        !SearchView::start(config, query).outcome(Seq::empty()).truncated,
{
    outcomes_tell_of_the_search(SearchView::start(config, query), Seq::empty());
}

/// Candidates are loaded in their order, at least one and at most four hundred at
/// once, and fewer only at the end.
pub proof fn a_chunk_is_the_next_few_hundred(v: SearchView)
    requires
        v.loaded < v.ids().len(),
    ensures
        1 <= v.chunk().len() <= 400,
        forall|i: int|
            0 <= i < v.chunk().len() ==> #[trigger] v.chunk()[i] == v.ids()[v.loaded + i],
        v.chunk().len() < 400 ==> v.loaded + v.chunk().len() == v.ids().len(),
        v.after_candidates(Seq::empty()).loaded == v.loaded + v.chunk().len(),
{
}

/// Of the entries of a term at most fifty thousand are taken, and the search
/// knows exactly where there are more.
pub proof fn fifty_thousand_entries_of_a_term_are_taken(rows: Seq<i64>)
    requires
        rows.no_duplicates(),
    ensures
        bounded_ids(rows).0.len() == if rows.len() > 50_000 {
            50_000
        } else {
            rows.len()
        },
        bounded_ids(rows).1 <==> rows.len() > 50_000,
        forall|y: i64| #[trigger] bounded_ids(rows).0.contains(y) ==> rows.contains(y),
    decreases rows.len(),
{
    if rows.len() > 0 {
        let front = rows.drop_last();
        fifty_thousand_entries_of_a_term_are_taken(front);
        lemma_bounded_ids(front);
        lemma_orders_strict_total();
        let ids = bounded_ids(front).0;
        let lt = number_order();
        lemma_insert_sorted(ids, rows.last(), lt);
        if ids.contains(rows.last()) {
            assert(front.contains(rows.last()));
            let k = choose|k: int| 0 <= k < front.len() && front[k] == rows.last();
            assert(rows[k] == rows[rows.len() - 1]);
        }
        lemma_bounded_ids(rows);
    }
}

} // verus!
