//! Whole runs over the roots of a configuration, and what one run leaves for
//! the next.

use crate::index::candidates::{rates, CandidateScore, CandidateView, ResultView};
use crate::index::changes::{a_rebuild_indexes_the_crawl, a_rebuild_stores_the_crawl, a_refresh_stores_the_crawl, lemma_tracked_root_matches, other_roots_stay_indexed, splits_as};
use crate::index::refresh::{a_matching_root_calls_for_no_change, distinct_keys, lists, matched, Table};
use crate::index::rows::{CrawledView, TermView};
use crate::index::run::{enabled, RebuildView, RefreshView};
use crate::index::search::SearchView;
use crate::index::store::{searches_agree, Store, StoredRoot};
use crate::index::work::{Answers, WorkView};
use crate::model::{QueryView, RootView};
use crate::path::{components, lossy_utf8};
use vstd::prelude::*;

verus! {

/// What is stored of a configured root.
pub open spec fn stored_root(root: RootView) -> StoredRoot {
    StoredRoot {
        path: lossy_utf8(root.path),
        priority: root.priority,
        include_hidden: root.include_hidden,
        include_ignored: root.include_ignored,
    }
}

impl Store {
    /// Whether a root with this path is stored under an id, or would be: the id
    /// is that of the root with the path, or a new one where there is none.
    pub open spec fn names_root(self, path: Seq<char>, id: i64) -> bool {
        if self.roots.contains_key(id) {
            self.roots[id].path == path
        } else {
            forall|n: i64| #[trigger] self.roots.contains_key(n) ==> self.roots[n].path != path
        }
    }

    /// What is stored once a root is stored under an id.
    pub open spec fn with_root(self, id: i64, root: RootView) -> Store {
        Store { roots: self.roots.insert(id, stored_root(root)), ..self }
    }
}

/// The turn of one root in a run whose crawl met no errors: the root, the id
/// under which it is stored, what was read of it, what the crawl met, and how
/// the database answered.
pub struct RootPass {
    pub root: RootView,
    pub root_id: i64,
    pub now: i64,
    pub keys: Seq<Seq<char>>,
    pub table: Table,
    pub crawled: Seq<CrawledView>,
    pub skipped: nat,
    pub answers: Answers,
}

impl RootPass {
    /// The work that the root calls for, in a rebuild or in a refresh.
    pub open spec fn work(self, rebuild: bool) -> WorkView {
        if rebuild {
            RebuildView::work(self.root_id, self.now, self.crawled, Seq::empty())
        } else {
            RefreshView::work(
                self.root_id,
                self.now,
                self.keys,
                self.table,
                self.crawled,
                Seq::empty(),
            )
        }
    }

    /// Whether the turn takes the database from one state to another: the root
    /// is stored, a refresh reads what is stored of it, and the work is done.
    pub open spec fn leads(self, rebuild: bool, before: Store, after: Store) -> bool {
        let start = before.with_root(self.root_id, self.root);
        &&& before.names_root(lossy_utf8(self.root.path), self.root_id)
        &&& self.crawled.len() <= usize::MAX
        &&& distinct_keys(self.crawled)
        &&& start.leaves_free(self.answers.entry_id, self.crawled.len())
        &&& !rebuild ==> start.reads(self.root_id, self.table) && lists(self.keys, self.table)
        &&& after == self.work(rebuild).stored(self.answers, start)
    }
}

/// Whether these are the states of the database in a run over the enabled roots
/// of a configuration, in their order, from its start to its end.
pub open spec fn is_run(
    rebuild: bool,
    config: Seq<RootView>,
    passes: Seq<RootPass>,
    stores: Seq<Store>,
) -> bool {
    &&& passes.len() == enabled(config).len()
    &&& stores.len() == passes.len() + 1
    &&& forall|r: int|
        0 <= r < passes.len() ==> (#[trigger] passes[r]).root == enabled(config)[r]
            && passes[r].leads(rebuild, stores[r], stores[r + 1])
}

/// Whether roots have different paths, as they are stored.
pub open spec fn distinct_roots(roots: Seq<RootView>) -> bool {
    forall|r: int, q: int|
        0 <= r < q < roots.len() ==> lossy_utf8((#[trigger] roots[r]).path) != lossy_utf8(
            (#[trigger] roots[q]).path,
        )
}

/// A refresh of a configuration after its first `n` roots.
pub open spec fn totals(config: Seq<RootView>, passes: Seq<RootPass>, n: nat) -> RefreshView
    decreases n,
{
    if n == 0 {
        RefreshView::start(config)
    } else {
        let p = passes[n - 1];
        totals(config, passes, (n - 1) as nat).after(
            p.keys,
            p.table,
            p.crawled,
            p.skipped,
            Seq::empty(),
        )
    }
}

/// How many entries the first `n` roots of a run have.
pub open spec fn crawled_count(passes: Seq<RootPass>, n: nat) -> nat
    decreases n,
{
    if n == 0 {
        0
    } else {
        crawled_count(passes, (n - 1) as nat) + passes[n - 1].crawled.len()
    }
}

proof fn lemma_with_root(store: Store, id: i64, root: RootView)
    requires
        store.wf(),
        store.names_root(lossy_utf8(root.path), id),
    ensures
        store.with_root(id, root).wf(),
{
    let after = store.with_root(id, root);
    assert forall|a: i64, b: i64| #[trigger]
        after.roots.contains_key(a) && #[trigger] after.roots.contains_key(b) && a != b implies after.roots[a].path
        != after.roots[b].path by {
        if a != id {
            assert(store.roots.contains_key(a));
        }
        if b != id {
            assert(store.roots.contains_key(b));
        }
    }
}

proof fn lemma_pass(rebuild: bool, pass: RootPass, before: Store, after: Store)
    requires
        before.wf(),
        pass.leads(rebuild, before, after),
    ensures
        after.wf(),
        after.tracks(pass.root_id, pass.crawled),
        before.with_root(pass.root_id, pass.root).same_elsewhere(after, pass.root_id),
{
    let start = before.with_root(pass.root_id, pass.root);
    lemma_with_root(before, pass.root_id, pass.root);
    if rebuild {
        a_rebuild_stores_the_crawl(start, pass.root_id, pass.now, pass.crawled, pass.answers);
    } else {
        a_refresh_stores_the_crawl(
            start,
            pass.root_id,
            pass.now,
            pass.keys,
            pass.table,
            pass.crawled,
            pass.answers,
        );
    }
}

proof fn lemma_tracks_elsewhere(
    before: Store,
    after: Store,
    root_id: i64,
    other: i64,
    crawled: Seq<CrawledView>,
)
    requires
        before.same_elsewhere(after, root_id),
        other != root_id,
        before.tracks(other, crawled),
    ensures
        after.tracks(other, crawled),
{
    assert forall|i: int| 0 <= i < crawled.len() implies after.has_entry(
        other,
        #[trigger] crawled[i],
    ) by {
        assert(before.has_entry(other, crawled[i]));
        let id = choose|id: i64| #[trigger] before.keeps_entry(id, other, crawled[i]);
        assert(before.entries.contains_key(id));
        assert(after.keeps_entry(id, other, crawled[i]));
    }
}

/// What a run over roots with different paths leaves: what the schema asks
/// holds, each root is stored as configured, and what is stored of it is what
/// its crawl met.
pub proof fn a_run_stores_every_crawl(
    rebuild: bool,
    config: Seq<RootView>,
    passes: Seq<RootPass>,
    stores: Seq<Store>,
    n: int,
)
    requires
        is_run(rebuild, config, passes, stores),
        distinct_roots(enabled(config)),
        stores[0].wf(),
        0 <= n <= passes.len(),
    ensures
        stores[n].wf(),
        forall|r: int|
            0 <= r < n ==> {
                let p = #[trigger] passes[r];
                &&& stores[n].roots.contains_key(p.root_id)
                &&& stores[n].roots[p.root_id] == stored_root(p.root)
                &&& stores[n].tracks(p.root_id, p.crawled)
            },
    decreases n,
{
    if n > 0 {
        a_run_stores_every_crawl(rebuild, config, passes, stores, n - 1);
        let pass = passes[n - 1];
        let before = stores[n - 1];
        let after = stores[n];
        assert(passes[n - 1].leads(rebuild, stores[n - 1], stores[n - 1 + 1]));
        lemma_pass(rebuild, pass, before, after);
        let start = before.with_root(pass.root_id, pass.root);
        assert forall|r: int| 0 <= r < n implies {
            let p = #[trigger] passes[r];
            &&& after.roots.contains_key(p.root_id)
            &&& after.roots[p.root_id] == stored_root(p.root)
            &&& after.tracks(p.root_id, p.crawled)
        } by {
            let p = passes[r];
            if r < n - 1 {
                assert(lossy_utf8(enabled(config)[r].path) != lossy_utf8(
                    enabled(config)[n - 1].path,
                ));
                assert(before.roots.contains_key(p.root_id));
                assert(p.root_id != pass.root_id);
                assert(start.tracks(p.root_id, p.crawled)) by {
                    assert forall|i: int| 0 <= i < p.crawled.len() implies start.has_entry(
                        p.root_id,
                        #[trigger] p.crawled[i],
                    ) by {
                        assert(before.has_entry(p.root_id, p.crawled[i]));
                        let id = choose|id: i64| #[trigger]
                            before.keeps_entry(id, p.root_id, p.crawled[i]);
                        assert(start.keeps_entry(id, p.root_id, p.crawled[i]));
                    }
                }
                lemma_tracks_elsewhere(start, after, pass.root_id, p.root_id, p.crawled);
            }
        }
    }
}

/// Whether the terms that each turn of a run stores are those of the paths.
pub open spec fn run_splits_as(
    rebuild: bool,
    passes: Seq<RootPass>,
    terms_of: spec_fn(Seq<u8>) -> Seq<TermView>,
) -> bool {
    forall|r: int|
        0 <= r < passes.len() ==> {
            let work = (#[trigger] passes[r]).work(rebuild);
            splits_as(work.entries, work.changes, work.rows(passes[r].answers), terms_of)
        }
}

/// After a rebuild over roots with different paths exactly the entries of each
/// crawl are stored of its root, each with its own terms and no others.
pub proof fn a_rebuild_indexes_every_crawl(
    config: Seq<RootView>,
    passes: Seq<RootPass>,
    stores: Seq<Store>,
    terms_of: spec_fn(Seq<u8>) -> Seq<TermView>,
    n: int,
)
    requires
        is_run(true, config, passes, stores),
        distinct_roots(enabled(config)),
        stores[0].wf(),
        run_splits_as(true, passes, terms_of),
        0 <= n <= passes.len(),
    ensures
        forall|r: int|
            0 <= r < n ==> stores[n].indexes_crawl(
                (#[trigger] passes[r]).root_id,
                passes[r].crawled,
                terms_of,
            ),
    decreases n,
{
    if n > 0 {
        a_rebuild_indexes_every_crawl(config, passes, stores, terms_of, n - 1);
        a_run_stores_every_crawl(true, config, passes, stores, n - 1);
        let pass = passes[n - 1];
        let before = stores[n - 1];
        let after = stores[n];
        let start = before.with_root(pass.root_id, pass.root);
        assert(passes[n - 1].leads(true, stores[n - 1], stores[n - 1 + 1]));
        lemma_pass(true, pass, before, after);
        lemma_with_root(before, pass.root_id, pass.root);
        assert(splits_as(
            passes[n - 1].work(true).entries,
            passes[n - 1].work(true).changes,
            passes[n - 1].work(true).rows(passes[n - 1].answers),
            terms_of,
        ));
        a_rebuild_indexes_the_crawl(
            start,
            pass.root_id,
            pass.now,
            pass.crawled,
            pass.answers,
            terms_of,
        );
        assert forall|r: int| 0 <= r < n implies after.indexes_crawl(
            (#[trigger] passes[r]).root_id,
            passes[r].crawled,
            terms_of,
        ) by {
            let p = passes[r];
            if r < n - 1 {
                assert(lossy_utf8(enabled(config)[r].path) != lossy_utf8(
                    enabled(config)[n - 1].path,
                ));
                assert(before.roots.contains_key(p.root_id));
                assert(p.root_id != pass.root_id);
                assert(before.indexes_crawl(p.root_id, p.crawled, terms_of));
                other_roots_stay_indexed(
                    before,
                    start,
                    pass.root_id,
                    p.root_id,
                    p.crawled,
                    terms_of,
                );
                other_roots_stay_indexed(
                    start,
                    after,
                    pass.root_id,
                    p.root_id,
                    p.crawled,
                    terms_of,
                );
            }
        }
    }
}

/// Whether each root is crawled to the same entries in two runs.
pub open spec fn same_crawls(first: Seq<RootPass>, second: Seq<RootPass>) -> bool {
    forall|r: int|
        0 <= r < first.len() ==> (#[trigger] second[r]).crawled == first[r].crawled
}

/// What a refresh finds that follows a run over the same roots, crawled to the
/// same entries: the database is left as it is, and each root calls for no
/// change.
proof fn lemma_second_run(
    rebuild: bool,
    config: Seq<RootView>,
    first: Seq<RootPass>,
    stores: Seq<Store>,
    second: Seq<RootPass>,
    later: Seq<Store>,
    n: int,
)
    requires
        is_run(rebuild, config, first, stores),
        is_run(false, config, second, later),
        distinct_roots(enabled(config)),
        same_crawls(first, second),
        stores[0].wf(),
        later[0] == stores.last(),
        0 <= n <= second.len(),
    ensures
        later[n] == later[0],
    decreases n,
{
    if n > 0 {
        let r = n - 1;
        lemma_second_run(rebuild, config, first, stores, second, later, r);
        lemma_second_pass(rebuild, config, first, stores, second, later, r);
    }
}

proof fn lemma_second_pass(
    rebuild: bool,
    config: Seq<RootView>,
    first: Seq<RootPass>,
    stores: Seq<Store>,
    second: Seq<RootPass>,
    later: Seq<Store>,
    r: int,
)
    requires
        is_run(rebuild, config, first, stores),
        is_run(false, config, second, later),
        distinct_roots(enabled(config)),
        same_crawls(first, second),
        stores[0].wf(),
        later[0] == stores.last(),
        0 <= r < second.len(),
        later[r] == later[0],
    ensures
        later[r + 1] == later[r],
        matched(second[r].table, second[r].crawled),
{
    let store = later[r];
    let p = second[r];
    let start = store.with_root(p.root_id, p.root);
    a_run_stores_every_crawl(rebuild, config, first, stores, first.len() as int);
    assert(store == stores[first.len() as int]);
    assert(second[r].root == enabled(config)[r] && first[r].root == enabled(config)[r]);
    assert(second[r].crawled == first[r].crawled);
    assert(second[r].leads(false, later[r], later[r + 1]));
    assert(store.roots.contains_key(first[r].root_id));
    assert(p.root_id == first[r].root_id) by {
        if store.roots.contains_key(p.root_id) && p.root_id != first[r].root_id {
            assert(store.roots[p.root_id].path != store.roots[first[r].root_id].path);
        }
    }
    assert(start.roots =~= store.roots);
    assert(start == store);
    lemma_tracked_root_matches(store, p.root_id, p.table, p.crawled);
    a_matching_root_calls_for_no_change(p.keys, p.table, p.crawled);
}

/// A refresh that follows a rebuild or a refresh, while every root is crawled to
/// the same entries, changes nothing that is stored, and counts every entry as
/// unchanged and nothing else.
pub proof fn a_second_run_changes_nothing(
    rebuild: bool,
    config: Seq<RootView>,
    first: Seq<RootPass>,
    stores: Seq<Store>,
    second: Seq<RootPass>,
    later: Seq<Store>,
)
    requires
        is_run(rebuild, config, first, stores),
        is_run(false, config, second, later),
        distinct_roots(enabled(config)),
        same_crawls(first, second),
        stores[0].wf(),
        later[0] == stores.last(),
    ensures
        later.last() == stores.last(),
        ({
            let end = totals(config, second, second.len());
            &&& end.inserted == 0
            &&& end.updated == 0
            &&& end.deleted == 0
            &&& end.unchanged == crawled_count(second, second.len())
            &&& end.errors == Seq::<Seq<char>>::empty()
        }),
{
    lemma_second_run(rebuild, config, first, stores, second, later, second.len() as int);
    lemma_second_totals(rebuild, config, first, stores, second, later, second.len());
}

proof fn lemma_second_totals(
    rebuild: bool,
    config: Seq<RootView>,
    first: Seq<RootPass>,
    stores: Seq<Store>,
    second: Seq<RootPass>,
    later: Seq<Store>,
    n: nat,
)
    requires
        is_run(rebuild, config, first, stores),
        is_run(false, config, second, later),
        distinct_roots(enabled(config)),
        same_crawls(first, second),
        stores[0].wf(),
        later[0] == stores.last(),
        n <= second.len(),
    ensures
        ({
            let end = totals(config, second, n);
            &&& end.inserted == 0
            &&& end.updated == 0
            &&& end.deleted == 0
            &&& end.unchanged == crawled_count(second, n)
            &&& end.errors == Seq::<Seq<char>>::empty()
        }),
    decreases n,
{
    if n > 0 {
        let r = n - 1;
        let p = second[r];
        lemma_second_totals(rebuild, config, first, stores, second, later, r as nat);
        lemma_second_run(rebuild, config, first, stores, second, later, r);
        lemma_second_pass(rebuild, config, first, stores, second, later, r);
        assert(second[r].leads(false, later[r], later[r + 1]));
        a_matching_root_calls_for_no_change(p.keys, p.table, p.crawled);
        let before = totals(config, second, r as nat);
        let end = totals(config, second, n);
        assert(before.errors + Seq::<Seq<char>>::empty() =~= before.errors);
    }
}

/// Searches find the same before and after a refresh that follows a rebuild or a
/// refresh, while every root is crawled to the same entries: where the result of
/// a candidate depends on the candidate alone, their outcomes are the same.
pub proof fn searches_agree_after_a_second_run(
    rebuild: bool,
    config: Seq<RootView>,
    first: Seq<RootPass>,
    stores: Seq<Store>,
    second: Seq<RootPass>,
    later: Seq<Store>,
    searched: Seq<RootView>,
    query: QueryView,
    terms: Seq<Seq<char>>,
    states: Seq<SearchView>,
    again: Seq<SearchView>,
    scores: Seq<CandidateScore>,
    scores_again: Seq<CandidateScore>,
    rate: spec_fn(CandidateView) -> ResultView,
)
    requires
        is_run(rebuild, config, first, stores),
        is_run(false, config, second, later),
        distinct_roots(enabled(config)),
        same_crawls(first, second),
        stores[0].wf(),
        later[0] == stores.last(),
        stores.last().is_search(searched, query, terms, states),
        later.last().is_search(searched, query, terms, again),
        rates(states.last().candidates, scores, rate),
        rates(again.last().candidates, scores_again, rate),
        forall|a: i64, b: i64| #[trigger]
            stores.last().offers(searched, query, terms, a) && #[trigger] stores.last().offers(
                searched,
                query,
                terms,
                b,
            ) && components(stores.last().candidate(a).path) == components(
                stores.last().candidate(b).path,
            ) ==> rate(stores.last().candidate(a)) == rate(stores.last().candidate(b)),
    ensures
        again.last().outcome(scores_again) == states.last().outcome(scores),
{
    a_run_stores_every_crawl(rebuild, config, first, stores, first.len() as int);
    lemma_second_run(rebuild, config, first, stores, second, later, second.len() as int);
    searches_agree(
        stores.last(),
        searched,
        query,
        terms,
        states,
        again,
        scores,
        scores_again,
        rate,
    );
}

} // verus!
