//! What runs over the roots of a configuration count.

use crate::index::refresh::{plan_changes, refresh_counts_every_entry, removals, walk, EntryChange, Table};
use crate::index::roots::record_failed_scan_view;
use crate::index::rows::CrawledView;
use crate::index::run::{enabled, RebuildView, RefreshView};
use crate::index::store::Store;
use crate::index::work::{a_failed_crawl_leaves_entries_alone, Answers, ScanRecord, WorkView};
use crate::model::RootView;
use vstd::prelude::*;

verus! {

/// The crawl of a root: the id and the time under which it is stored, what was
/// read of the root before, and what the crawl met.
pub struct Crawl {
    pub root_id: i64,
    pub now: i64,
    pub keys: Seq<Seq<char>>,
    pub table: Table,
    pub entries: Seq<CrawledView>,
    pub skipped: nat,
    pub errors: Seq<Seq<char>>,
}

/// A rebuild of a configuration after the first `n` crawls.
pub open spec fn rebuilding(config: Seq<RootView>, crawls: Seq<Crawl>, n: nat) -> RebuildView
    decreases n,
{
    if n == 0 {
        RebuildView::start(config)
    } else {
        let c = crawls[n - 1];
        rebuilding(config, crawls, (n - 1) as nat).after(c.entries.len(), c.skipped, c.errors)
    }
}

/// A refresh of a configuration after the first `n` crawls.
pub open spec fn refreshing(config: Seq<RootView>, crawls: Seq<Crawl>, n: nat) -> RefreshView
    decreases n,
{
    if n == 0 {
        RefreshView::start(config)
    } else {
        let c = crawls[n - 1];
        refreshing(config, crawls, (n - 1) as nat).after(
            c.keys,
            c.table,
            c.entries,
            c.skipped,
            c.errors,
        )
    }
}

impl Crawl {
    /// The work that the crawl calls for in a rebuild.
    pub open spec fn rebuild_work(self) -> WorkView {
        RebuildView::work(self.root_id, self.now, self.entries, self.errors)
    }

    /// The work that the crawl calls for in a refresh.
    pub open spec fn refresh_work(self) -> WorkView {
        RefreshView::work(
            self.root_id,
            self.now,
            self.keys,
            self.table,
            self.entries,
            self.errors,
        )
    }
}

/// The sum of a number over the first `n` crawls.
pub open spec fn sum(crawls: Seq<Crawl>, number: spec_fn(Crawl) -> nat, n: nat) -> nat
    decreases n,
{
    if n == 0 {
        0
    } else {
        sum(crawls, number, (n - 1) as nat) + number(crawls[n - 1])
    }
}

/// The errors of the first `n` crawls, in order.
pub open spec fn all_errors(crawls: Seq<Crawl>, n: nat) -> Seq<Seq<char>>
    decreases n,
{
    if n == 0 {
        Seq::empty()
    } else {
        all_errors(crawls, (n - 1) as nat) + crawls[n - 1].errors
    }
}

/// How many of the changes meet a condition.
pub open spec fn number_of(changes: Seq<EntryChange>, such: spec_fn(EntryChange) -> bool) -> nat
    decreases changes.len(),
{
    if changes.len() == 0 {
        0
    } else {
        number_of(changes.drop_last(), such) + if such(changes.last()) {
            1nat
        } else {
            0nat
        }
    }
}

/// How many entries are inserted.
pub open spec fn inserts(changes: Seq<EntryChange>) -> nat {
    number_of(changes, |c: EntryChange| c is Insert)
}

/// How many entries are updated.
pub open spec fn updates(changes: Seq<EntryChange>) -> nat {
    number_of(changes, |c: EntryChange| c is Update)
}

/// How many entries are marked as deleted.
pub open spec fn deletions(changes: Seq<EntryChange>) -> nat {
    number_of(changes, |c: EntryChange| c is MarkDeleted)
}

proof fn lemma_number_of_all(changes: Seq<EntryChange>, such: spec_fn(EntryChange) -> bool)
    requires
        forall|i: int| 0 <= i < changes.len() ==> such(#[trigger] changes[i]),
    ensures
        number_of(changes, such) == changes.len(),
    decreases changes.len(),
{
    if changes.len() > 0 {
        let front = changes.drop_last();
        assert forall|i: int| 0 <= i < front.len() implies such(#[trigger] front[i]) by {
            assert(front[i] == changes[i]);
        }
        lemma_number_of_all(front, such);
        assert(changes.last() == changes[changes.len() - 1]);
    }
}

proof fn lemma_number_of_none(changes: Seq<EntryChange>, such: spec_fn(EntryChange) -> bool)
    requires
        forall|i: int| 0 <= i < changes.len() ==> !such(#[trigger] changes[i]),
    ensures
        number_of(changes, such) == 0,
    decreases changes.len(),
{
    if changes.len() > 0 {
        let front = changes.drop_last();
        assert forall|i: int| 0 <= i < front.len() implies !such(#[trigger] front[i]) by {
            assert(front[i] == changes[i]);
        }
        lemma_number_of_none(front, such);
        assert(changes.last() == changes[changes.len() - 1]);
    }
}

proof fn lemma_number_of_sum(
    a: Seq<EntryChange>,
    b: Seq<EntryChange>,
    such: spec_fn(EntryChange) -> bool,
)
    ensures
        number_of(a + b, such) == number_of(a, such) + number_of(b, such),
    decreases b.len(),
{
    if b.len() == 0 {
        assert(a + b =~= a);
    } else {
        assert((a + b).drop_last() =~= a + b.drop_last());
        lemma_number_of_sum(a, b.drop_last(), such);
    }
}

/// A crawl that met errors calls for no change: nothing is inserted, updated,
/// deleted or removed, the database is left as it is, and all that is run is that
/// the root is recorded as dirty.
pub proof fn crawls_with_errors_change_nothing(crawl: Crawl, answers: Answers, store: Store)
    requires
        crawl.errors.len() > 0,
    ensures
        ({
            let work = crawl.rebuild_work();
            &&& work.changes.len() == 0
            &&& work.record == ScanRecord::Failed
            &&& work.root_id == crawl.root_id
            &&& work.stored(answers, store) == store
            &&& work.statements(answers) == seq![
                record_failed_scan_view(crawl.root_id, answers.count),
            ]
        }),
        ({
            let work = crawl.refresh_work();
            &&& work.changes.len() == 0
            &&& work.record == ScanRecord::Failed
            &&& work.root_id == crawl.root_id
            &&& work.stored(answers, store) == store
            &&& work.statements(answers) == seq![
                record_failed_scan_view(crawl.root_id, answers.count),
            ]
        }),
{
    a_failed_crawl_leaves_entries_alone(crawl.root_id, crawl.now, answers);
}

/// A crawl without errors calls in a rebuild for one insertion of each entry, in
/// their order, recorded as a full scan of its root at its time.
pub proof fn a_rebuild_inserts_each_entry(crawl: Crawl)
    requires
        crawl.errors.len() == 0,
        crawl.entries.len() <= usize::MAX,
    ensures
        ({
            let work = crawl.rebuild_work();
            &&& work.record == ScanRecord::Full
            &&& work.root_id == crawl.root_id
            &&& work.now == crawl.now
            &&& work.entries == crawl.entries
            &&& work.changes.len() == crawl.entries.len()
            &&& forall|i: int|
                0 <= i < work.changes.len() ==> (#[trigger] work.changes[i]) is Insert
                    && work.changes[i]->Insert_entry == i
            &&& inserts(work.changes) == crawl.entries.len()
            &&& updates(work.changes) == 0
            &&& deletions(work.changes) == 0
        }),
{
    let changes = crawl.rebuild_work().changes;
    lemma_number_of_all(changes, |c: EntryChange| c is Insert);
    lemma_number_of_none(changes, |c: EntryChange| c is Update);
    lemma_number_of_none(changes, |c: EntryChange| c is MarkDeleted);
}

/// The numbers of a rebuild: the entries that it reports are, over all roots
/// whose crawl met no errors, those that the crawls found, which are those that
/// it inserts; what was skipped is counted of every root, and the errors of every
/// crawl are kept in order.
pub proof fn a_rebuild_counts_what_it_inserts(
    config: Seq<RootView>,
    crawls: Seq<Crawl>,
    n: nat,
)
    requires
        n <= crawls.len(),
        forall|i: int| 0 <= i < crawls.len() ==> (#[trigger] crawls[i]).entries.len() <= usize::MAX,
    ensures
        ({
            let v = rebuilding(config, crawls, n);
            &&& v.roots == enabled(config)
            &&& v.done == n
            &&& v.entries == sum(
                crawls,
                |c: Crawl|
                    if c.errors.len() == 0 {
                        c.entries.len()
                    } else {
                        0
                    },
                n,
            )
            &&& v.entries == sum(crawls, |c: Crawl| inserts(c.rebuild_work().changes), n)
            &&& v.skipped == sum(crawls, |c: Crawl| c.skipped, n)
            &&& v.errors == all_errors(crawls, n)
        }),
    decreases n,
{
    if n > 0 {
        let m = (n - 1) as nat;
        let c = crawls[n - 1];
        a_rebuild_counts_what_it_inserts(config, crawls, m);
        if c.errors.len() == 0 {
            a_rebuild_inserts_each_entry(c);
        } else {
            assert(inserts(c.rebuild_work().changes) == 0);
        }
    }
}

proof fn lemma_walk_counts(t: Table, crawled: Seq<CrawledView>, n: nat)
    ensures
        ({
            let w = walk(t, crawled, n);
            &&& w.inserted == inserts(w.changes)
            &&& w.updated == updates(w.changes)
            &&& deletions(w.changes) == 0
        }),
    decreases n,
{
    if n > 0 {
        let m = (n - 1) as nat;
        lemma_walk_counts(t, crawled, m);
        let before = walk(t, crawled, m).changes;
        let after = walk(t, crawled, n).changes;
        if after != before {
            assert(after.drop_last() =~= before);
        }
    }
}

proof fn lemma_removal_counts(keys: Seq<Seq<char>>, t: Table, n: nat)
    ensures
        forall|i: int|
            0 <= i < removals(keys, t, n).len() ==> (#[trigger] removals(keys, t, n)[i]) is MarkDeleted,
    decreases n,
{
    if n > 0 {
        lemma_removal_counts(keys, t, (n - 1) as nat);
    }
}

/// The changes of a refresh, counted: so many insertions, updates and deletions
/// as are reported, and every other entry of the crawl is unchanged.
pub proof fn a_refresh_counts_its_changes(crawl: Crawl)
    requires
        crawl.errors.len() == 0,
    ensures
        ({
            let work = crawl.refresh_work();
            let none = RefreshView::start(Seq::empty());
            let v = none.after(crawl.keys, crawl.table, crawl.entries, crawl.skipped, crawl.errors);
            &&& work.record == ScanRecord::Incremental
            &&& work.root_id == crawl.root_id
            &&& work.now == crawl.now
            &&& work.entries == crawl.entries
            &&& v.inserted == inserts(work.changes)
            &&& v.updated == updates(work.changes)
            &&& v.deleted == deletions(work.changes)
            &&& v.unchanged == crawl.entries.len() - inserts(work.changes) - updates(work.changes)
        }),
{
    let w = walk(crawl.table, crawl.entries, crawl.entries.len());
    let gone = removals(crawl.keys, w.remaining, crawl.keys.len());
    let changes = plan_changes(crawl.keys, crawl.table, crawl.entries);
    assert(changes == w.changes + gone);
    lemma_walk_counts(crawl.table, crawl.entries, crawl.entries.len());
    refresh_counts_every_entry(crawl.table, crawl.entries, crawl.entries.len());
    lemma_removal_counts(crawl.keys, w.remaining, crawl.keys.len());
    lemma_number_of_sum(w.changes, gone, |c: EntryChange| c is Insert);
    lemma_number_of_sum(w.changes, gone, |c: EntryChange| c is Update);
    lemma_number_of_sum(w.changes, gone, |c: EntryChange| c is MarkDeleted);
    lemma_number_of_none(gone, |c: EntryChange| c is Insert);
    lemma_number_of_none(gone, |c: EntryChange| c is Update);
    lemma_number_of_all(gone, |c: EntryChange| c is MarkDeleted);
}

/// The numbers of a refresh: what it reports as inserted, updated and deleted
/// are, over all roots, the changes that it makes; unchanged are the other
/// entries of the crawls without errors; what was skipped is counted of every
/// root, and the errors of every crawl are kept in order.
pub proof fn a_refresh_counts_what_it_changes(
    config: Seq<RootView>,
    crawls: Seq<Crawl>,
    n: nat,
)
    requires
        n <= crawls.len(),
    ensures
        ({
            let v = refreshing(config, crawls, n);
            &&& v.roots == enabled(config)
            &&& v.done == n
            &&& v.inserted == sum(crawls, |c: Crawl| inserts(c.refresh_work().changes), n)
            &&& v.updated == sum(crawls, |c: Crawl| updates(c.refresh_work().changes), n)
            &&& v.deleted == sum(crawls, |c: Crawl| deletions(c.refresh_work().changes), n)
            &&& v.inserted + v.updated + v.unchanged == sum(
                crawls,
                |c: Crawl|
                    if c.errors.len() == 0 {
                        c.entries.len()
                    } else {
                        0
                    },
                n,
            )
            &&& v.skipped == sum(crawls, |c: Crawl| c.skipped, n)
            &&& v.errors == all_errors(crawls, n)
        }),
    decreases n,
{
    if n > 0 {
        let m = (n - 1) as nat;
        let c = crawls[n - 1];
        a_refresh_counts_what_it_changes(config, crawls, m);
        if c.errors.len() == 0 {
            a_refresh_counts_its_changes(c);
        } else {
            assert(inserts(c.refresh_work().changes) == 0);
            assert(updates(c.refresh_work().changes) == 0);
            assert(deletions(c.refresh_work().changes) == 0);
        }
    }
}

/// The enabled roots of a configuration are taken one by one, in their order.
pub proof fn enabled_roots_keep_their_order(a: Seq<RootView>, root: RootView)
    ensures
        enabled(Seq::empty()) == Seq::<RootView>::empty(),
        enabled(a.push(root)) == if root.enabled {
            enabled(a).push(root)
        } else {
            enabled(a)
        },
{
    reveal(Seq::filter);
    assert(a.push(root).drop_last() =~= a);
}

/// A refresh takes a crawl exactly where none of its totals can grow past what
/// they hold: each entry may be inserted, updated or unchanged, and each stored
/// one deleted.
pub proof fn there_is_room_exactly_when(v: RefreshView, found: nat, stored: nat, skipped: nat)
    ensures
        v.has_room(found, stored, skipped) <==> v.inserted + found <= usize::MAX && v.updated
            + found <= usize::MAX && v.unchanged + found <= usize::MAX && v.deleted + stored
            <= usize::MAX && v.skipped + skipped <= usize::MAX,
{
}

} // verus!
