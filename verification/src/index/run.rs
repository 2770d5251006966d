//! Rebuilding and refreshing the index, root by root: what to do with each
//! crawl, and the totals.
//!
//! A run is driven from outside: take the next root, store it, crawl it, hand
//! the crawl to the run, and do the work it answers with.

use crate::index::refresh::{plan_changes, plan_refresh, removals, walk, ExistingEntries, Table};
use crate::index::rows::{crawled_views, CrawledEntry, CrawledView};
use crate::index::work::{lemma_plan_in_range, RootWork, WorkView};
use crate::model::{root_views, texts, RootView, SearchConfig, SearchRoot};
use vstd::prelude::*;

verus! {

/// The time as the index keeps it, from the seconds since 1970 that a clock
/// shows: zero where the clock shows an earlier time, or one that 63 bits do
/// not hold.
pub fn unix_seconds(elapsed: Option<u64>) -> (r: i64)
    ensures
        r == match elapsed {
            Some(n) => if n <= i64::MAX {
                n as i64
            } else {
                0
            },
            None => 0,
        },
{
    match elapsed {
        Some(n) => if n <= i64::MAX as u64 {
            n as i64
        } else {
            0
        },
        None => 0,
    }
}

/// The enabled ones among roots.
pub open spec fn enabled(roots: Seq<RootView>) -> Seq<RootView> {
    roots.filter(|r: RootView| r.enabled)
}

/// The enabled roots of a configuration.
pub fn enabled_roots(config: &SearchConfig) -> (r: Vec<SearchRoot>)
    ensures
        root_views(r@) == enabled(config@),
{
    let mut out: Vec<SearchRoot> = Vec::new();
    let ghost keep = |r: RootView| r.enabled;
    let mut i: usize = 0;
    assert(config@.take(0) =~= Seq::empty());
    assert(root_views(out@) =~= config@.take(0).filter(keep)) by {
        reveal(Seq::filter);
    }
    while i < config.roots.len()
        invariant
            i <= config.roots.len(),
            keep == (|r: RootView| r.enabled),
            root_views(out@) == config@.take(i as int).filter(keep),
        decreases config.roots.len() - i,
    {
        let ghost before = out@;
        proof {
            reveal(Seq::filter);
            assert(config@.take(i + 1).drop_last() =~= config@.take(i as int));
            assert(config@.take(i + 1).last() == config.roots@[i as int]@);
        }
        if config.roots[i].enabled {
            let copy = config.roots[i].clone();
            let ghost view = copy@;
            out.push(copy);
            assert(root_views(out@) =~= root_views(before).push(view));
        }
        i += 1;
    }
    assert(config@.take(i as int) =~= config@);
    out
}

/// What a rebuild did.
#[derive(Debug, PartialEq, Eq)]
pub struct IndexRebuildStats {
    pub roots: usize,
    pub entries: usize,
    pub skipped: usize,
    pub errors: Vec<String>,
}

/// What a rebuild did.
pub type RebuildStats = IndexRebuildStats;

/// How far a rebuild has come.
#[verifier::ext_equal]
pub struct RebuildView {
    pub roots: Seq<RootView>,
    pub done: nat,
    pub entries: nat,
    pub skipped: nat,
    pub errors: Seq<Seq<char>>,
}

impl RebuildView {
    /// A rebuild of the enabled roots that has not begun.
    pub open spec fn start(config: Seq<RootView>) -> RebuildView {
        RebuildView {
            roots: enabled(config),
            done: 0,
            entries: 0,
            skipped: 0,
            errors: Seq::empty(),
        }
    }

    /// What to do after a crawl: where it met errors, what is stored stays and
    /// the root is dirty; else the entries replace what is stored.
    pub open spec fn work(
        root_id: i64,
        now: i64,
        entries: Seq<CrawledView>,
        errors: Seq<Seq<char>>,
    ) -> WorkView {
        if errors.len() > 0 {
            WorkView::failed(root_id, now)
        } else {
            WorkView::replace(root_id, now, entries)
        }
    }

    /// The run after a crawl of its next root: the entries count only if the
    /// crawl met no errors, what it skipped and its errors always.
    pub open spec fn after(self, found: nat, skipped: nat, errors: Seq<Seq<char>>) -> RebuildView {
        RebuildView {
            roots: self.roots,
            done: self.done + 1,
            entries: if errors.len() > 0 {
                self.entries
            } else {
                self.entries + found
            },
            skipped: self.skipped + skipped,
            errors: self.errors + errors,
        }
    }
}

/// A rebuild of the index.
#[derive(Debug)]
pub struct RebuildRun {
    roots: Vec<SearchRoot>,
    done: usize,
    entries: usize,
    skipped: usize,
    errors: Vec<String>,
}

impl View for RebuildRun {
    type V = RebuildView;

    closed spec fn view(&self) -> RebuildView {
        RebuildView {
            roots: root_views(self.roots@),
            done: self.done as nat,
            entries: self.entries as nat,
            skipped: self.skipped as nat,
            errors: texts(self.errors@),
        }
    }
}

fn append_texts(all: &mut Vec<String>, more: Vec<String>)
    ensures
        texts(final(all)@) == texts(old(all)@) + texts(more@),
{
    let mut rest = more;
    all.append(&mut rest);
    assert(texts(all@) =~= texts(old(all)@) + texts(more@));
}

impl RebuildRun {
    /// A rebuild of the enabled roots.
    pub fn start(config: &SearchConfig) -> (r: Self)
        ensures
            r@ == RebuildView::start(config@),
    {
        let r = RebuildRun {
            roots: enabled_roots(config),
            done: 0,
            entries: 0,
            skipped: 0,
            errors: Vec::new(),
        };
        assert(texts(r.errors@) =~= Seq::empty());
        r
    }

    /// The root to store and crawl next; none where all are done.
    pub fn next_root(&self) -> (r: Option<&SearchRoot>)
        ensures
            match r {
                Some(root) => self@.done < self@.roots.len() && root@
                    == self@.roots[self@.done as int],
                None => self@.done >= self@.roots.len(),
            },
    {
        assert(self@.roots.len() == self.roots.len());
        if self.done < self.roots.len() {
            Some(&self.roots[self.done])
        } else {
            None
        }
    }

    /// Whether the totals can take a crawl of this size.
    pub fn has_room(&self, found: usize, skipped: usize) -> (r: bool)
        ensures
            r == (self@.entries + found <= usize::MAX && self@.skipped + skipped <= usize::MAX),
    {
        found <= usize::MAX - self.entries && skipped <= usize::MAX - self.skipped
    }

    /// Takes the crawl of the next root, which is stored under this id, and
    /// says what to do with its entries.
    pub fn on_crawl(
        &mut self,
        root_id: i64,
        now: i64,
        entries: Vec<CrawledEntry>,
        skipped: usize,
        errors: Vec<String>,
    ) -> (r: RootWork)
        requires
            old(self)@.done < old(self)@.roots.len(),
            old(self)@.entries + entries@.len() <= usize::MAX,
            old(self)@.skipped + skipped <= usize::MAX,
        ensures
            r@.wf(),
            r@ == RebuildView::work(root_id, now, crawled_views(entries@), texts(errors@)),
            final(self)@ == old(self)@.after(entries@.len(), skipped as nat, texts(errors@)),
    {
        assert(self@.roots.len() == self.roots.len());
        assert(texts(errors@).len() == errors@.len());
        let failed: bool = errors.len() > 0;
        self.skipped = self.skipped + skipped;
        append_texts(&mut self.errors, errors);
        self.done = self.done + 1;
        if failed {
            RootWork::failed(root_id, now)
        } else {
            self.entries = self.entries + entries.len();
            RootWork::replace(root_id, now, entries)
        }
    }

    /// What the rebuild did.
    pub fn finish(self) -> (r: RebuildStats)
        ensures
            r.roots == self@.roots.len(),
            r.entries == self@.entries,
            r.skipped == self@.skipped,
            texts(r.errors@) == self@.errors,
    {
        assert(self@.roots.len() == self.roots.len());
        RebuildStats {
            roots: self.roots.len(),
            entries: self.entries,
            skipped: self.skipped,
            errors: self.errors,
        }
    }
}

/// What a refresh did.
#[derive(Debug, PartialEq, Eq)]
pub struct IndexRefreshStats {
    pub roots: usize,
    pub inserted: usize,
    pub updated: usize,
    pub deleted: usize,
    pub unchanged: usize,
    pub skipped: usize,
    pub errors: Vec<String>,
}

/// What a refresh did.
pub type RefreshStats = IndexRefreshStats;

/// How far a refresh has come.
#[verifier::ext_equal]
pub struct RefreshView {
    pub roots: Seq<RootView>,
    pub done: nat,
    pub inserted: nat,
    pub updated: nat,
    pub deleted: nat,
    pub unchanged: nat,
    pub skipped: nat,
    pub errors: Seq<Seq<char>>,
}

impl RefreshView {
    /// A refresh of the enabled roots that has not begun.
    pub open spec fn start(config: Seq<RootView>) -> RefreshView {
        RefreshView {
            roots: enabled(config),
            done: 0,
            inserted: 0,
            updated: 0,
            deleted: 0,
            unchanged: 0,
            skipped: 0,
            errors: Seq::empty(),
        }
    }

    /// What to do after a crawl: where it met errors, what is stored stays and
    /// the root is dirty; else what differs is changed.
    pub open spec fn work(
        root_id: i64,
        now: i64,
        keys: Seq<Seq<char>>,
        stored: Table,
        crawled: Seq<CrawledView>,
        errors: Seq<Seq<char>>,
    ) -> WorkView {
        if errors.len() > 0 {
            WorkView::failed(root_id, now)
        } else {
            WorkView::apply(root_id, now, crawled, plan_changes(keys, stored, crawled))
        }
    }

    /// Whether the totals can take a crawl of `found` entries over `stored`
    /// ones.
    pub open spec fn has_room(self, found: nat, stored: nat, skipped: nat) -> bool {
        &&& self.inserted + found <= usize::MAX
        &&& self.updated + found <= usize::MAX
        &&& self.unchanged + found <= usize::MAX
        &&& self.deleted + stored <= usize::MAX
        &&& self.skipped + skipped <= usize::MAX
    }

    /// The run after a crawl of its next root: what the crawl changed counts
    /// only if it met no errors, what it skipped and its errors always.
    pub open spec fn after(
        self,
        keys: Seq<Seq<char>>,
        stored: Table,
        crawled: Seq<CrawledView>,
        skipped: nat,
        errors: Seq<Seq<char>>,
    ) -> RefreshView {
        let w = walk(stored, crawled, crawled.len());
        let noted = RefreshView {
            done: self.done + 1,
            skipped: self.skipped + skipped,
            errors: self.errors + errors,
            ..self
        };
        if errors.len() > 0 {
            noted
        } else {
            RefreshView {
                inserted: self.inserted + w.inserted,
                updated: self.updated + w.updated,
                deleted: self.deleted + removals(keys, w.remaining, keys.len()).len(),
                unchanged: self.unchanged + w.unchanged,
                ..noted
            }
        }
    }
}

/// A refresh of the index.
#[derive(Debug)]
pub struct RefreshRun {
    roots: Vec<SearchRoot>,
    done: usize,
    inserted: usize,
    updated: usize,
    deleted: usize,
    unchanged: usize,
    skipped: usize,
    errors: Vec<String>,
}

impl View for RefreshRun {
    type V = RefreshView;

    closed spec fn view(&self) -> RefreshView {
        RefreshView {
            roots: root_views(self.roots@),
            done: self.done as nat,
            inserted: self.inserted as nat,
            updated: self.updated as nat,
            deleted: self.deleted as nat,
            unchanged: self.unchanged as nat,
            skipped: self.skipped as nat,
            errors: texts(self.errors@),
        }
    }
}

proof fn lemma_walk_sizes(t: Table, crawled: Seq<CrawledView>, n: nat)
    ensures
        walk(t, crawled, n).inserted <= n,
        walk(t, crawled, n).updated <= n,
        walk(t, crawled, n).unchanged <= n,
    decreases n,
{
    if n > 0 {
        lemma_walk_sizes(t, crawled, (n - 1) as nat);
    }
}

proof fn lemma_removals_size(keys: Seq<Seq<char>>, t: Table, n: nat)
    ensures
        removals(keys, t, n).len() <= n,
    decreases n,
{
    if n > 0 {
        lemma_removals_size(keys, t, (n - 1) as nat);
    }
}

impl RefreshRun {
    /// A refresh of the enabled roots.
    pub fn start(config: &SearchConfig) -> (r: Self)
        ensures
            r@ == RefreshView::start(config@),
    {
        let r = RefreshRun {
            roots: enabled_roots(config),
            done: 0,
            inserted: 0,
            updated: 0,
            deleted: 0,
            unchanged: 0,
            skipped: 0,
            errors: Vec::new(),
        };
        assert(texts(r.errors@) =~= Seq::empty());
        r
    }

    /// The root to store, read and crawl next; none where all are done.
    pub fn next_root(&self) -> (r: Option<&SearchRoot>)
        ensures
            match r {
                Some(root) => self@.done < self@.roots.len() && root@
                    == self@.roots[self@.done as int],
                None => self@.done >= self@.roots.len(),
            },
    {
        assert(self@.roots.len() == self.roots.len());
        if self.done < self.roots.len() {
            Some(&self.roots[self.done])
        } else {
            None
        }
    }

    /// Whether the totals can take a crawl of this size over this many stored
    /// entries.
    pub fn has_room(&self, found: usize, stored: usize, skipped: usize) -> (r: bool)
        ensures
            r == self@.has_room(found as nat, stored as nat, skipped as nat),
    {
        found <= usize::MAX - self.inserted && found <= usize::MAX - self.updated && found
            <= usize::MAX - self.unchanged && stored <= usize::MAX - self.deleted && skipped
            <= usize::MAX - self.skipped
    }

    /// Takes what is stored of the next root, under this id, and its crawl, and
    /// says what to change.
    pub fn on_crawl(
        &mut self,
        root_id: i64,
        now: i64,
        existing: ExistingEntries,
        crawled: Vec<CrawledEntry>,
        skipped: usize,
        errors: Vec<String>,
    ) -> (r: RootWork)
        requires
            existing.wf(),
            old(self)@.done < old(self)@.roots.len(),
            old(self)@.has_room(crawled@.len(), existing.order().len(), skipped as nat),
        ensures
            r@.wf(),
            r@ == RefreshView::work(
                root_id,
                now,
                existing.order(),
                existing@,
                crawled_views(crawled@),
                texts(errors@),
            ),
            final(self)@ == old(self)@.after(
                existing.order(),
                existing@,
                crawled_views(crawled@),
                skipped as nat,
                texts(errors@),
            ),
    {
        assert(self@.roots.len() == self.roots.len());
        assert(texts(errors@).len() == errors@.len());
        let failed: bool = errors.len() > 0;
        self.skipped = self.skipped + skipped;
        append_texts(&mut self.errors, errors);
        self.done = self.done + 1;
        if failed {
            RootWork::failed(root_id, now)
        } else {
            proof {
                let views = crawled_views(crawled@);
                let keys = existing.order();
                let w = walk(existing@, views, views.len());
                assert(views.len() == crawled.len());
                lemma_walk_sizes(existing@, views, views.len());
                lemma_removals_size(keys, w.remaining, keys.len());
                lemma_plan_in_range(keys, existing@, views);
            }
            let plan = plan_refresh(existing, &crawled);
            self.inserted = self.inserted + plan.inserted;
            self.updated = self.updated + plan.updated;
            self.deleted = self.deleted + plan.deleted;
            self.unchanged = self.unchanged + plan.unchanged;
            RootWork::apply(root_id, now, crawled, plan.changes)
        }
    }

    /// What the refresh did.
    pub fn finish(self) -> (r: RefreshStats)
        ensures
            r.roots == self@.roots.len(),
            r.inserted == self@.inserted,
            r.updated == self@.updated,
            r.deleted == self@.deleted,
            r.unchanged == self@.unchanged,
            r.skipped == self@.skipped,
            texts(r.errors@) == self@.errors,
    {
        assert(self@.roots.len() == self.roots.len());
        RefreshStats {
            roots: self.roots.len(),
            inserted: self.inserted,
            updated: self.updated,
            deleted: self.deleted,
            unchanged: self.unchanged,
            skipped: self.skipped,
            errors: self.errors,
        }
    }
}

} // verus!
