//! The state of a root: what each recording does to it, and what is reported.
//!
//! The table of states is modelled as a map from the ids of roots. A recording
//! is one statement, and its effect is the one written here.

use crate::index::changes::the_count_is_that_of_the_crawl;
use crate::index::refresh::{distinct_keys, EntryChange};
use crate::index::repair::{cleaned, configured, dirty_paths, lemma_dirty_paths};
use crate::index::roots::{status_of, StatusColumns, StatusView};
use crate::index::rows::CrawledView;
use crate::index::store::Store;
use crate::index::work::{ScanRecord, WorkView};
use crate::model::RootView;
use crate::path::components;
use vstd::prelude::*;

verus! {

/// The state of a root as it is stored.
pub struct RootState {
    pub generation: int,
    pub last_full_scan_at: Option<i64>,
    pub last_incremental_at: Option<i64>,
    pub dirty: bool,
    pub entry_count: i64,
}

/// The states of roots, by the ids of the roots; one that was never recorded has
/// none.
pub type States = Map<i64, RootState>;

/// The state of a root, where it has one.
pub open spec fn state_of(states: States, root_id: i64) -> Option<RootState> {
    if states.contains_key(root_id) {
        Some(states[root_id])
    } else {
        None
    }
}

/// The generation of a root: zero where it has no state.
pub open spec fn generation_of(state: Option<RootState>) -> int {
    match state {
        Some(s) => s.generation,
        None => 0,
    }
}

/// When a root was last scanned in full.
pub open spec fn full_scan_of(state: Option<RootState>) -> Option<i64> {
    match state {
        Some(s) => s.last_full_scan_at,
        None => None,
    }
}

/// When a root was last scanned incrementally.
pub open spec fn incremental_scan_of(state: Option<RootState>) -> Option<i64> {
    match state {
        Some(s) => s.last_incremental_at,
        None => None,
    }
}

/// What [`RECORD_FULL_SCAN`](crate::index::roots::RECORD_FULL_SCAN) stores: the
/// next generation, scanned in full now, clean, with this many entries. When the
/// root was last scanned incrementally stays.
pub open spec fn after_full_scan(state: Option<RootState>, now: i64, count: i64) -> RootState {
    RootState {
        generation: generation_of(state) + 1,
        last_full_scan_at: Some(now),
        last_incremental_at: incremental_scan_of(state),
        dirty: false,
        entry_count: count,
    }
}

/// What [`RECORD_INCREMENTAL_SCAN`](crate::index::roots::RECORD_INCREMENTAL_SCAN)
/// stores: the next generation, scanned incrementally now, clean, with this many
/// entries. When the root was last scanned in full stays.
pub open spec fn after_incremental_scan(
    state: Option<RootState>,
    now: i64,
    count: i64,
) -> RootState {
    RootState {
        generation: generation_of(state) + 1,
        last_full_scan_at: full_scan_of(state),
        last_incremental_at: Some(now),
        dirty: false,
        entry_count: count,
    }
}

/// What [`RECORD_FAILED_SCAN`](crate::index::roots::RECORD_FAILED_SCAN) stores:
/// the root is dirty, with this many entries. Its generation and its times stay.
pub open spec fn after_failed_scan(state: Option<RootState>, count: i64) -> RootState {
    RootState {
        generation: generation_of(state),
        last_full_scan_at: full_scan_of(state),
        last_incremental_at: incremental_scan_of(state),
        dirty: true,
        entry_count: count,
    }
}

/// What [`MARK_ROOT_DIRTY`](crate::index::roots::MARK_ROOT_DIRTY) stores: the
/// root is dirty, and all else stays. A root without a state gets one with this
/// many entries.
pub open spec fn after_marking(state: Option<RootState>, count: i64) -> RootState {
    match state {
        Some(s) => RootState { dirty: true, ..s },
        None => after_failed_scan(None, count),
    }
}

impl WorkView {
    /// The state of the root once the work has recorded the crawl, where this
    /// many entries are live.
    pub open spec fn recorded(self, state: Option<RootState>, count: i64) -> RootState {
        match self.record {
            ScanRecord::Full => after_full_scan(state, self.now, count),
            ScanRecord::Incremental => after_incremental_scan(state, self.now, count),
            ScanRecord::Failed => after_failed_scan(state, count),
        }
    }

    /// The states of all roots once the work has recorded the crawl.
    pub open spec fn states_after(self, states: States, count: i64) -> States {
        states.insert(self.root_id, self.recorded(state_of(states, self.root_id), count))
    }
}

/// Whether columns are what the database answers where the state of a root is
/// read; a root without a state reads as clean and empty, of generation zero.
pub open spec fn reads_state(row: StatusColumns, path: Seq<char>, state: Option<RootState>) -> bool {
    &&& row.path@ == path
    &&& row.generation == generation_of(state)
    &&& row.last_full_scan_at == full_scan_of(state)
    &&& row.last_incremental_at == incremental_scan_of(state)
    &&& row.dirty == match state {
        Some(s) => if s.dirty {
            1i64
        } else {
            0i64
        },
        None => 0i64,
    }
    &&& row.entry_count == match state {
        Some(s) => s.entry_count,
        None => 0i64,
    }
}

/// A rebuild leaves a root clean, in the next generation, with the time of the
/// full scan and the count of its entries; no other root's state changes.
pub proof fn a_rebuild_is_recorded(
    states: States,
    root_id: i64,
    now: i64,
    entries: Seq<CrawledView>,
    count: i64,
)
    ensures
        ({
            let before = state_of(states, root_id);
            let after = WorkView::replace(root_id, now, entries).states_after(states, count);
            &&& after.contains_key(root_id)
            &&& !after[root_id].dirty
            &&& after[root_id].generation == generation_of(before) + 1
            &&& after[root_id].last_full_scan_at == Some(now)
            &&& after[root_id].last_incremental_at == incremental_scan_of(before)
            &&& after[root_id].entry_count == count
            &&& forall|other: i64| #![trigger after.contains_key(other)]
                other != root_id ==> state_of(after, other) == state_of(states, other)
        }),
{
}

/// A refresh leaves a root clean, in the next generation, with the time of the
/// incremental scan and the count of its entries; no other root's state changes.
pub proof fn a_refresh_is_recorded(
    states: States,
    root_id: i64,
    now: i64,
    entries: Seq<CrawledView>,
    changes: Seq<EntryChange>,
    count: i64,
)
    ensures
        ({
            let before = state_of(states, root_id);
            let after = WorkView::apply(root_id, now, entries, changes).states_after(states, count);
            &&& after.contains_key(root_id)
            &&& !after[root_id].dirty
            &&& after[root_id].generation == generation_of(before) + 1
            &&& after[root_id].last_incremental_at == Some(now)
            &&& after[root_id].last_full_scan_at == full_scan_of(before)
            &&& after[root_id].entry_count == count
            &&& forall|other: i64| #![trigger after.contains_key(other)]
                other != root_id ==> state_of(after, other) == state_of(states, other)
        }),
{
}

/// A crawl with errors leaves a root dirty, in the generation and with the times
/// that it had; no other root's state changes.
pub proof fn a_failed_crawl_is_recorded(states: States, root_id: i64, now: i64, count: i64)
    ensures
        ({
            let before = state_of(states, root_id);
            let after = WorkView::failed(root_id, now).states_after(states, count);
            &&& after.contains_key(root_id)
            &&& after[root_id].dirty
            &&& after[root_id].generation == generation_of(before)
            &&& after[root_id].last_full_scan_at == full_scan_of(before)
            &&& after[root_id].last_incremental_at == incremental_scan_of(before)
            &&& after[root_id].entry_count == count
            &&& forall|other: i64| #![trigger after.contains_key(other)]
                other != root_id ==> state_of(after, other) == state_of(states, other)
        }),
{
}

/// Marking a root as dirty changes nothing else of its state.
pub proof fn marking_changes_nothing_else(state: RootState, count: i64)
    ensures
        after_marking(Some(state), count) == (RootState { dirty: true, ..state }),
        after_marking(Some(after_marking(Some(state), count)), count) == after_marking(
            Some(state),
            count,
        ),
{
}

/// A generation never falls, and grows exactly where a crawl met no errors, by
/// one.
pub proof fn generations_count_the_clean_crawls(
    work: WorkView,
    state: Option<RootState>,
    count: i64,
)
    ensures
        work.recorded(state, count).generation == generation_of(state) + if work.record
            == ScanRecord::Failed {
            0int
        } else {
            1int
        },
        after_marking(state, count).generation == generation_of(state),
        work.recorded(state, count).dirty == (work.record == ScanRecord::Failed),
{
}

/// Once a crawl without errors is recorded, the root's count of entries is that
/// of the crawl.
pub proof fn recorded_counts_are_those_of_the_crawl(
    store: Store,
    work: WorkView,
    state: Option<RootState>,
    crawled: Seq<CrawledView>,
    count: i64,
)
    requires
        store.wf(),
        distinct_keys(crawled),
        store.tracks(work.root_id, crawled),
        count >= 0,
        store.counts(work.root_id, count as nat),
    ensures
        work.recorded(state, count).entry_count == crawled.len(),
{
    the_count_is_that_of_the_crawl(store, work.root_id, crawled, count as nat);
}

/// What is reported of a root is its state.
pub proof fn status_reports_the_state(
    row: StatusColumns,
    path: Seq<char>,
    state: Option<RootState>,
)
    requires
        reads_state(row, path, state),
    ensures
        status_of(row).generation == generation_of(state),
        status_of(row).dirty == (state is Some && state->0.dirty),
        status_of(row).last_full_scan_at == full_scan_of(state),
        status_of(row).last_incremental_at == incremental_scan_of(state),
        state is None ==> status_of(row).entry_count == 0,
        state is Some && 0 <= state->0.entry_count <= usize::MAX ==> status_of(row).entry_count
            == state->0.entry_count,
{
}

/// A root that was marked as dirty is refreshed by the next repair if it is
/// configured, and counts as repaired once its crawl met no errors; while the
/// crawl meets errors it stays dirty and does not.
pub proof fn a_marked_root_is_repaired(
    status: Seq<StatusView>,
    roots: Seq<RootView>,
    i: int,
    row: StatusColumns,
    path: Seq<char>,
    state: Option<RootState>,
    count: i64,
    work: WorkView,
    later: Seq<StatusView>,
    j: int,
    row_later: StatusColumns,
    count_later: i64,
)
    requires
        0 <= i < status.len(),
        status[i] == status_of(row),
        reads_state(row, path, Some(after_marking(state, count))),
        configured(roots, status[i].path),
        0 <= j < later.len(),
        later[j] == status_of(row_later),
        reads_state(
            row_later,
            path,
            Some(work.recorded(Some(after_marking(state, count)), count_later)),
        ),
    ensures
        dirty_paths(status, roots).contains(components(status[i].path)),
        later[j].path == status[i].path,
        cleaned(later, dirty_paths(status, roots)).contains(later[j]) <==> work.record
            != ScanRecord::Failed,
{
    lemma_dirty_paths(status, roots, components(status[i].path));
    assert(status[i].dirty);
    let dirty = dirty_paths(status, roots);
    let keep = |s: StatusView| dirty.contains(components(s.path)) && !s.dirty;
    if work.record != ScanRecord::Failed {
        assert(keep(later[j]));
        later.lemma_filter_contains(keep, j);
    } else if cleaned(later, dirty).contains(later[j]) {
        let kept = cleaned(later, dirty);
        let k = choose|k: int| 0 <= k < kept.len() && kept[k] == later[j];
        later.lemma_filter_pred(keep, k);
    }
}

} // verus!
