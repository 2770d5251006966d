//! Repairing the index: refreshing the roots that are dirty, and only those.

use crate::index::roots::{status_views, IndexRootStatus, StatusView};
use crate::index::run::{enabled, enabled_roots};
use crate::model::{root_views, texts, RootView, SearchConfig, SearchRoot};
use crate::path::{components, FilePath};
use vstd::prelude::*;

verus! {

/// What a repair did.
#[derive(Debug, PartialEq, Eq)]
pub struct IndexRepairStats {
    pub roots: usize,
    pub dirty_roots: usize,
    pub repaired_roots: usize,
    pub errors: Vec<String>,
}

/// What a repair did.
pub type RepairStats = IndexRepairStats;

/// Whether a path is that of one of the roots; paths are the same where their
/// components are.
pub open spec fn configured(roots: Seq<RootView>, path: Seq<u8>) -> bool {
    exists|i: int| 0 <= i < roots.len() && components((#[trigger] roots[i]).path) == components(path)
}

/// The paths of roots that are dirty and configured, each once, by their
/// components.
pub open spec fn dirty_paths(status: Seq<StatusView>, roots: Seq<RootView>) -> Seq<Seq<Seq<u8>>>
    decreases status.len(),
{
    if status.len() == 0 {
        Seq::empty()
    } else {
        let found = dirty_paths(status.drop_last(), roots);
        let last = status.last();
        if last.dirty && configured(roots, last.path) && !found.contains(components(last.path)) {
            found.push(components(last.path))
        } else {
            found
        }
    }
}

/// The roots that a repair refreshes.
pub open spec fn repaired_roots(roots: Seq<RootView>, dirty: Seq<Seq<Seq<u8>>>) -> Seq<RootView> {
    roots.filter(|r: RootView| dirty.contains(components(r.path)))
}

/// The roots that a repair has cleaned.
pub open spec fn cleaned(status: Seq<StatusView>, dirty: Seq<Seq<Seq<u8>>>) -> Seq<StatusView> {
    status.filter(|s: StatusView| dirty.contains(components(s.path)) && !s.dirty)
}

/// The components of a list of paths.
pub open spec fn path_components(paths: Seq<FilePath>) -> Seq<Seq<Seq<u8>>> {
    paths.map_values(|p: FilePath| components(p@))
}

/// A repair that has begun: the dirty paths, and how many roots are enabled.
#[derive(Debug)]
pub struct Repair {
    roots: usize,
    dirty: Vec<FilePath>,
}

impl Repair {
    /// How many roots are enabled.
    pub closed spec fn enabled_count(self) -> nat {
        self.roots as nat
    }

    /// The dirty paths, by their components.
    pub closed spec fn dirty_list(self) -> Seq<Seq<Seq<u8>>> {
        path_components(self.dirty@)
    }
}

/// What a repair does first.
#[derive(Debug)]
pub enum RepairStep {
    /// No configured root is dirty: nothing is refreshed.
    Done(RepairStats),
    /// Refresh these roots, then read their state again.
    Refresh(SearchConfig, Repair),
}

fn holds_path(paths: &Vec<FilePath>, path: &FilePath) -> (r: bool)
    ensures
        r == path_components(paths@).contains(components(path@)),
{
    let ghost all = path_components(paths@);
    let mut i: usize = 0;
    while i < paths.len()
        invariant
            i <= paths.len(),
            all == path_components(paths@),
            forall|k: int| 0 <= k < i ==> #[trigger] all[k] != components(path@),
        decreases paths.len() - i,
    {
        if paths[i].same_path(path) {
            assert(all[i as int] == components(path@));
            return true;
        }
        i += 1;
    }
    false
}

fn is_configured(roots: &Vec<SearchRoot>, path: &FilePath) -> (r: bool)
    ensures
        r == configured(root_views(roots@), path@),
{
    let ghost all = root_views(roots@);
    let mut i: usize = 0;
    while i < roots.len()
        invariant
            i <= roots.len(),
            all == root_views(roots@),
            forall|k: int| 0 <= k < i ==> components((#[trigger] all[k]).path) != components(path@),
        decreases roots.len() - i,
    {
        if roots[i].path.same_path(path) {
            assert(components(all[i as int].path) == components(path@));
            return true;
        }
        i += 1;
    }
    false
}

fn find_dirty(status: &Vec<IndexRootStatus>, roots: &Vec<SearchRoot>) -> (r: Vec<FilePath>)
    ensures
        path_components(r@) == dirty_paths(status_views(status@), root_views(roots@)),
{
    let ghost views = status_views(status@);
    let ghost all = root_views(roots@);
    let mut out: Vec<FilePath> = Vec::new();
    assert(path_components(out@) =~= dirty_paths(views.take(0), all));
    let mut i: usize = 0;
    while i < status.len()
        invariant
            i <= status.len(),
            views == status_views(status@),
            all == root_views(roots@),
            path_components(out@) == dirty_paths(views.take(i as int), all),
        decreases status.len() - i,
    {
        proof {
            assert(views.take(i + 1).drop_last() =~= views.take(i as int));
            assert(views.take(i + 1).last() == status@[i as int]@);
        }
        let one = &status[i];
        if one.dirty && is_configured(roots, &one.path) && !holds_path(&out, &one.path) {
            let copy = one.path.clone();
            let ghost view = components(copy@);
            let ghost before = out@;
            out.push(copy);
            assert(path_components(out@) =~= path_components(before).push(view));
        }
        i += 1;
    }
    assert(views.take(i as int) =~= views);
    out
}

fn keep_dirty(roots: &Vec<SearchRoot>, dirty: &Vec<FilePath>) -> (r: Vec<SearchRoot>)
    ensures
        root_views(r@) == repaired_roots(root_views(roots@), path_components(dirty@)),
{
    let ghost all = root_views(roots@);
    let ghost set = path_components(dirty@);
    let ghost keep = |r: RootView| set.contains(components(r.path));
    let mut out: Vec<SearchRoot> = Vec::new();
    assert(root_views(out@) =~= all.take(0).filter(keep)) by {
        reveal(Seq::filter);
    }
    let mut i: usize = 0;
    while i < roots.len()
        invariant
            i <= roots.len(),
            all == root_views(roots@),
            set == path_components(dirty@),
            keep == (|r: RootView| set.contains(components(r.path))),
            root_views(out@) == all.take(i as int).filter(keep),
        decreases roots.len() - i,
    {
        proof {
            reveal(Seq::filter);
            assert(all.take(i + 1).drop_last() =~= all.take(i as int));
            assert(all.take(i + 1).last() == roots@[i as int]@);
        }
        if holds_path(dirty, &roots[i].path) {
            let copy = roots[i].clone();
            let ghost view = copy@;
            let ghost before = out@;
            out.push(copy);
            assert(root_views(out@) =~= root_views(before).push(view));
        }
        i += 1;
    }
    assert(all.take(i as int) =~= all);
    out
}

/// Begins a repair: picks the enabled roots that are reported as dirty.
pub fn start_repair(config: &SearchConfig, status: &Vec<IndexRootStatus>) -> (r: RepairStep)
    ensures
        ({
            let roots = enabled(config@);
            let dirty = dirty_paths(status_views(status@), roots);
            match r {
                RepairStep::Done(stats) => {
                    &&& dirty.len() == 0
                    &&& stats.roots == roots.len()
                    &&& stats.dirty_roots == 0
                    &&& stats.repaired_roots == 0
                    &&& texts(stats.errors@) == Seq::<Seq<char>>::empty()
                },
                RepairStep::Refresh(chosen, repair) => {
                    &&& dirty.len() > 0
                    &&& chosen@ == repaired_roots(roots, dirty)
                    &&& repair.enabled_count() == roots.len()
                    &&& repair.dirty_list() == dirty
                },
            }
        }),
{
    let roots = enabled_roots(config);
    let dirty = find_dirty(status, &roots);
    assert(root_views(roots@).len() == roots.len());
    assert(path_components(dirty@).len() == dirty.len());
    if dirty.len() == 0 {
        let errors: Vec<String> = Vec::new();
        assert(texts(errors@) =~= Seq::empty());
        return RepairStep::Done(
            IndexRepairStats { roots: roots.len(), dirty_roots: 0, repaired_roots: 0, errors },
        );
    }
    let chosen = SearchConfig { roots: keep_dirty(&roots, &dirty) };
    RepairStep::Refresh(chosen, Repair { roots: roots.len(), dirty })
}

impl Repair {
    /// Ends a repair, from the state after the refresh and the errors that the
    /// refresh met.
    pub fn finish(self, status: &Vec<IndexRootStatus>, errors: Vec<String>) -> (r: RepairStats)
        ensures
            r.roots == self.enabled_count(),
            r.dirty_roots == self.dirty_list().len(),
            r.repaired_roots == cleaned(status_views(status@), self.dirty_list()).len(),
            texts(r.errors@) == texts(errors@),
    {
        let ghost views = status_views(status@);
        let ghost set = self.dirty_list();
        let ghost keep = |s: StatusView| set.contains(components(s.path)) && !s.dirty;
        assert(set.len() == self.dirty.len());
        let mut count: usize = 0;
        assert(count == views.take(0).filter(keep).len()) by {
            reveal(Seq::filter);
        }
        let mut i: usize = 0;
        while i < status.len()
            invariant
                count <= i <= status.len(),
                views == status_views(status@),
                set == path_components(self.dirty@),
                keep == (|s: StatusView| set.contains(components(s.path)) && !s.dirty),
                count == views.take(i as int).filter(keep).len(),
            decreases status.len() - i,
        {
            proof {
                reveal(Seq::filter);
                assert(views.take(i + 1).drop_last() =~= views.take(i as int));
                assert(views.take(i + 1).last() == status@[i as int]@);
            }
            let one = &status[i];
            if holds_path(&self.dirty, &one.path) && !one.dirty {
                count += 1;
            }
            i += 1;
        }
        assert(views.take(i as int) =~= views);
        IndexRepairStats {
            roots: self.roots,
            dirty_roots: self.dirty.len(),
            repaired_roots: count,
            errors,
        }
    }
}

/// The dirty paths are those that are reported as dirty and configured.
pub proof fn lemma_dirty_paths(status: Seq<StatusView>, roots: Seq<RootView>, path: Seq<Seq<u8>>)
    ensures
        dirty_paths(status, roots).contains(path) <==> exists|i: int|
            0 <= i < status.len() && (#[trigger] status[i]).dirty && configured(
                roots,
                status[i].path,
            ) && components(status[i].path) == path,
    decreases status.len(),
{
    if status.len() > 0 {
        let front = status.drop_last();
        let found = dirty_paths(front, roots);
        let all = dirty_paths(status, roots);
        lemma_dirty_paths(front, roots, path);
        if found.contains(path) {
            let i = choose|i: int|
                0 <= i < front.len() && (#[trigger] front[i]).dirty && configured(
                    roots,
                    front[i].path,
                ) && components(front[i].path) == path;
            assert(status[i] == front[i]);
            let k = choose|k: int| 0 <= k < found.len() && found[k] == path;
            assert(all[k] == path);
        }
        if all.contains(path) && !found.contains(path) {
            let k = choose|k: int| 0 <= k < all.len() && all[k] == path;
            if k < found.len() {
                assert(found[k] == path);
            }
            assert(status[status.len() - 1].dirty);
        }
        if exists|i: int|
            0 <= i < status.len() && (#[trigger] status[i]).dirty && configured(
                roots,
                status[i].path,
            ) && components(status[i].path) == path {
            let i = choose|i: int|
                0 <= i < status.len() && (#[trigger] status[i]).dirty && configured(
                    roots,
                    status[i].path,
                ) && components(status[i].path) == path;
            if i < front.len() {
                assert(front[i] == status[i]);
            } else if !found.contains(path) {
                assert(all[found.len() as int] == path);
            }
        }
    }
}

/// A repair refreshes a root exactly where it is configured and some root of
/// the same path is reported as dirty.
pub proof fn repair_refreshes_exactly_the_dirty_roots(
    status: Seq<StatusView>,
    roots: Seq<RootView>,
    root: RootView,
)
    ensures
        repaired_roots(roots, dirty_paths(status, roots)).contains(root) <==> roots.contains(root)
            && exists|i: int|
            0 <= i < status.len() && (#[trigger] status[i]).dirty && components(status[i].path)
                == components(root.path),
{
    let dirty = dirty_paths(status, roots);
    let keep = |r: RootView| dirty.contains(components(r.path));
    lemma_dirty_paths(status, roots, components(root.path));
    let chosen = repaired_roots(roots, dirty);
    if chosen.contains(root) {
        roots.lemma_filter_contains_rev(keep, root);
        let k = choose|k: int| 0 <= k < chosen.len() && chosen[k] == root;
        roots.lemma_filter_pred(keep, k);
    }
    if roots.contains(root) && (exists|i: int|
        0 <= i < status.len() && (#[trigger] status[i]).dirty && components(status[i].path)
            == components(root.path)) {
        let i = choose|i: int|
            0 <= i < status.len() && (#[trigger] status[i]).dirty && components(status[i].path)
                == components(root.path);
        let k = choose|k: int| 0 <= k < roots.len() && roots[k] == root;
        assert(components(roots[k].path) == components(status[i].path));
        assert(configured(roots, status[i].path));
        assert(keep(roots[k]));
        roots.lemma_filter_contains(keep, k);
    }
}

/// The dirty paths are listed once each.
pub proof fn dirty_paths_are_listed_once(status: Seq<StatusView>, roots: Seq<RootView>)
    ensures
        dirty_paths(status, roots).no_duplicates(),
    decreases status.len(),
{
    if status.len() > 0 {
        dirty_paths_are_listed_once(status.drop_last(), roots);
        let found = dirty_paths(status.drop_last(), roots);
        let path = components(status.last().path);
        if !found.contains(path) {
            let all = found.push(path);
            assert forall|i: int, j: int| 0 <= i < all.len() && 0 <= j < all.len() && i != j implies all[i]
                != all[j] by {
                if i < found.len() && j < found.len() {
                    assert(found[i] != found[j]);
                } else if i < found.len() {
                    assert(found.contains(found[i]));
                } else {
                    assert(found.contains(found[j]));
                }
            }
        }
    }
}

/// The roots that a repair refreshes are taken one by one, in their order: those
/// whose path is dirty.
pub proof fn repaired_roots_keep_their_order(
    roots: Seq<RootView>,
    root: RootView,
    dirty: Seq<Seq<Seq<u8>>>,
)
    ensures
        repaired_roots(Seq::empty(), dirty) == Seq::<RootView>::empty(),
        repaired_roots(roots.push(root), dirty) == if dirty.contains(components(root.path)) {
            repaired_roots(roots, dirty).push(root)
        } else {
            repaired_roots(roots, dirty)
        },
{
    reveal(Seq::filter);
    assert(roots.push(root).drop_last() =~= roots);
}

/// A root counts as repaired exactly where its path was dirty and it is reported
/// as clean.
pub proof fn clean_roots_count_as_repaired(
    status: Seq<StatusView>,
    one: StatusView,
    dirty: Seq<Seq<Seq<u8>>>,
)
    ensures
        cleaned(Seq::empty(), dirty).len() == 0,
        cleaned(status.push(one), dirty).len() == cleaned(status, dirty).len() + if dirty.contains(
            components(one.path),
        ) && !one.dirty {
            1nat
        } else {
            0nat
        },
{
    reveal(Seq::filter);
    assert(status.push(one).drop_last() =~= status);
}

} // verus!
