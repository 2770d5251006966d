//! What a crawl changes in the index: which entries are new, which differ from
//! what is stored, and which are gone.

use crate::index::rows::{crawled_views, entry_changed, existing_entry, row_entry, stored_as, CrawledEntry, CrawledView, EntryRow, ExistingEntry};
use crate::model::texts;
use vstd::hash_map::StringHashMap;
use vstd::prelude::*;

verus! {

/// What is stored of entries, by the text of their path.
pub type Table = Map<Seq<char>, ExistingEntry>;

/// The entries of the first `n` rows; a later row of a path replaces an
/// earlier one.
pub open spec fn rows_table(rows: Seq<EntryRow>, n: nat) -> Table
    decreases n,
{
    if n == 0 {
        Map::empty()
    } else {
        rows_table(rows, (n - 1) as nat).insert(rows[n - 1].path@, row_entry(rows[n - 1]))
    }
}

/// The paths of the first `n` rows, each once, in the order they are met.
pub open spec fn rows_keys(rows: Seq<EntryRow>, n: nat) -> Seq<Seq<char>>
    decreases n,
{
    if n == 0 {
        Seq::empty()
    } else {
        let before = rows_keys(rows, (n - 1) as nat);
        if before.contains(rows[n - 1].path@) {
            before
        } else {
            before.push(rows[n - 1].path@)
        }
    }
}

/// What is stored of the entries of a root.
pub struct ExistingEntries {
    keys: Vec<String>,
    entries: StringHashMap<ExistingEntry>,
}

impl View for ExistingEntries {
    type V = Table;

    closed spec fn view(&self) -> Table {
        self.entries@
    }
}

impl ExistingEntries {
    /// The paths of the entries, in the order they were read.
    pub closed spec fn order(&self) -> Seq<Seq<char>> {
        texts(self.keys@)
    }

    /// Whether the order lists each path once.
    pub open spec fn wf(&self) -> bool {
        lists(self.order(), self@)
    }

    /// The entries of the rows that were read.
    pub fn from_rows(rows: &Vec<EntryRow>) -> (r: Self)
        ensures
            r.wf(),
            r@ == rows_table(rows@, rows@.len()),
            r.order() == rows_keys(rows@, rows@.len()),
    {
        let mut keys: Vec<String> = Vec::new();
        let mut entries: StringHashMap<ExistingEntry> = StringHashMap::new();
        let mut i: usize = 0;
        assert(texts(keys@) =~= rows_keys(rows@, 0));
        while i < rows.len()
            invariant
                i <= rows.len(),
                entries@ == rows_table(rows@, i as nat),
                texts(keys@) == rows_keys(rows@, i as nat),
                lists(texts(keys@), entries@),
            decreases rows.len() - i,
        {
            let row = &rows[i];
            let ghost before = keys@;
            let ghost table = entries@;
            if !entries.contains_key(row.path.as_str()) {
                keys.push(row.path.clone());
                assert(texts(keys@) =~= texts(before).push(row.path@));
                proof {
                    lemma_lists_push(texts(before), table, row.path@, row_entry(*row));
                }
            } else {
                assert(texts(before).contains(row.path@));
                proof {
                    lemma_lists_replace(texts(before), table, row.path@, row_entry(*row));
                }
            }
            entries.insert(row.path.clone(), existing_entry(row));
            i += 1;
        }
        ExistingEntries { keys, entries }
    }
}

/// Whether `keys` lists the paths of a table, each once.
pub open spec fn lists(keys: Seq<Seq<char>>, table: Table) -> bool {
    &&& keys.no_duplicates()
    &&& forall|k: Seq<char>| table.contains_key(k) <==> #[trigger] keys.contains(k)
}

proof fn lemma_lists_push(keys: Seq<Seq<char>>, table: Table, key: Seq<char>, entry: ExistingEntry)
    requires
        lists(keys, table),
        !table.contains_key(key),
    ensures
        lists(keys.push(key), table.insert(key, entry)),
{
    let more = keys.push(key);
    assert forall|k: Seq<char>| table.insert(key, entry).contains_key(k) <==> #[trigger] more.contains(
        k,
    ) by {
        if keys.contains(k) {
            let i = choose|i: int| 0 <= i < keys.len() && keys[i] == k;
            assert(more[i] == k);
        }
        if k == key {
            assert(more[keys.len() as int] == k);
        }
        if more.contains(k) && k != key {
            let i = choose|i: int| 0 <= i < more.len() && more[i] == k;
            assert(keys[i] == k);
        }
    }
    assert(!keys.contains(key));
}

proof fn lemma_lists_replace(
    keys: Seq<Seq<char>>,
    table: Table,
    key: Seq<char>,
    entry: ExistingEntry,
)
    requires
        lists(keys, table),
        table.contains_key(key),
    ensures
        lists(keys, table.insert(key, entry)),
        keys.contains(key),
{
    assert forall|k: Seq<char>| table.insert(key, entry).contains_key(k) <==> #[trigger] keys.contains(
        k,
    ) by {
        assert(table.contains_key(k) <==> keys.contains(k));
    }
    assert(table.contains_key(key) <==> keys.contains(key));
}

/// One change to the entries of a root. A new or changed entry is named by its
/// position in the crawl.
#[derive(Debug, Clone, Copy, PartialEq, Eq, Structural)]
pub enum EntryChange {
    Insert { entry: usize },
    Update { id: i64, entry: usize },
    MarkDeleted { id: i64 },
}

/// How far a walk through a crawl has come: what is stored and not met yet,
/// the changes so far and their numbers.
#[verifier::ext_equal]
pub struct Walk {
    pub remaining: Table,
    pub changes: Seq<EntryChange>,
    pub inserted: nat,
    pub updated: nat,
    pub unchanged: nat,
}

/// The walk through the first `n` entries of a crawl. An entry that is not
/// stored is inserted; one that is stored is updated if it differs.
pub open spec fn walk(existing: Table, crawled: Seq<CrawledView>, n: nat) -> Walk
    decreases n,
{
    if n == 0 {
        Walk { remaining: existing, changes: Seq::empty(), inserted: 0, updated: 0, unchanged: 0 }
    } else {
        let w = walk(existing, crawled, (n - 1) as nat);
        let entry = crawled[n - 1];
        if w.remaining.contains_key(entry.key()) {
            let stored = w.remaining[entry.key()];
            if stored != stored_as(entry, stored.id) {
                Walk {
                    remaining: w.remaining.remove(entry.key()),
                    changes: w.changes.push(
                        EntryChange::Update { id: stored.id, entry: (n - 1) as usize },
                    ),
                    updated: w.updated + 1,
                    ..w
                }
            } else {
                Walk {
                    remaining: w.remaining.remove(entry.key()),
                    unchanged: w.unchanged + 1,
                    ..w
                }
            }
        } else {
            Walk {
                changes: w.changes.push(EntryChange::Insert { entry: (n - 1) as usize }),
                inserted: w.inserted + 1,
                ..w
            }
        }
    }
}

/// The removals among the first `n` paths: a live entry that the crawl did not
/// meet is marked as deleted.
pub open spec fn removals(keys: Seq<Seq<char>>, remaining: Table, n: nat) -> Seq<EntryChange>
    decreases n,
{
    if n == 0 {
        Seq::empty()
    } else {
        let before = removals(keys, remaining, (n - 1) as nat);
        let key = keys[n - 1];
        if remaining.contains_key(key) && !remaining[key].deleted {
            before.push(EntryChange::MarkDeleted { id: remaining[key].id })
        } else {
            before
        }
    }
}

/// The changes that a crawl calls for, and how many there are of each kind.
#[derive(Debug)]
pub struct RefreshPlan {
    pub changes: Vec<EntryChange>,
    pub inserted: usize,
    pub updated: usize,
    pub deleted: usize,
    pub unchanged: usize,
}

/// Whether a plan holds the changes that a crawl calls for.
pub open spec fn is_plan(
    plan: RefreshPlan,
    keys: Seq<Seq<char>>,
    existing: Table,
    crawled: Seq<CrawledView>,
) -> bool {
    let w = walk(existing, crawled, crawled.len());
    let gone = removals(keys, w.remaining, keys.len());
    &&& plan.changes@ == w.changes + gone
    &&& plan.inserted == w.inserted
    &&& plan.updated == w.updated
    &&& plan.unchanged == w.unchanged
    &&& plan.deleted == gone.len()
}

/// The changes that a crawl of a root calls for, given what is stored.
pub fn plan_refresh(existing: ExistingEntries, crawled: &Vec<CrawledEntry>) -> (r: RefreshPlan)
    requires
        existing.wf(),
    ensures
        is_plan(r, existing.order(), existing@, crawled_views(crawled@)),
{
    let ghost table = existing@;
    let ghost views = crawled_views(crawled@);
    let ghost order = existing.order();
    let keys = existing.keys;
    let mut remaining = existing.entries;
    let mut changes: Vec<EntryChange> = Vec::new();
    let mut inserted: usize = 0;
    let mut updated: usize = 0;
    let mut unchanged: usize = 0;
    let mut i: usize = 0;
    while i < crawled.len()
        invariant
            i <= crawled.len(),
            views == crawled_views(crawled@),
            remaining@ == walk(table, views, i as nat).remaining,
            changes@ == walk(table, views, i as nat).changes,
            inserted == walk(table, views, i as nat).inserted,
            updated == walk(table, views, i as nat).updated,
            unchanged == walk(table, views, i as nat).unchanged,
            inserted + updated + unchanged == i,
        decreases crawled.len() - i,
    {
        let entry = &crawled[i];
        assert(views[i as int] == entry@);
        let key = entry.path.to_lossy();
        let stored: Option<ExistingEntry> = match remaining.get(key.as_str()) {
            Some(found) => Some(*found),
            None => None,
        };
        match stored {
            Some(found) => {
                remaining.remove(key.as_str());
                if entry_changed(&found, entry) {
                    changes.push(EntryChange::Update { id: found.id, entry: i });
                    updated += 1;
                } else {
                    unchanged += 1;
                }
            },
            None => {
                changes.push(EntryChange::Insert { entry: i });
                inserted += 1;
            },
        }
        i += 1;
    }
    let ghost w = walk(table, views, views.len());
    let mut deleted: usize = 0;
    let mut k: usize = 0;
    assert(changes@ =~= w.changes + removals(order, w.remaining, 0));
    while k < keys.len()
        invariant
            k <= keys.len(),
            order == texts(keys@),
            remaining@ == w.remaining,
            changes@ == w.changes + removals(order, w.remaining, k as nat),
            deleted == removals(order, w.remaining, k as nat).len(),
            deleted <= k,
        decreases keys.len() - k,
    {
        assert(order[k as int] == keys@[k as int]@);
        match remaining.get(keys[k].as_str()) {
            Some(found) => {
                if !found.deleted {
                    changes.push(EntryChange::MarkDeleted { id: found.id });
                    deleted += 1;
                }
            },
            None => {},
        }
        assert(changes@ =~= w.changes + removals(order, w.remaining, (k + 1) as nat));
        k += 1;
    }
    RefreshPlan { changes, inserted, updated, deleted, unchanged }
}

/// What is stored once a change is made; a new entry is stored under `fresh`.
pub open spec fn apply(t: Table, crawled: Seq<CrawledView>, change: EntryChange, fresh: i64) -> Table {
    match change {
        EntryChange::Insert { entry } => t.insert(
            crawled[entry as int].key(),
            stored_as(crawled[entry as int], fresh),
        ),
        EntryChange::Update { id, entry } => t.insert(
            crawled[entry as int].key(),
            stored_as(crawled[entry as int], id),
        ),
        EntryChange::MarkDeleted { id } => t.map_values(
            |e: ExistingEntry|
                if e.id == id {
                    ExistingEntry { deleted: true, ..e }
                } else {
                    e
                },
        ),
    }
}

/// What is stored once all changes are made, in order; `fresh` gives the id of
/// what the change at each position stores anew.
pub open spec fn apply_all(
    t: Table,
    crawled: Seq<CrawledView>,
    changes: Seq<EntryChange>,
    fresh: spec_fn(int) -> i64,
) -> Table
    decreases changes.len(),
{
    if changes.len() == 0 {
        t
    } else {
        apply(
            apply_all(t, crawled, changes.drop_last(), fresh),
            crawled,
            changes.last(),
            fresh(changes.len() - 1),
        )
    }
}

/// Whether the entries of a crawl have different keys.
pub open spec fn distinct_keys(crawled: Seq<CrawledView>) -> bool {
    forall|i: int, j: int|
        0 <= i < j < crawled.len() ==> (#[trigger] crawled[i]).key() != (
        #[trigger] crawled[j]).key()
}

/// Whether no two entries share an id.
pub open spec fn distinct_ids(t: Table) -> bool {
    forall|a: Seq<char>, b: Seq<char>|
        #[trigger] t.contains_key(a) && #[trigger] t.contains_key(b) && t[a].id == t[b].id ==> a
            == b
}

/// Whether `fresh` gives the first `n` changes ids that are not in use and never
/// the same twice.
pub open spec fn gives_fresh_ids(fresh: spec_fn(int) -> i64, t: Table, n: nat) -> bool {
    &&& forall|i: int, j: int| 0 <= i < j < n ==> #[trigger] fresh(i) != #[trigger] fresh(j)
    &&& forall|i: int, k: Seq<char>|
        0 <= i < n && #[trigger] t.contains_key(k) ==> t[k].id != #[trigger] fresh(i)
}

/// Whether a key is that of one of the first `n` entries of a crawl.
pub open spec fn met(crawled: Seq<CrawledView>, n: nat, key: Seq<char>) -> bool {
    exists|i: int| 0 <= i < n && (#[trigger] crawled[i]).key() == key
}

/// Where an id of a table comes from: it was there, or it is that of a change
/// before position `n`.
spec fn id_known(id: i64, t: Table, key: Seq<char>, fresh: spec_fn(int) -> i64, n: int) -> bool {
    if t.contains_key(key) {
        id == t[key].id
    } else {
        exists|j: int| 0 <= j < n && id == #[trigger] fresh(j)
    }
}

proof fn lemma_walk(
    t: Table,
    crawled: Seq<CrawledView>,
    fresh: spec_fn(int) -> i64,
    n: nat,
)
    requires
        n <= crawled.len() <= usize::MAX,
        distinct_keys(crawled),
        distinct_ids(t),
        gives_fresh_ids(fresh, t, crawled.len()),
    ensures
        ({
            let w = walk(t, crawled, n);
            let s = apply_all(t, crawled, w.changes, fresh);
            &&& w.inserted + w.updated + w.unchanged == n
            &&& w.changes.len() == w.inserted + w.updated
            &&& forall|k: Seq<char>|
                #[trigger] w.remaining.contains_key(k) <==> t.contains_key(k) && !met(crawled, n, k)
            &&& forall|k: Seq<char>|
                #[trigger] w.remaining.contains_key(k) ==> w.remaining[k] == t[k] && s.contains_key(
                    k,
                ) && s[k] == t[k]
            &&& forall|k: Seq<char>|
                #[trigger] s.contains_key(k) <==> t.contains_key(k) || met(crawled, n, k)
            &&& forall|i: int|
                0 <= i < n ==> {
                    let e = s[(#[trigger] crawled[i]).key()];
                    e == stored_as(crawled[i], e.id)
                }
            &&& forall|k: Seq<char>|
                #[trigger] s.contains_key(k) ==> id_known(s[k].id, t, k, fresh, w.changes.len() as int)
            &&& distinct_ids(s)
        }),
    decreases n,
{
    if n == 0 {
        let w = walk(t, crawled, 0);
        assert(apply_all(t, crawled, w.changes, fresh) == t);
    } else {
        let m = (n - 1) as nat;
        lemma_walk(t, crawled, fresh, m);
        let v = walk(t, crawled, m);
        let w = walk(t, crawled, n);
        let r = apply_all(t, crawled, v.changes, fresh);
        let s = apply_all(t, crawled, w.changes, fresh);
        let entry = crawled[n - 1];
        let key = entry.key();
        assert(!met(crawled, m, key)) by {
            if met(crawled, m, key) {
                let i = choose|i: int| 0 <= i < m && (#[trigger] crawled[i]).key() == key;
                assert(crawled[i].key() != crawled[n - 1].key());
            }
        }
        assert forall|k: Seq<char>| met(crawled, n, k) <==> met(crawled, m, k) || k == key by {
            if met(crawled, n, k) && k != key {
                let i = choose|i: int| 0 <= i < n && (#[trigger] crawled[i]).key() == k;
                assert(i != n - 1);
                assert(0 <= i < m && crawled[i].key() == k);
            }
            if met(crawled, m, k) {
                let i = choose|i: int| 0 <= i < m && (#[trigger] crawled[i]).key() == k;
                assert(0 <= i < n && crawled[i].key() == k);
            }
            if k == key {
                assert(0 <= n - 1 < n && crawled[n - 1].key() == k);
            }
        }
        assert(v.remaining.contains_key(key) <==> t.contains_key(key));
        if w.changes.len() > v.changes.len() {
            assert(w.changes.drop_last() =~= v.changes);
        }
        let at = v.changes.len() as int;
        // the entry at `key` is stored as it was crawled, and no other changed
        assert(s.contains_key(key) && s[key] == stored_as(entry, s[key].id)) by {
            if t.contains_key(key) {
                let stored = v.remaining[key];
                if stored != stored_as(entry, stored.id) {
                    assert(w.changes.last() == (EntryChange::Update {
                        id: stored.id,
                        entry: m as usize,
                    }));
                }
            } else {
                assert(w.changes.last() == (EntryChange::Insert { entry: m as usize }));
            }
        }
        assert forall|k: Seq<char>| k != key implies (#[trigger] s.contains_key(k) <==> r.contains_key(
            k,
        )) && (s.contains_key(k) ==> s[k] == r[k]) by {
            if t.contains_key(key) {
                let stored = v.remaining[key];
                if stored != stored_as(entry, stored.id) {
                    assert(w.changes.last() == (EntryChange::Update {
                        id: stored.id,
                        entry: m as usize,
                    }));
                }
            } else {
                assert(w.changes.last() == (EntryChange::Insert { entry: m as usize }));
            }
        }
        assert(id_known(s[key].id, t, key, fresh, w.changes.len() as int)) by {
            if t.contains_key(key) {
                assert(s[key].id == t[key].id);
            } else {
                assert(s[key].id == fresh(at));
                assert(at < w.changes.len());
            }
        }
        assert forall|k: Seq<char>| #[trigger] s.contains_key(k) implies id_known(
            s[k].id,
            t,
            k,
            fresh,
            w.changes.len() as int,
        ) by {
            if k != key {
                assert(r.contains_key(k));
                assert(id_known(r[k].id, t, k, fresh, at));
                if !t.contains_key(k) {
                    let j = choose|j: int| 0 <= j < at && r[k].id == #[trigger] fresh(j);
                    assert(0 <= j < w.changes.len() && s[k].id == fresh(j));
                }
            }
        }
        assert forall|a: Seq<char>, b: Seq<char>|
            #[trigger] s.contains_key(a) && #[trigger] s.contains_key(b) && s[a].id
                == s[b].id implies a == b by {
            if a != b {
                if a != key && b != key {
                    assert(r.contains_key(a) && r.contains_key(b));
                } else {
                    let o = if a == key {
                        b
                    } else {
                        a
                    };
                    assert(s[o].id == s[key].id);
                    assert(r.contains_key(o));
                    assert(id_known(r[o].id, t, o, fresh, at));
                    if t.contains_key(key) {
                        assert(s[key].id == t[key].id);
                        if t.contains_key(o) {
                            assert(o == key);
                        } else {
                            let j = choose|j: int| 0 <= j < at && r[o].id == #[trigger] fresh(j);
                            assert(t[key].id != fresh(j));
                        }
                    } else {
                        assert(s[key].id == fresh(at));
                        if t.contains_key(o) {
                            assert(t[o].id != fresh(at));
                        } else {
                            let j = choose|j: int| 0 <= j < at && r[o].id == #[trigger] fresh(j);
                            assert(fresh(j) != fresh(at));
                        }
                    }
                }
            }
        }
        assert forall|i: int| 0 <= i < n implies {
            let e = s[(#[trigger] crawled[i]).key()];
            e == stored_as(crawled[i], e.id)
        } by {
            if i < m {
                assert(crawled[i].key() != crawled[n - 1].key());
                assert(met(crawled, m, crawled[i].key()));
                assert(r.contains_key(crawled[i].key()));
            }
        }
        assert forall|k: Seq<char>| #[trigger] s.contains_key(k) <==> t.contains_key(k) || met(
            crawled,
            n,
            k,
        ) by {
            if k != key {
                assert(r.contains_key(k) <==> t.contains_key(k) || met(crawled, m, k));
            }
        }
        assert forall|k: Seq<char>| #[trigger] w.remaining.contains_key(k) implies w.remaining[k]
            == t[k] && s.contains_key(k) && s[k] == t[k] by {
            assert(k != key);
            assert(v.remaining.contains_key(k));
        }
        assert forall|k: Seq<char>| #[trigger] w.remaining.contains_key(k) <==> t.contains_key(k)
            && !met(crawled, n, k) by {
            assert(v.remaining.contains_key(k) <==> t.contains_key(k) && !met(crawled, m, k));
        }
    }
}

/// The changes that a crawl calls for.
pub open spec fn plan_changes(
    keys: Seq<Seq<char>>,
    t: Table,
    crawled: Seq<CrawledView>,
) -> Seq<EntryChange> {
    let w = walk(t, crawled, crawled.len());
    w.changes + removals(keys, w.remaining, keys.len())
}

/// What is stored of a root after a refresh.
pub open spec fn refreshed(
    keys: Seq<Seq<char>>,
    t: Table,
    crawled: Seq<CrawledView>,
    fresh: spec_fn(int) -> i64,
) -> Table {
    apply_all(t, crawled, plan_changes(keys, t, crawled), fresh)
}

/// Whether a key is among the first `m` of a list.
spec fn among(keys: Seq<Seq<char>>, m: nat, k: Seq<char>) -> bool {
    exists|i: int| 0 <= i < m && #[trigger] keys[i] == k
}

proof fn lemma_removals(
    t: Table,
    crawled: Seq<CrawledView>,
    keys: Seq<Seq<char>>,
    fresh: spec_fn(int) -> i64,
    m: nat,
)
    requires
        m <= keys.len(),
        crawled.len() <= usize::MAX,
        lists(keys, t),
        distinct_keys(crawled),
        distinct_ids(t),
        gives_fresh_ids(fresh, t, crawled.len()),
    ensures
        ({
            let w = walk(t, crawled, crawled.len());
            let before = apply_all(t, crawled, w.changes, fresh);
            let s = apply_all(t, crawled, w.changes + removals(keys, w.remaining, m), fresh);
            &&& forall|k: Seq<char>| #[trigger] s.contains_key(k) <==> before.contains_key(k)
            &&& forall|k: Seq<char>|
                #[trigger] s.contains_key(k) ==> s[k] == if w.remaining.contains_key(k) && among(
                    keys,
                    m,
                    k,
                ) {
                    ExistingEntry { deleted: true, ..before[k] }
                } else {
                    before[k]
                }
        }),
    decreases m,
{
    let w = walk(t, crawled, crawled.len());
    let before = apply_all(t, crawled, w.changes, fresh);
    lemma_walk(t, crawled, fresh, crawled.len());
    if m == 0 {
        assert(w.changes + removals(keys, w.remaining, 0) =~= w.changes);
    } else {
        let l = (m - 1) as nat;
        lemma_removals(t, crawled, keys, fresh, l);
        let a = w.changes + removals(keys, w.remaining, l);
        let b = w.changes + removals(keys, w.remaining, m);
        let r = apply_all(t, crawled, a, fresh);
        let s = apply_all(t, crawled, b, fresh);
        let key = keys[m - 1];
        assert forall|k: Seq<char>| among(keys, m, k) <==> among(keys, l, k) || k == key by {
            if among(keys, m, k) && k != key {
                let i = choose|i: int| 0 <= i < m && #[trigger] keys[i] == k;
                assert(0 <= i < l && keys[i] == k);
            }
            if among(keys, l, k) {
                let i = choose|i: int| 0 <= i < l && #[trigger] keys[i] == k;
                assert(0 <= i < m && keys[i] == k);
            }
            if k == key {
                assert(keys[m - 1] == k);
            }
        }
        assert(!among(keys, l, key)) by {
            if among(keys, l, key) {
                let i = choose|i: int| 0 <= i < l && #[trigger] keys[i] == key;
                assert(keys[i] != keys[m - 1]);
            }
        }
        if w.remaining.contains_key(key) && !w.remaining[key].deleted {
            let id = w.remaining[key].id;
            assert(b.drop_last() =~= a);
            assert(b.last() == (EntryChange::MarkDeleted { id }));
            assert(before.contains_key(key) && before[key] == t[key]);
            assert forall|k: Seq<char>| #[trigger] s.contains_key(k) implies s[k]
                == if w.remaining.contains_key(k) && among(keys, m, k) {
                ExistingEntry { deleted: true, ..before[k] }
            } else {
                before[k]
            } by {
                assert(r.contains_key(k));
                assert(r[k].id == before[k].id);
                if k != key {
                    assert(before.contains_key(k));
                    assert(before[k].id != id);
                }
            }
        } else {
            assert(b =~= a);
            assert forall|k: Seq<char>| #[trigger] s.contains_key(k) implies s[k]
                == if w.remaining.contains_key(k) && among(keys, m, k) {
                ExistingEntry { deleted: true, ..before[k] }
            } else {
                before[k]
            } by {
                assert(r.contains_key(k));
                if k == key && w.remaining.contains_key(key) {
                    assert(before[key] == t[key]);
                    assert(before[key].deleted);
                    assert(before[key] == (ExistingEntry { deleted: true, ..before[key] }));
                }
            }
        }
    }
}

/// After a refresh the live entries of a root are exactly those that the crawl
/// met, each as it was crawled; no stored entry is lost or gets another id, and
/// no two share one.
///
/// This is for crawls whose entries have different keys: the database refuses
/// to store two entries of a root under one.
pub proof fn refresh_makes_the_index_match(
    keys: Seq<Seq<char>>,
    t: Table,
    crawled: Seq<CrawledView>,
    fresh: spec_fn(int) -> i64,
)
    requires
        crawled.len() <= usize::MAX,
        lists(keys, t),
        distinct_keys(crawled),
        distinct_ids(t),
        gives_fresh_ids(fresh, t, crawled.len()),
    ensures
        ({
            let s = refreshed(keys, t, crawled, fresh);
            &&& forall|i: int|
                0 <= i < crawled.len() ==> {
                    let k = (#[trigger] crawled[i]).key();
                    s.contains_key(k) && s[k] == stored_as(crawled[i], s[k].id)
                }
            &&& forall|k: Seq<char>|
                #[trigger] s.contains_key(k) ==> (!s[k].deleted <==> met(crawled, crawled.len(), k))
            &&& forall|k: Seq<char>|
                #[trigger] t.contains_key(k) ==> s.contains_key(k) && s[k].id == t[k].id
            &&& distinct_ids(s)
        }),
{
    let n = crawled.len();
    let w = walk(t, crawled, n);
    let before = apply_all(t, crawled, w.changes, fresh);
    let s = refreshed(keys, t, crawled, fresh);
    lemma_walk(t, crawled, fresh, n);
    lemma_removals(t, crawled, keys, fresh, keys.len());
    assert forall|i: int| 0 <= i < n implies {
        let k = (#[trigger] crawled[i]).key();
        s.contains_key(k) && s[k] == stored_as(crawled[i], s[k].id)
    } by {
        let k = crawled[i].key();
        assert(met(crawled, n, k));
        assert(before.contains_key(k));
        assert(!w.remaining.contains_key(k));
        assert(s.contains_key(k));
    }
    assert forall|k: Seq<char>| #[trigger] s.contains_key(k) implies (!s[k].deleted <==> met(
        crawled,
        n,
        k,
    )) by {
        assert(before.contains_key(k));
        if met(crawled, n, k) {
            let i = choose|i: int| 0 <= i < n && (#[trigger] crawled[i]).key() == k;
            assert(s[k] == stored_as(crawled[i], s[k].id));
        } else {
            assert(t.contains_key(k));
            assert(w.remaining.contains_key(k));
            assert(keys.contains(k));
            let i = choose|i: int| 0 <= i < keys.len() && keys[i] == k;
            assert(among(keys, keys.len(), k));
        }
    }
    assert forall|k: Seq<char>| #[trigger] t.contains_key(k) implies s.contains_key(k) && s[k].id
        == t[k].id by {
        assert(before.contains_key(k));
        assert(s.contains_key(k));
        assert(id_known(before[k].id, t, k, fresh, w.changes.len() as int));
    }
    assert forall|a: Seq<char>, b: Seq<char>|
        #[trigger] s.contains_key(a) && #[trigger] s.contains_key(b) && s[a].id
            == s[b].id implies a == b by {
        assert(before.contains_key(a) && before.contains_key(b));
        assert(before[a].id == s[a].id && before[b].id == s[b].id);
    }
}

/// Every entry of a crawl is counted once: as inserted, updated or unchanged.
pub proof fn refresh_counts_every_entry(t: Table, crawled: Seq<CrawledView>, n: nat)
    ensures
        ({
            let w = walk(t, crawled, n);
            &&& w.inserted + w.updated + w.unchanged == n
            &&& w.inserted + w.updated == w.changes.len()
        }),
    decreases n,
{
    if n > 0 {
        refresh_counts_every_entry(t, crawled, (n - 1) as nat);
    }
}

proof fn lemma_walk_unchanged(t: Table, crawled: Seq<CrawledView>, n: nat)
    requires
        n <= crawled.len(),
        distinct_keys(crawled),
        forall|i: int|
            0 <= i < crawled.len() ==> {
                let k = (#[trigger] crawled[i]).key();
                t.contains_key(k) && t[k] == stored_as(crawled[i], t[k].id)
            },
    ensures
        ({
            let w = walk(t, crawled, n);
            &&& w.changes.len() == 0
            &&& w.unchanged == n
            &&& forall|k: Seq<char>|
                #[trigger] w.remaining.contains_key(k) <==> t.contains_key(k) && !met(crawled, n, k)
            &&& forall|k: Seq<char>| #[trigger] w.remaining.contains_key(k) ==> w.remaining[k] == t[k]
        }),
    decreases n,
{
    if n > 0 {
        let m = (n - 1) as nat;
        lemma_walk_unchanged(t, crawled, m);
        let v = walk(t, crawled, m);
        let w = walk(t, crawled, n);
        let key = crawled[n - 1].key();
        assert(!met(crawled, m, key)) by {
            if met(crawled, m, key) {
                let i = choose|i: int| 0 <= i < m && (#[trigger] crawled[i]).key() == key;
                assert(crawled[i].key() != crawled[n - 1].key());
            }
        }
        assert(v.remaining.contains_key(key));
        assert forall|k: Seq<char>| #[trigger] w.remaining.contains_key(k) <==> t.contains_key(k)
            && !met(crawled, n, k) by {
            assert(v.remaining.contains_key(k) <==> t.contains_key(k) && !met(crawled, m, k));
            if met(crawled, n, k) && k != key {
                let i = choose|i: int| 0 <= i < n && (#[trigger] crawled[i]).key() == k;
                assert(0 <= i < m && crawled[i].key() == k);
            }
            if met(crawled, m, k) {
                let i = choose|i: int| 0 <= i < m && (#[trigger] crawled[i]).key() == k;
                assert(0 <= i < n && crawled[i].key() == k);
            }
            if k == key {
                assert(0 <= n - 1 < n && crawled[n - 1].key() == k);
            }
        }
    }
}

proof fn lemma_no_removals(keys: Seq<Seq<char>>, remaining: Table, n: nat)
    requires
        n <= keys.len(),
        forall|k: Seq<char>| #[trigger] remaining.contains_key(k) ==> remaining[k].deleted,
    ensures
        removals(keys, remaining, n).len() == 0,
    decreases n,
{
    if n > 0 {
        lemma_no_removals(keys, remaining, (n - 1) as nat);
    }
}

/// Whether what is stored of a root is what a crawl met: each of its entries as
/// it was crawled, and nothing else that is live.
pub open spec fn matched(t: Table, crawled: Seq<CrawledView>) -> bool {
    &&& forall|i: int|
        0 <= i < crawled.len() ==> {
            let k = (#[trigger] crawled[i]).key();
            t.contains_key(k) && t[k] == stored_as(crawled[i], t[k].id)
        }
    &&& forall|k: Seq<char>|
        #[trigger] t.contains_key(k) ==> t[k].deleted || met(crawled, crawled.len(), k)
}

/// Where what is stored is what a crawl met, a refresh from it changes nothing,
/// and counts every entry as unchanged.
pub proof fn a_matching_root_calls_for_no_change(
    keys: Seq<Seq<char>>,
    t: Table,
    crawled: Seq<CrawledView>,
)
    requires
        distinct_keys(crawled),
        matched(t, crawled),
    ensures
        ({
            let w = walk(t, crawled, crawled.len());
            &&& plan_changes(keys, t, crawled) == Seq::<EntryChange>::empty()
            &&& w.inserted == 0
            &&& w.updated == 0
            &&& w.unchanged == crawled.len()
            &&& removals(keys, w.remaining, keys.len()).len() == 0
        }),
{
    lemma_walk_unchanged(t, crawled, crawled.len());
    refresh_counts_every_entry(t, crawled, crawled.len());
    let w = walk(t, crawled, crawled.len());
    assert forall|k: Seq<char>| #[trigger] w.remaining.contains_key(k) implies w.remaining[k].deleted by {
        assert(t.contains_key(k));
    }
    lemma_no_removals(keys, w.remaining, keys.len());
    assert(plan_changes(keys, t, crawled) =~= Seq::empty());
}

/// A second refresh from the same crawl changes nothing.
pub proof fn refresh_again_changes_nothing(
    keys: Seq<Seq<char>>,
    t: Table,
    crawled: Seq<CrawledView>,
    fresh: spec_fn(int) -> i64,
    keys_again: Seq<Seq<char>>,
)
    requires
        crawled.len() <= usize::MAX,
        lists(keys, t),
        distinct_keys(crawled),
        distinct_ids(t),
        gives_fresh_ids(fresh, t, crawled.len()),
    ensures
        ({
            let s = refreshed(keys, t, crawled, fresh);
            &&& plan_changes(keys_again, s, crawled).len() == 0
            &&& walk(s, crawled, crawled.len()).unchanged == crawled.len()
        }),
{
    refresh_makes_the_index_match(keys, t, crawled, fresh);
    a_matching_root_calls_for_no_change(keys_again, refreshed(keys, t, crawled, fresh), crawled);
}

/// A refresh from the crawl of a rebuild changes nothing.
pub proof fn refresh_after_rebuild_changes_nothing(
    crawled: Seq<CrawledView>,
    fresh: spec_fn(int) -> i64,
    keys: Seq<Seq<char>>,
)
    requires
        crawled.len() <= usize::MAX,
        distinct_keys(crawled),
        gives_fresh_ids(fresh, Map::empty(), crawled.len()),
    ensures
        ({
            let s = rebuilt(crawled, fresh);
            &&& plan_changes(keys, s, crawled).len() == 0
            &&& walk(s, crawled, crawled.len()).unchanged == crawled.len()
        }),
{
    rebuild_makes_the_index_match(crawled, fresh);
    a_matching_root_calls_for_no_change(keys, rebuilt(crawled, fresh), crawled);
}

/// Whether a change is about what is stored: it stores what is not there, stores
/// anew what is there, or deletes what is there.
pub open spec fn fits(t: Table, crawled: Seq<CrawledView>, change: EntryChange) -> bool {
    match change {
        EntryChange::Insert { entry } => entry < crawled.len() && !t.contains_key(
            crawled[entry as int].key(),
        ),
        EntryChange::Update { id, entry } => {
            let key = crawled[entry as int].key();
            entry < crawled.len() && t.contains_key(key) && t[key].id == id
        },
        EntryChange::MarkDeleted { id } => exists|k: Seq<char>| #[trigger]
            t.contains_key(k) && t[k].id == id,
    }
}

/// Whether each of the changes is about what is stored when its turn comes, and
/// a new entry is stored by one of the first `n` only.
pub open spec fn all_fit(
    t: Table,
    crawled: Seq<CrawledView>,
    changes: Seq<EntryChange>,
    fresh: spec_fn(int) -> i64,
    n: nat,
) -> bool {
    forall|j: int|
        0 <= j < changes.len() ==> fits(
            apply_all(t, crawled, changes.take(j), fresh),
            crawled,
            #[trigger] changes[j],
        ) && (changes[j] is Insert ==> j < n)
}

proof fn lemma_all_fit_push(
    t: Table,
    crawled: Seq<CrawledView>,
    changes: Seq<EntryChange>,
    change: EntryChange,
    fresh: spec_fn(int) -> i64,
    n: nat,
)
    requires
        all_fit(t, crawled, changes, fresh, n),
        fits(apply_all(t, crawled, changes, fresh), crawled, change),
        change is Insert ==> changes.len() < n,
    ensures
        all_fit(t, crawled, changes.push(change), fresh, n),
{
    let all = changes.push(change);
    assert forall|j: int| 0 <= j < all.len() implies fits(
        apply_all(t, crawled, all.take(j), fresh),
        crawled,
        #[trigger] all[j],
    ) && (all[j] is Insert ==> j < n) by {
        if j < changes.len() {
            assert(all.take(j) =~= changes.take(j));
            assert(all[j] == changes[j]);
        } else {
            assert(all.take(j) =~= changes);
        }
    }
}

proof fn lemma_walk_fits(
    t: Table,
    crawled: Seq<CrawledView>,
    fresh: spec_fn(int) -> i64,
    n: nat,
)
    requires
        n <= crawled.len() <= usize::MAX,
        distinct_keys(crawled),
        distinct_ids(t),
        gives_fresh_ids(fresh, t, crawled.len()),
    ensures
        all_fit(t, crawled, walk(t, crawled, n).changes, fresh, crawled.len()),
    decreases n,
{
    if n > 0 {
        let l = (n - 1) as nat;
        lemma_walk_fits(t, crawled, fresh, l);
        lemma_walk(t, crawled, fresh, l);
        let v = walk(t, crawled, l);
        let w = walk(t, crawled, n);
        let r = apply_all(t, crawled, v.changes, fresh);
        let key = crawled[n - 1].key();
        assert(!met(crawled, l, key)) by {
            if met(crawled, l, key) {
                let i = choose|i: int| 0 <= i < l && (#[trigger] crawled[i]).key() == key;
                assert(crawled[i].key() != crawled[n - 1].key());
            }
        }
        if v.remaining.contains_key(key) {
            assert(r.contains_key(key) && r[key] == t[key]);
        } else {
            assert(!r.contains_key(key));
        }
        if w.changes.len() > v.changes.len() {
            lemma_all_fit_push(t, crawled, v.changes, w.changes.last(), fresh, crawled.len());
            assert(w.changes =~= v.changes.push(w.changes.last()));
        } else {
            assert(w.changes =~= v.changes);
        }
    }
}

proof fn lemma_removals_fit(
    t: Table,
    crawled: Seq<CrawledView>,
    keys: Seq<Seq<char>>,
    fresh: spec_fn(int) -> i64,
    m: nat,
)
    requires
        m <= keys.len(),
        crawled.len() <= usize::MAX,
        lists(keys, t),
        distinct_keys(crawled),
        distinct_ids(t),
        gives_fresh_ids(fresh, t, crawled.len()),
    ensures
        ({
            let w = walk(t, crawled, crawled.len());
            all_fit(
                t,
                crawled,
                w.changes + removals(keys, w.remaining, m),
                fresh,
                crawled.len(),
            )
        }),
    decreases m,
{
    let w = walk(t, crawled, crawled.len());
    if m == 0 {
        lemma_walk_fits(t, crawled, fresh, crawled.len());
        assert(w.changes + removals(keys, w.remaining, 0) =~= w.changes);
    } else {
        let l = (m - 1) as nat;
        lemma_removals_fit(t, crawled, keys, fresh, l);
        lemma_removals(t, crawled, keys, fresh, l);
        lemma_walk(t, crawled, fresh, crawled.len());
        let a = w.changes + removals(keys, w.remaining, l);
        let b = w.changes + removals(keys, w.remaining, m);
        let s = apply_all(t, crawled, a, fresh);
        let key = keys[m - 1];
        if w.remaining.contains_key(key) && !w.remaining[key].deleted {
            let before = apply_all(t, crawled, w.changes, fresh);
            assert(before.contains_key(key) && before[key] == t[key]);
            assert(s.contains_key(key));
            assert(s[key].id == t[key].id);
            lemma_all_fit_push(
                t,
                crawled,
                a,
                EntryChange::MarkDeleted { id: w.remaining[key].id },
                fresh,
                crawled.len(),
            );
            assert(b =~= a.push(EntryChange::MarkDeleted { id: w.remaining[key].id }));
        } else {
            assert(b =~= a);
        }
    }
}

/// Each change of a refresh is about what is stored when its turn comes.
pub proof fn lemma_plan_fits(
    keys: Seq<Seq<char>>,
    t: Table,
    crawled: Seq<CrawledView>,
    fresh: spec_fn(int) -> i64,
)
    requires
        crawled.len() <= usize::MAX,
        lists(keys, t),
        distinct_keys(crawled),
        distinct_ids(t),
        gives_fresh_ids(fresh, t, crawled.len()),
    ensures
        all_fit(t, crawled, plan_changes(keys, t, crawled), fresh, crawled.len()),
{
    lemma_removals_fit(t, crawled, keys, fresh, keys.len());
}

/// Each change of a rebuild is about what is stored when its turn comes.
pub proof fn lemma_rebuild_fits(crawled: Seq<CrawledView>, fresh: spec_fn(int) -> i64)
    requires
        crawled.len() <= usize::MAX,
        distinct_keys(crawled),
        gives_fresh_ids(fresh, Map::empty(), crawled.len()),
    ensures
        all_fit(
            Map::empty(),
            crawled,
            Seq::new(crawled.len(), |i: int| EntryChange::Insert { entry: i as usize }),
            fresh,
            crawled.len(),
        ),
{
    lemma_walk_of_nothing(crawled, crawled.len());
    lemma_walk_fits(Map::empty(), crawled, fresh, crawled.len());
}

/// What is removed is exactly what was live and not met: an entry is marked as
/// deleted if and only if it is stored, live, and no entry of the crawl has its
/// key.
pub proof fn refresh_deletes_exactly_the_missing(
    keys: Seq<Seq<char>>,
    t: Table,
    crawled: Seq<CrawledView>,
    fresh: spec_fn(int) -> i64,
    key: Seq<char>,
)
    requires
        crawled.len() <= usize::MAX,
        lists(keys, t),
        distinct_keys(crawled),
        distinct_ids(t),
        gives_fresh_ids(fresh, t, crawled.len()),
        t.contains_key(key),
    ensures
        plan_changes(keys, t, crawled).contains(EntryChange::MarkDeleted { id: t[key].id })
            <==> !t[key].deleted && !met(crawled, crawled.len(), key),
{
    let w = walk(t, crawled, crawled.len());
    lemma_walk(t, crawled, fresh, crawled.len());
    let gone = removals(keys, w.remaining, keys.len());
    let all = plan_changes(keys, t, crawled);
    let change = EntryChange::MarkDeleted { id: t[key].id };
    lemma_walk_marks_nothing(t, crawled, crawled.len());
    assert(keys.contains(key));
    lemma_removals_are(keys, w.remaining, keys.len());
    if !t[key].deleted && !met(crawled, crawled.len(), key) {
        assert(w.remaining.contains_key(key));
        let i = choose|i: int| 0 <= i < keys.len() && keys[i] == key;
        assert(w.remaining.contains_key(keys[i]) && !w.remaining[keys[i]].deleted);
        let j = choose|j: int| 0 <= j < gone.len() && gone[j] == change;
        assert(gone.contains(change));
        assert(all[w.changes.len() + j] == change);
    }
    if all.contains(change) {
        let j = choose|j: int| 0 <= j < all.len() && all[j] == change;
        if j < w.changes.len() {
            assert(all[j] == w.changes[j]);
        } else {
            assert(gone[j - w.changes.len()] == change);
            let i = choose|i: int|
                0 <= i < keys.len() && w.remaining.contains_key(#[trigger] keys[i])
                    && !w.remaining[keys[i]].deleted && change == (EntryChange::MarkDeleted {
                    id: w.remaining[keys[i]].id,
                });
            assert(t.contains_key(keys[i]) && t[keys[i]].id == t[key].id);
        }
    }
}

proof fn lemma_walk_marks_nothing(t: Table, crawled: Seq<CrawledView>, n: nat)
    ensures
        forall|j: int|
            0 <= j < walk(t, crawled, n).changes.len() ==> !(
            #[trigger] walk(t, crawled, n).changes[j] is MarkDeleted),
    decreases n,
{
    if n > 0 {
        lemma_walk_marks_nothing(t, crawled, (n - 1) as nat);
    }
}

proof fn lemma_removals_are(keys: Seq<Seq<char>>, remaining: Table, n: nat)
    requires
        n <= keys.len(),
    ensures
        forall|i: int|
            0 <= i < n && remaining.contains_key(#[trigger] keys[i]) && !remaining[keys[i]].deleted
                ==> removals(keys, remaining, n).contains(
                EntryChange::MarkDeleted { id: remaining[keys[i]].id },
            ),
        forall|j: int|
            0 <= j < removals(keys, remaining, n).len() ==> exists|i: int|
                0 <= i < n && remaining.contains_key(#[trigger] keys[i])
                    && !remaining[keys[i]].deleted && (#[trigger] removals(keys, remaining, n)[j])
                    == (EntryChange::MarkDeleted { id: remaining[keys[i]].id }),
    decreases n,
{
    if n > 0 {
        let m = (n - 1) as nat;
        lemma_removals_are(keys, remaining, m);
        let a = removals(keys, remaining, m);
        let b = removals(keys, remaining, n);
        assert forall|i: int|
            0 <= i < n && remaining.contains_key(#[trigger] keys[i])
                && !remaining[keys[i]].deleted implies b.contains(
            EntryChange::MarkDeleted { id: remaining[keys[i]].id },
        ) by {
            let c = EntryChange::MarkDeleted { id: remaining[keys[i]].id };
            if i < m {
                assert(a.contains(c));
                let j = choose|j: int| 0 <= j < a.len() && a[j] == c;
                assert(b[j] == c);
            } else {
                assert(b[b.len() - 1] == c);
            }
        }
        assert forall|j: int| 0 <= j < b.len() implies exists|i: int|
            0 <= i < n && remaining.contains_key(#[trigger] keys[i]) && !remaining[keys[i]].deleted
                && (#[trigger] b[j]) == (EntryChange::MarkDeleted { id: remaining[keys[i]].id }) by {
            if j < a.len() {
                assert(b[j] == a[j]);
                let i = choose|i: int|
                    0 <= i < m && remaining.contains_key(#[trigger] keys[i])
                        && !remaining[keys[i]].deleted && a[j] == (EntryChange::MarkDeleted {
                        id: remaining[keys[i]].id,
                    });
                assert(remaining.contains_key(keys[i]));
            } else {
                assert(remaining.contains_key(keys[n - 1]));
            }
        }
    }
}

/// The changes of a refresh where nothing is stored: every entry is inserted.
proof fn lemma_walk_of_nothing(crawled: Seq<CrawledView>, n: nat)
    requires
        n <= crawled.len(),
    ensures
        ({
            let w = walk(Map::empty(), crawled, n);
            &&& w.remaining == Map::<Seq<char>, ExistingEntry>::empty()
            &&& w.changes == Seq::new(n, |i: int| EntryChange::Insert { entry: i as usize })
        }),
    decreases n,
{
    if n > 0 {
        lemma_walk_of_nothing(crawled, (n - 1) as nat);
    }
    let w = walk(Map::empty(), crawled, n);
    assert(w.changes =~= Seq::new(n, |i: int| EntryChange::Insert { entry: i as usize }));
}

/// What is stored of a root after a rebuild: its entries are removed, and each
/// entry of the crawl is inserted in turn.
pub open spec fn rebuilt(crawled: Seq<CrawledView>, fresh: spec_fn(int) -> i64) -> Table {
    apply_all(
        Map::empty(),
        crawled,
        Seq::new(crawled.len(), |i: int| EntryChange::Insert { entry: i as usize }),
        fresh,
    )
}

/// After a rebuild exactly the crawled entries of a root are stored, each live
/// and as it was crawled.
pub proof fn rebuild_makes_the_index_match(
    crawled: Seq<CrawledView>,
    fresh: spec_fn(int) -> i64,
)
    requires
        crawled.len() <= usize::MAX,
        distinct_keys(crawled),
        gives_fresh_ids(fresh, Map::empty(), crawled.len()),
    ensures
        ({
            let s = rebuilt(crawled, fresh);
            &&& forall|i: int|
                0 <= i < crawled.len() ==> {
                    let k = (#[trigger] crawled[i]).key();
                    s.contains_key(k) && s[k] == stored_as(crawled[i], s[k].id)
                }
            &&& forall|k: Seq<char>|
                #[trigger] s.contains_key(k) ==> !s[k].deleted && met(crawled, crawled.len(), k)
            &&& distinct_ids(s)
        }),
{
    let none = Map::<Seq<char>, ExistingEntry>::empty();
    lemma_walk_of_nothing(crawled, crawled.len());
    lemma_walk(none, crawled, fresh, crawled.len());
    let s = rebuilt(crawled, fresh);
    assert forall|i: int| 0 <= i < crawled.len() implies {
        let k = (#[trigger] crawled[i]).key();
        s.contains_key(k) && s[k] == stored_as(crawled[i], s[k].id)
    } by {
        assert(met(crawled, crawled.len(), crawled[i].key()));
    }
    assert forall|k: Seq<char>| #[trigger] s.contains_key(k) implies !s[k].deleted && met(
        crawled,
        crawled.len(),
        k,
    ) by {
        assert(met(crawled, crawled.len(), k));
        let i = choose|i: int| 0 <= i < crawled.len() && (#[trigger] crawled[i]).key() == k;
        assert(s[k] == stored_as(crawled[i], s[k].id));
    }
}

/// The terms under which entries are found, by the id of the entry.
pub type Terms = Map<i64, Set<Seq<char>>>;

/// The terms once a change is made: those of a stored entry replace what it
/// had, a deleted entry has none.
pub open spec fn apply_terms(
    m: Terms,
    crawled: Seq<CrawledView>,
    change: EntryChange,
    fresh: i64,
    terms_of: spec_fn(CrawledView) -> Set<Seq<char>>,
) -> Terms {
    match change {
        EntryChange::Insert { entry } => m.insert(fresh, terms_of(crawled[entry as int])),
        EntryChange::Update { id, entry } => m.insert(id, terms_of(crawled[entry as int])),
        EntryChange::MarkDeleted { id } => m.remove(id),
    }
}

/// The terms once all changes are made, in order.
pub open spec fn apply_all_terms(
    m: Terms,
    crawled: Seq<CrawledView>,
    changes: Seq<EntryChange>,
    fresh: spec_fn(int) -> i64,
    terms_of: spec_fn(CrawledView) -> Set<Seq<char>>,
) -> Terms
    decreases changes.len(),
{
    if changes.len() == 0 {
        m
    } else {
        apply_terms(
            apply_all_terms(m, crawled, changes.drop_last(), fresh, terms_of),
            crawled,
            changes.last(),
            fresh(changes.len() - 1),
            terms_of,
        )
    }
}

/// Whether an id is that of a live entry.
pub open spec fn live_id(t: Table, id: i64) -> bool {
    exists|k: Seq<char>| #[trigger] t.contains_key(k) && t[k].id == id && !t[k].deleted
}

/// Whether exactly the live entries have terms.
pub open spec fn terms_match(t: Table, m: Terms) -> bool {
    forall|id: i64| #[trigger] m.contains_key(id) <==> live_id(t, id)
}

proof fn lemma_store_keeps_terms_match(
    r: Table,
    m: Terms,
    key: Seq<char>,
    entry: ExistingEntry,
    terms: Set<Seq<char>>,
)
    requires
        terms_match(r, m),
        distinct_ids(r),
        !entry.deleted,
        forall|k: Seq<char>|
            #[trigger] r.contains_key(k) && k != key ==> r[k].id != entry.id,
        r.contains_key(key) ==> r[key].id == entry.id,
    ensures
        terms_match(r.insert(key, entry), m.insert(entry.id, terms)),
{
    let s = r.insert(key, entry);
    let n = m.insert(entry.id, terms);
    assert forall|id: i64| #[trigger] n.contains_key(id) <==> live_id(s, id) by {
        if id == entry.id {
            assert(s.contains_key(key) && s[key].id == id);
        } else {
            assert(m.contains_key(id) <==> live_id(r, id));
            if live_id(r, id) {
                let k = choose|k: Seq<char>|
                    #[trigger] r.contains_key(k) && r[k].id == id && !r[k].deleted;
                assert(k != key);
                assert(s.contains_key(k) && s[k] == r[k]);
            }
            if live_id(s, id) {
                let k = choose|k: Seq<char>|
                    #[trigger] s.contains_key(k) && s[k].id == id && !s[k].deleted;
                assert(k != key);
                assert(r.contains_key(k) && r[k] == s[k]);
            }
        }
    }
}

proof fn lemma_mark_keeps_terms_match(r: Table, m: Terms, crawled: Seq<CrawledView>, id: i64)
    requires
        terms_match(r, m),
    ensures
        terms_match(apply(r, crawled, EntryChange::MarkDeleted { id }, 0), m.remove(id)),
{
    let s = apply(r, crawled, EntryChange::MarkDeleted { id }, 0);
    let n = m.remove(id);
    assert forall|i: i64| #[trigger] n.contains_key(i) <==> live_id(s, i) by {
        assert(m.contains_key(i) <==> live_id(r, i));
        if i != id && live_id(r, i) {
            let k = choose|k: Seq<char>| #[trigger] r.contains_key(k) && r[k].id == i && !r[k].deleted;
            assert(s.contains_key(k) && s[k] == r[k]);
        }
        if live_id(s, i) {
            let k = choose|k: Seq<char>| #[trigger] s.contains_key(k) && s[k].id == i && !s[k].deleted;
            assert(r.contains_key(k));
            assert(i != id);
            assert(r[k] == s[k]);
        }
    }
}

proof fn lemma_walk_terms(
    t: Table,
    m: Terms,
    crawled: Seq<CrawledView>,
    fresh: spec_fn(int) -> i64,
    terms_of: spec_fn(CrawledView) -> Set<Seq<char>>,
    n: nat,
)
    requires
        n <= crawled.len() <= usize::MAX,
        distinct_keys(crawled),
        distinct_ids(t),
        gives_fresh_ids(fresh, t, crawled.len()),
        terms_match(t, m),
    ensures
        ({
            let w = walk(t, crawled, n);
            terms_match(
                apply_all(t, crawled, w.changes, fresh),
                apply_all_terms(m, crawled, w.changes, fresh, terms_of),
            )
        }),
    decreases n,
{
    if n > 0 {
        let l = (n - 1) as nat;
        lemma_walk_terms(t, m, crawled, fresh, terms_of, l);
        lemma_walk(t, crawled, fresh, l);
        lemma_walk(t, crawled, fresh, n);
        let v = walk(t, crawled, l);
        let w = walk(t, crawled, n);
        let r = apply_all(t, crawled, v.changes, fresh);
        let rm = apply_all_terms(m, crawled, v.changes, fresh, terms_of);
        let entry = crawled[n - 1];
        let key = entry.key();
        let at = v.changes.len() as int;
        assert(!met(crawled, l, key)) by {
            if met(crawled, l, key) {
                let i = choose|i: int| 0 <= i < l && (#[trigger] crawled[i]).key() == key;
                assert(crawled[i].key() != crawled[n - 1].key());
            }
        }
        assert(v.remaining.contains_key(key) <==> t.contains_key(key));
        if w.changes.len() > v.changes.len() {
            assert(w.changes.drop_last() =~= v.changes);
            let id = if t.contains_key(key) {
                t[key].id
            } else {
                fresh(at)
            };
            assert forall|k: Seq<char>| #[trigger] r.contains_key(k) && k != key implies r[k].id
                != id by {
                assert(id_known(r[k].id, t, k, fresh, at));
                if t.contains_key(key) {
                    if t.contains_key(k) {
                        assert(t[k].id != t[key].id);
                    } else {
                        let j = choose|j: int| 0 <= j < at && r[k].id == #[trigger] fresh(j);
                        assert(t[key].id != fresh(j));
                    }
                } else {
                    if t.contains_key(k) {
                        assert(t[k].id != fresh(at));
                    } else {
                        let j = choose|j: int| 0 <= j < at && r[k].id == #[trigger] fresh(j);
                        assert(fresh(j) != fresh(at));
                    }
                }
            }
            if t.contains_key(key) {
                assert(r[key] == t[key]);
            } else {
                assert(!r.contains_key(key));
            }
            lemma_store_keeps_terms_match(r, rm, key, stored_as(entry, id), terms_of(entry));
            if t.contains_key(key) {
                assert(w.changes.last() == (EntryChange::Update { id, entry: l as usize }));
            } else {
                assert(w.changes.last() == (EntryChange::Insert { entry: l as usize }));
            }
        } else {
            assert(w.changes =~= v.changes);
        }
    }
}

proof fn lemma_removal_terms(
    t: Table,
    m: Terms,
    crawled: Seq<CrawledView>,
    changes: Seq<EntryChange>,
    keys: Seq<Seq<char>>,
    remaining: Table,
    fresh: spec_fn(int) -> i64,
    terms_of: spec_fn(CrawledView) -> Set<Seq<char>>,
    n: nat,
)
    requires
        n <= keys.len(),
        terms_match(
            apply_all(t, crawled, changes, fresh),
            apply_all_terms(m, crawled, changes, fresh, terms_of),
        ),
    ensures
        terms_match(
            apply_all(t, crawled, changes + removals(keys, remaining, n), fresh),
            apply_all_terms(m, crawled, changes + removals(keys, remaining, n), fresh, terms_of),
        ),
    decreases n,
{
    let b = changes + removals(keys, remaining, n);
    if n == 0 {
        assert(b =~= changes);
    } else {
        let l = (n - 1) as nat;
        lemma_removal_terms(t, m, crawled, changes, keys, remaining, fresh, terms_of, l);
        let a = changes + removals(keys, remaining, l);
        let key = keys[n - 1];
        if remaining.contains_key(key) && !remaining[key].deleted {
            assert(b.drop_last() =~= a);
            assert(b.last() == (EntryChange::MarkDeleted { id: remaining[key].id }));
            lemma_mark_keeps_terms_match(
                apply_all(t, crawled, a, fresh),
                apply_all_terms(m, crawled, a, fresh, terms_of),
                crawled,
                remaining[key].id,
            );
        } else {
            assert(b =~= a);
        }
    }
}

/// A refresh leaves no orphaned terms: if exactly the live entries had terms
/// before it, exactly the live entries have terms after it.
pub proof fn refresh_keeps_terms_with_live_entries(
    keys: Seq<Seq<char>>,
    t: Table,
    m: Terms,
    crawled: Seq<CrawledView>,
    fresh: spec_fn(int) -> i64,
    terms_of: spec_fn(CrawledView) -> Set<Seq<char>>,
)
    requires
        crawled.len() <= usize::MAX,
        lists(keys, t),
        distinct_keys(crawled),
        distinct_ids(t),
        gives_fresh_ids(fresh, t, crawled.len()),
        terms_match(t, m),
    ensures
        terms_match(
            refreshed(keys, t, crawled, fresh),
            apply_all_terms(m, crawled, plan_changes(keys, t, crawled), fresh, terms_of),
        ),
{
    let w = walk(t, crawled, crawled.len());
    lemma_walk_terms(t, m, crawled, fresh, terms_of, crawled.len());
    lemma_removal_terms(
        t,
        m,
        crawled,
        w.changes,
        keys,
        w.remaining,
        fresh,
        terms_of,
        keys.len(),
    );
}

} // verus!
