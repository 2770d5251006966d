//! Carrying out what a crawl of a root calls for: the statements, in order, and
//! what is to be found out between them.

use crate::index::refresh::{plan_changes, removals, walk, EntryChange, Table};
use crate::index::roots::{record_failed_scan_statement, record_failed_scan_view, record_full_scan_statement, record_full_scan_view, record_incremental_scan_statement, record_incremental_scan_view};
use crate::index::rows::{crawled_views, delete_entries_statement, delete_entries_view, delete_terms_view, entry_name, entry_terms, insert_entry_statement, insert_entry_view, insert_term_statements, insert_term_views, mark_deleted_statements, mark_entry_deleted_view, select_entry_id_statement, select_entry_id_view, stored_extension, term_rows, term_sources, terms_come_from_the_path, update_entry_statements, update_entry_view, CrawledEntry, CrawledView, TermView};
use crate::index::sql::{copy_statements, count_entries_statement, count_entries_view, statement_views, Statement, StatementView};
use crate::model::texts;
use crate::path::{components, extension, file_name, utf8_text};
use crate::policy::lowercase_extension;
use crate::text::ascii_lower_text;
use vstd::prelude::*;
use vstd::utf8::{decode_utf8, valid_utf8};

verus! {

/// How a crawl of a root is recorded.
#[derive(Debug, Clone, Copy, PartialEq, Eq, Structural)]
pub enum ScanRecord {
    /// The root was crawled for a rebuild.
    Full,
    /// The root was crawled for a refresh.
    Incremental,
    /// The crawl met errors.
    Failed,
}

/// How far the work on a root has come.
#[derive(Debug, Clone, Copy, PartialEq, Eq, Structural)]
pub enum WorkStage {
    /// What is stored of the root is to be removed.
    Clear,
    /// The change at this place is to be begun.
    Change(usize),
    /// The change at this place stored a new entry, whose id is to be found.
    Find(usize),
    /// The change at this place stored a new entry under this id; its terms are
    /// to be split.
    Split(usize, i64),
    /// The statements that end the change at this place are to be run.
    Store(usize),
    /// The live entries are to be counted.
    Count,
    /// The crawl is to be recorded with this count.
    Record(i64),
    /// All is done.
    Done,
}

/// What the work on a root asks for.
#[derive(Debug)]
pub enum WorkRequest {
    /// Run the statements, in order.
    Run(Vec<Statement>),
    /// Find the number that the statement gives: the id of an entry.
    EntryId(Statement),
    /// Split the name, and each of the components, into terms.
    Terms { name: String, components: Vec<String> },
    /// Find the number that the statement gives: how many entries are live.
    Count(Statement),
    /// All is done.
    Done,
}

/// What a [`WorkRequest`] says.
pub enum WorkRequestView {
    Run(Seq<StatementView>),
    EntryId(StatementView),
    Terms { name: Seq<char>, components: Seq<Seq<char>> },
    Count(StatementView),
    Done,
}

impl View for WorkRequest {
    type V = WorkRequestView;

    open spec fn view(&self) -> WorkRequestView {
        match self {
            WorkRequest::Run(statements) => WorkRequestView::Run(statement_views(statements@)),
            WorkRequest::EntryId(statement) => WorkRequestView::EntryId(statement@),
            WorkRequest::Terms { name, components } => WorkRequestView::Terms {
                name: name@,
                components: texts(components@),
            },
            WorkRequest::Count(statement) => WorkRequestView::Count(statement@),
            WorkRequest::Done => WorkRequestView::Done,
        }
    }
}

/// The place of the entry that a change is about; of a deletion, none.
pub open spec fn entry_at(change: EntryChange) -> Option<usize> {
    match change {
        EntryChange::Insert { entry } => Some(entry),
        EntryChange::Update { entry, .. } => Some(entry),
        EntryChange::MarkDeleted { .. } => None,
    }
}

/// Whether changes are about entries that were crawled.
pub open spec fn in_range(changes: Seq<EntryChange>, count: nat) -> bool {
    forall|k: int|
        0 <= k < changes.len() ==> match entry_at(#[trigger] changes[k]) {
            Some(entry) => entry < count,
            None => true,
        }
}

/// The statements that mark an entry as deleted and remove its terms.
pub open spec fn deletion(id: i64, now: i64) -> Seq<StatementView> {
    seq![mark_entry_deleted_view(id, now), delete_terms_view(id)]
}

/// The work on a root.
#[verifier::ext_equal]
pub struct WorkView {
    pub root_id: i64,
    pub now: i64,
    pub record: ScanRecord,
    pub entries: Seq<CrawledView>,
    pub changes: Seq<EntryChange>,
    pub stage: WorkStage,
    /// The statements that end the change that is under way.
    pub pending: Seq<StatementView>,
}

impl WorkView {
    /// Whether the changes are about entries of the crawl, and the stage about
    /// a change of the kind that it is for.
    pub open spec fn wf(self) -> bool {
        &&& in_range(self.changes, self.entries.len())
        &&& self.changes.len() <= usize::MAX
        &&& match self.stage {
            WorkStage::Change(k) => k < self.changes.len(),
            WorkStage::Find(k) => k < self.changes.len() && self.changes[k as int] is Insert,
            WorkStage::Split(k, _) => k < self.changes.len() && self.changes[k as int] is Insert,
            WorkStage::Store(k) => k < self.changes.len(),
            _ => true,
        }
    }

    /// The stage at which a change is begun; after the last the entries are
    /// counted.
    pub open spec fn from_change(self, k: int) -> WorkStage {
        if k < self.changes.len() {
            WorkStage::Change(k as usize)
        } else {
            WorkStage::Count
        }
    }

    /// The entry that a change is about.
    pub open spec fn entry(self, k: usize) -> CrawledView {
        self.entries[entry_at(self.changes[k as int])->0 as int]
    }

    /// The work after a crawl without errors for a rebuild: all that is stored
    /// is removed, and every entry stored.
    pub open spec fn replace(root_id: i64, now: i64, entries: Seq<CrawledView>) -> WorkView {
        WorkView {
            root_id,
            now,
            record: ScanRecord::Full,
            entries,
            changes: Seq::new(entries.len(), |i: int| EntryChange::Insert { entry: i as usize }),
            stage: WorkStage::Clear,
            pending: Seq::empty(),
        }
    }

    /// The work after a crawl without errors for a refresh: the changes are
    /// made.
    pub open spec fn apply(
        root_id: i64,
        now: i64,
        entries: Seq<CrawledView>,
        changes: Seq<EntryChange>,
    ) -> WorkView {
        WorkView {
            root_id,
            now,
            record: ScanRecord::Incremental,
            entries,
            changes,
            stage: if changes.len() > 0 {
                WorkStage::Change(0)
            } else {
                WorkStage::Count
            },
            pending: Seq::empty(),
        }
    }

    /// The work after a crawl with errors: nothing that is stored of the
    /// entries changes.
    pub open spec fn failed(root_id: i64, now: i64) -> WorkView {
        WorkView {
            root_id,
            now,
            record: ScanRecord::Failed,
            entries: Seq::empty(),
            changes: Seq::empty(),
            stage: WorkStage::Count,
            pending: Seq::empty(),
        }
    }

    /// The statement that records the crawl.
    pub open spec fn recording(self, count: i64) -> StatementView {
        match self.record {
            ScanRecord::Full => record_full_scan_view(self.root_id, self.now, count),
            ScanRecord::Incremental => record_incremental_scan_view(self.root_id, self.now, count),
            ScanRecord::Failed => record_failed_scan_view(self.root_id, count),
        }
    }

    /// The texts of an entry that are split into terms.
    pub open spec fn splitting(entry: CrawledView) -> WorkRequestView {
        WorkRequestView::Terms {
            name: entry_name(entry.path),
            components: components(entry.path).filter_map(|piece: Seq<u8>| utf8_text(piece)),
        }
    }

    /// What is asked for next.
    pub open spec fn request(self) -> WorkRequestView {
        match self.stage {
            WorkStage::Clear => WorkRequestView::Run(seq![delete_entries_view(self.root_id)]),
            WorkStage::Change(k) => match self.changes[k as int] {
                EntryChange::Insert { entry } => WorkRequestView::Run(
                    seq![insert_entry_view(self.root_id, self.entries[entry as int], self.now)],
                ),
                EntryChange::Update { entry, .. } => WorkView::splitting(
                    self.entries[entry as int],
                ),
                EntryChange::MarkDeleted { id } => WorkRequestView::Run(deletion(id, self.now)),
            },
            WorkStage::Find(k) => WorkRequestView::EntryId(
                select_entry_id_view(self.root_id, self.entry(k)),
            ),
            WorkStage::Split(k, _) => WorkView::splitting(self.entry(k)),
            WorkStage::Store(_) => WorkRequestView::Run(self.pending),
            WorkStage::Count => WorkRequestView::Count(count_entries_view(self.root_id)),
            WorkStage::Record(count) => WorkRequestView::Run(seq![self.recording(count)]),
            WorkStage::Done => WorkRequestView::Done,
        }
    }

    /// The work once statements were run.
    pub open spec fn after_run(self) -> WorkView {
        WorkView {
            stage: match self.stage {
                WorkStage::Clear => self.from_change(0),
                WorkStage::Change(k) => match self.changes[k as int] {
                    EntryChange::Insert { .. } => WorkStage::Find(k),
                    _ => self.from_change(k + 1),
                },
                WorkStage::Store(k) => self.from_change(k + 1),
                WorkStage::Record(_) => WorkStage::Done,
                other => other,
            },
            pending: Seq::empty(),
            ..self
        }
    }

    /// The work once the id of a new entry was found.
    pub open spec fn after_entry_id(self, id: i64) -> WorkView {
        WorkView {
            stage: match self.stage {
                WorkStage::Find(k) => WorkStage::Split(k, id),
                other => other,
            },
            ..self
        }
    }

    /// The work once an entry's texts were split into terms.
    pub open spec fn after_terms(
        self,
        name_terms: Seq<Seq<char>>,
        component_terms: Seq<Vec<String>>,
    ) -> WorkView {
        match self.stage {
            WorkStage::Split(k, id) => WorkView {
                stage: WorkStage::Store(k),
                pending: insert_term_views(
                    id,
                    entry_terms(
                        name_terms,
                        lowercase_extension(self.entry(k).path),
                        component_terms,
                    ),
                ),
                ..self
            },
            WorkStage::Change(k) => match self.changes[k as int] {
                EntryChange::Update { id, .. } => WorkView {
                    stage: WorkStage::Store(k),
                    pending: seq![
                        update_entry_view(id, self.entry(k), self.now),
                        delete_terms_view(id),
                    ] + insert_term_views(
                        id,
                        entry_terms(
                            name_terms,
                            lowercase_extension(self.entry(k).path),
                            component_terms,
                        ),
                    ),
                    ..self
                },
                _ => self,
            },
            _ => self,
        }
    }

    /// The work once the live entries were counted.
    pub open spec fn after_count(self, count: i64) -> WorkView {
        WorkView { stage: WorkStage::Record(count), ..self }
    }
}

/// The work on a root.
#[derive(Debug)]
pub struct RootWork {
    root_id: i64,
    now: i64,
    record: ScanRecord,
    entries: Vec<CrawledEntry>,
    changes: Vec<EntryChange>,
    stage: WorkStage,
    pending: Vec<Statement>,
}

impl View for RootWork {
    type V = WorkView;

    closed spec fn view(&self) -> WorkView {
        WorkView {
            root_id: self.root_id,
            now: self.now,
            record: self.record,
            entries: crawled_views(self.entries@),
            changes: self.changes@,
            stage: self.stage,
            pending: statement_views(self.pending@),
        }
    }
}

proof fn lemma_walk_in_range(t: Table, crawled: Seq<CrawledView>, n: nat)
    requires
        n <= crawled.len() <= usize::MAX,
    ensures
        in_range(walk(t, crawled, n).changes, crawled.len()),
    decreases n,
{
    if n > 0 {
        lemma_walk_in_range(t, crawled, (n - 1) as nat);
        let before = walk(t, crawled, (n - 1) as nat).changes;
        let after = walk(t, crawled, n).changes;
        assert forall|k: int| 0 <= k < after.len() implies match entry_at(#[trigger] after[k]) {
            Some(entry) => entry < crawled.len(),
            None => true,
        } by {
            if k < before.len() {
                assert(after[k] == before[k]);
            }
        }
    }
}

proof fn lemma_removals_in_range(keys: Seq<Seq<char>>, t: Table, n: nat, count: nat)
    ensures
        in_range(removals(keys, t, n), count),
    decreases n,
{
    if n > 0 {
        lemma_removals_in_range(keys, t, (n - 1) as nat, count);
        let before = removals(keys, t, (n - 1) as nat);
        let after = removals(keys, t, n);
        assert forall|k: int| 0 <= k < after.len() implies match entry_at(#[trigger] after[k]) {
            Some(entry) => entry < count,
            None => true,
        } by {
            if k < before.len() {
                assert(after[k] == before[k]);
            }
        }
    }
}

/// The changes of a refresh are about entries that were crawled.
pub proof fn lemma_plan_in_range(keys: Seq<Seq<char>>, t: Table, crawled: Seq<CrawledView>)
    requires
        crawled.len() <= usize::MAX,
    ensures
        in_range(plan_changes(keys, t, crawled), crawled.len()),
{
    let w = walk(t, crawled, crawled.len());
    let r = removals(keys, w.remaining, keys.len());
    lemma_walk_in_range(t, crawled, crawled.len());
    lemma_removals_in_range(keys, w.remaining, keys.len(), crawled.len());
    let all = plan_changes(keys, t, crawled);
    assert forall|k: int| 0 <= k < all.len() implies match entry_at(#[trigger] all[k]) {
        Some(entry) => entry < crawled.len(),
        None => true,
    } by {
        if k < w.changes.len() {
            assert(all[k] == w.changes[k]);
        } else {
            assert(all[k] == r[k - w.changes.len()]);
        }
    }
}

impl RootWork {
    /// The work after a crawl without errors for a rebuild.
    pub fn replace(root_id: i64, now: i64, entries: Vec<CrawledEntry>) -> (r: Self)
        ensures
            r@.wf(),
            r@ == WorkView::replace(root_id, now, crawled_views(entries@)),
    {
        let mut changes: Vec<EntryChange> = Vec::new();
        let mut i: usize = 0;
        while i < entries.len()
            invariant
                i <= entries.len(),
                changes@ == Seq::new(i as nat, |k: int| EntryChange::Insert { entry: k as usize }),
            decreases entries.len() - i,
        {
            changes.push(EntryChange::Insert { entry: i });
            i += 1;
            assert(changes@ =~= Seq::new(
                i as nat,
                |k: int| EntryChange::Insert { entry: k as usize },
            ));
        }
        assert(changes@.len() == changes.len());
        let r = RootWork {
            root_id,
            now,
            record: ScanRecord::Full,
            entries,
            changes,
            stage: WorkStage::Clear,
            pending: Vec::new(),
        };
        assert(r@ =~= WorkView::replace(root_id, now, crawled_views(entries@)));
        r
    }

    /// The work after a crawl without errors for a refresh.
    pub fn apply(
        root_id: i64,
        now: i64,
        entries: Vec<CrawledEntry>,
        changes: Vec<EntryChange>,
    ) -> (r: Self)
        requires
            in_range(changes@, entries@.len()),
        ensures
            r@.wf(),
            r@ == WorkView::apply(root_id, now, crawled_views(entries@), changes@),
    {
        let stage = if changes.len() > 0 {
            WorkStage::Change(0)
        } else {
            WorkStage::Count
        };
        assert(changes@.len() == changes.len());
        let r = RootWork {
            root_id,
            now,
            record: ScanRecord::Incremental,
            entries,
            changes,
            stage,
            pending: Vec::new(),
        };
        assert(r@ =~= WorkView::apply(root_id, now, crawled_views(entries@), changes@));
        r
    }

    /// The work after a crawl with errors.
    pub fn failed(root_id: i64, now: i64) -> (r: Self)
        ensures
            r@.wf(),
            r@ == WorkView::failed(root_id, now),
    {
        let r = RootWork {
            root_id,
            now,
            record: ScanRecord::Failed,
            entries: Vec::new(),
            changes: Vec::new(),
            stage: WorkStage::Count,
            pending: Vec::new(),
        };
        assert(r@ =~= WorkView::failed(root_id, now));
        r
    }

    fn entry_of(&self, k: usize) -> (r: &CrawledEntry)
        requires
            self@.wf(),
            k < self@.changes.len(),
            entry_at(self@.changes[k as int]) is Some,
        ensures
            r@ == self@.entry(k),
    {
        match self.changes[k] {
            EntryChange::Insert { entry } => &self.entries[entry],
            EntryChange::Update { id: _, entry } => &self.entries[entry],
            EntryChange::MarkDeleted { id: _ } => {
                assert(false);
                &self.entries[0]
            },
        }
    }

    fn split_entry(entry: &CrawledEntry) -> (r: WorkRequest)
        ensures
            r@ == WorkView::splitting(entry@),
    {
        let sources = term_sources(&entry.path);
        WorkRequest::Terms { name: sources.name, components: sources.components }
    }

    /// What to do next.
    pub fn request(&self) -> (r: WorkRequest)
        requires
            self@.wf(),
        ensures
            r@ == self@.request(),
    {
        match self.stage {
            WorkStage::Clear => {
                let statements: Vec<Statement> = vec![delete_entries_statement(self.root_id)];
                assert(statement_views(statements@) =~= seq![delete_entries_view(self.root_id)]);
                WorkRequest::Run(statements)
            },
            WorkStage::Change(k) => match self.changes[k] {
                EntryChange::Insert { entry } => {
                    let statements: Vec<Statement> = vec![
                        insert_entry_statement(self.root_id, &self.entries[entry], self.now),
                    ];
                    assert(statement_views(statements@) =~= seq![
                        insert_entry_view(self.root_id, self@.entries[entry as int], self.now),
                    ]);
                    WorkRequest::Run(statements)
                },
                EntryChange::Update { id: _, entry } => Self::split_entry(&self.entries[entry]),
                EntryChange::MarkDeleted { id } => WorkRequest::Run(
                    mark_deleted_statements(id, self.now),
                ),
            },
            WorkStage::Find(k) => WorkRequest::EntryId(
                select_entry_id_statement(self.root_id, self.entry_of(k)),
            ),
            WorkStage::Split(k, _) => Self::split_entry(self.entry_of(k)),
            WorkStage::Store(_) => WorkRequest::Run(copy_statements(&self.pending)),
            WorkStage::Count => WorkRequest::Count(count_entries_statement(self.root_id)),
            WorkStage::Record(count) => {
                let statement = match self.record {
                    ScanRecord::Full => record_full_scan_statement(self.root_id, self.now, count),
                    ScanRecord::Incremental => record_incremental_scan_statement(
                        self.root_id,
                        self.now,
                        count,
                    ),
                    ScanRecord::Failed => record_failed_scan_statement(self.root_id, count),
                };
                let ghost view = statement@;
                let statements: Vec<Statement> = vec![statement];
                assert(statement_views(statements@) =~= seq![view]);
                WorkRequest::Run(statements)
            },
            WorkStage::Done => WorkRequest::Done,
        }
    }

    fn stage_from(&self, k: usize) -> (r: WorkStage)
        ensures
            r == self@.from_change(k as int),
    {
        if k < self.changes.len() {
            WorkStage::Change(k)
        } else {
            WorkStage::Count
        }
    }

    /// The statements were run.
    pub fn on_run(&mut self)
        requires
            old(self)@.wf(),
            old(self)@.request() is Run,
        ensures
            final(self)@.wf(),
            final(self)@ == old(self)@.after_run(),
    {
        self.stage = match self.stage {
            WorkStage::Clear => self.stage_from(0),
            WorkStage::Change(k) => {
                assert(k < self.changes.len());
                match self.changes[k] {
                    EntryChange::Insert { .. } => WorkStage::Find(k),
                    _ => self.stage_from(k + 1),
                }
            },
            WorkStage::Store(k) => {
                assert(k < self.changes.len());
                self.stage_from(k + 1)
            },
            WorkStage::Record(_) => WorkStage::Done,
            other => other,
        };
        self.pending = Vec::new();
        assert(self@ =~= old(self)@.after_run());
    }

    /// The id of a new entry was found.
    pub fn on_entry_id(&mut self, id: i64)
        requires
            old(self)@.wf(),
            old(self)@.request() is EntryId,
        ensures
            final(self)@.wf(),
            final(self)@ == old(self)@.after_entry_id(id),
    {
        self.stage = match self.stage {
            WorkStage::Find(k) => WorkStage::Split(k, id),
            other => other,
        };
    }

    /// The name and the components of an entry were split into terms.
    pub fn on_terms(&mut self, name_terms: &Vec<String>, component_terms: &Vec<Vec<String>>)
        requires
            old(self)@.wf(),
            old(self)@.request() is Terms,
        ensures
            final(self)@.wf(),
            final(self)@ == old(self)@.after_terms(texts(name_terms@), component_terms@),
    {
        match self.stage {
            WorkStage::Split(k, id) => {
                let extension = stored_extension(&self.entry_of(k).path);
                let rows = term_rows(name_terms, extension, component_terms);
                self.pending = insert_term_statements(id, &rows);
                self.stage = WorkStage::Store(k);
            },
            WorkStage::Change(k) => {
                match self.changes[k] {
                    EntryChange::Update { id, entry } => {
                        let extension = stored_extension(&self.entries[entry].path);
                        let rows = term_rows(name_terms, extension, component_terms);
                        self.pending = update_entry_statements(
                            id,
                            &self.entries[entry],
                            self.now,
                            &rows,
                        );
                        self.stage = WorkStage::Store(k);
                    },
                    _ => {},
                }
            },
            _ => {},
        }
        assert(self@ =~= old(self)@.after_terms(texts(name_terms@), component_terms@));
    }

    /// The live entries were counted.
    pub fn on_count(&mut self, count: i64)
        requires
            old(self)@.wf(),
            old(self)@.request() is Count,
        ensures
            final(self)@.wf(),
            final(self)@ == old(self)@.after_count(count),
    {
        self.stage = WorkStage::Record(count);
    }
}

/// What is found out while the work on a root is done: the id of the entry that
/// the change at a place stored, the terms that the name and the components of
/// its entry were split into, and the count of the live entries.
pub struct Answers {
    pub entry_id: spec_fn(int) -> i64,
    pub name_terms: spec_fn(int) -> Seq<Seq<char>>,
    pub component_terms: spec_fn(int) -> Seq<Vec<String>>,
    pub count: i64,
}

impl WorkView {
    /// The change that is under way.
    pub open spec fn place(self) -> int {
        match self.stage {
            WorkStage::Change(k) => k as int,
            WorkStage::Find(k) => k as int,
            WorkStage::Split(k, _) => k as int,
            WorkStage::Store(k) => k as int,
            _ => 0,
        }
    }

    /// The work after its request is answered.
    pub open spec fn next(self, answers: Answers) -> WorkView {
        match self.request() {
            WorkRequestView::Run(_) => self.after_run(),
            WorkRequestView::EntryId(_) => self.after_entry_id((answers.entry_id)(self.place())),
            WorkRequestView::Terms { .. } => self.after_terms(
                (answers.name_terms)(self.place()),
                (answers.component_terms)(self.place()),
            ),
            WorkRequestView::Count(_) => self.after_count(answers.count),
            WorkRequestView::Done => self,
        }
    }

    /// How many requests can follow at most.
    pub open spec fn distance(self) -> nat {
        let left = if self.place() < self.changes.len() {
            4 * (self.changes.len() - self.place())
        } else {
            0
        };
        match self.stage {
            WorkStage::Clear => (4 * self.changes.len() + 4) as nat,
            WorkStage::Change(_) => (left + 3) as nat,
            WorkStage::Find(_) => (left + 2) as nat,
            WorkStage::Split(_, _) => (left + 1) as nat,
            WorkStage::Store(_) => left as nat,
            WorkStage::Count => 2,
            WorkStage::Record(_) => 1,
            WorkStage::Done => 0,
        }
    }

    /// The statements that are run from here to the end, in order; lookups and
    /// counts, which change nothing, are not among them.
    pub open spec fn statements(self, answers: Answers) -> Seq<StatementView>
        decreases self.distance(),
        when self.wf()
    {
        if self.stage == WorkStage::Done {
            Seq::empty()
        } else {
            let later = self.next(answers).statements(answers);
            match self.request() {
                WorkRequestView::Run(now) => now + later,
                _ => later,
            }
        }
    }

    /// The terms of the entry that the change at a place is about.
    pub open spec fn terms(self, answers: Answers, k: int) -> Seq<TermView> {
        entry_terms(
            (answers.name_terms)(k),
            lowercase_extension(self.entry(k as usize).path),
            (answers.component_terms)(k),
        )
    }

    /// The statements of one change: a new entry is stored with its terms, a
    /// changed one is stored anew with its terms in place of those it had, a
    /// missing one is marked as deleted and loses its terms.
    pub open spec fn change_statements(self, answers: Answers, k: int) -> Seq<StatementView> {
        match self.changes[k] {
            EntryChange::Insert { entry } => seq![
                insert_entry_view(self.root_id, self.entries[entry as int], self.now),
            ] + insert_term_views((answers.entry_id)(k), self.terms(answers, k)),
            EntryChange::Update { id, entry } => seq![
                update_entry_view(id, self.entries[entry as int], self.now),
                delete_terms_view(id),
            ] + insert_term_views(id, self.terms(answers, k)),
            EntryChange::MarkDeleted { id } => deletion(id, self.now),
        }
    }

    /// The statements of the changes from a place on.
    pub open spec fn changes_from(self, answers: Answers, k: int) -> Seq<StatementView>
        decreases self.changes.len() - k,
    {
        if k < self.changes.len() {
            self.change_statements(answers, k) + self.changes_from(answers, k + 1)
        } else {
            Seq::empty()
        }
    }
}

proof fn lemma_next_keeps(v: WorkView, answers: Answers)
    requires
        v.wf(),
        v.stage != WorkStage::Done,
    ensures
        v.next(answers).wf(),
        v.next(answers).distance() < v.distance(),
{
}

/// Work that has come to a stage, with nothing pending.
spec fn at_stage(v: WorkView, stage: WorkStage) -> WorkView {
    WorkView { stage, pending: Seq::empty(), ..v }
}

proof fn lemma_insert(v: WorkView, answers: Answers, k: usize)
    requires
        v.wf(),
        v.stage == WorkStage::Change(k),
        v.changes[k as int] is Insert,
    ensures
        v.statements(answers) == v.change_statements(answers, k as int) + at_stage(
            v,
            v.from_change(k + 1),
        ).statements(answers),
{
    let a = v.next(answers);
    let b = a.next(answers);
    let c = b.next(answers);
    let d = at_stage(v, v.from_change(k + 1));
    lemma_next_keeps(v, answers);
    lemma_next_keeps(a, answers);
    lemma_next_keeps(b, answers);
    assert(c.next(answers) =~= d);
    let stored = seq![insert_entry_view(v.root_id, v.entry(k), v.now)];
    let split = insert_term_views((answers.entry_id)(k as int), v.terms(answers, k as int));
    assert(c.pending == split);
    assert(c.statements(answers) == split + d.statements(answers));
    assert(b.statements(answers) == c.statements(answers));
    assert(a.statements(answers) == b.statements(answers));
    assert(v.statements(answers) == stored + a.statements(answers));
    assert(stored + (split + d.statements(answers)) =~= stored + split + d.statements(answers));
}

proof fn lemma_update(v: WorkView, answers: Answers, k: usize)
    requires
        v.wf(),
        v.stage == WorkStage::Change(k),
        v.changes[k as int] is Update,
    ensures
        v.statements(answers) == v.change_statements(answers, k as int) + at_stage(
            v,
            v.from_change(k + 1),
        ).statements(answers),
{
    let a = v.next(answers);
    let b = at_stage(v, v.from_change(k + 1));
    lemma_next_keeps(v, answers);
    assert(a.next(answers) =~= b);
    assert(a.pending == v.change_statements(answers, k as int));
    assert(a.statements(answers) == a.pending + b.statements(answers));
    assert(v.statements(answers) == a.statements(answers));
}

proof fn lemma_delete(v: WorkView, answers: Answers, k: usize)
    requires
        v.wf(),
        v.stage == WorkStage::Change(k),
        v.changes[k as int] is MarkDeleted,
    ensures
        v.statements(answers) == v.change_statements(answers, k as int) + at_stage(
            v,
            v.from_change(k + 1),
        ).statements(answers),
{
    let b = at_stage(v, v.from_change(k + 1));
    assert(v.next(answers) =~= b);
}

proof fn lemma_changes_from(v: WorkView, answers: Answers, k: int)
    requires
        v.wf(),
        0 <= k <= v.changes.len(),
        v.stage == v.from_change(k),
    ensures
        v.statements(answers) == v.changes_from(answers, k) + seq![v.recording(answers.count)],
    decreases v.changes.len() - k,
{
    let last = seq![v.recording(answers.count)];
    if k == v.changes.len() {
        let w = v.next(answers);
        let d = w.next(answers);
        assert(d.statements(answers) =~= Seq::empty());
        assert(w.statements(answers) =~= last);
        assert(v.statements(answers) == w.statements(answers));
        assert(v.changes_from(answers, k) + last =~= last);
    } else {
        let at = k as usize;
        match v.changes[k] {
            EntryChange::Insert { .. } => lemma_insert(v, answers, at),
            EntryChange::Update { .. } => lemma_update(v, answers, at),
            EntryChange::MarkDeleted { .. } => lemma_delete(v, answers, at),
        }
        let w = at_stage(v, v.from_change(k + 1));
        lemma_changes_from(w, answers, k + 1);
        lemma_changes_agree(v, w, answers, k + 1);
        let one = v.change_statements(answers, k);
        let rest = v.changes_from(answers, k + 1);
        assert(one + (rest + last) =~= one + rest + last);
    }
}

/// The statements of changes do not depend on how far the work has come.
proof fn lemma_changes_agree(v: WorkView, w: WorkView, answers: Answers, k: int)
    requires
        w == (WorkView { stage: w.stage, pending: w.pending, ..v }),
    ensures
        v.changes_from(answers, k) == w.changes_from(answers, k),
    decreases v.changes.len() - k,
{
    if k < v.changes.len() {
        lemma_changes_agree(v, w, answers, k + 1);
        assert(v.change_statements(answers, k) == w.change_statements(answers, k));
    }
}

/// After a crawl with errors nothing is written but that the root is dirty: what
/// is stored of its entries stays as it is.
pub proof fn a_failed_crawl_leaves_entries_alone(root_id: i64, now: i64, answers: Answers)
    ensures
        WorkView::failed(root_id, now).statements(answers) == seq![
            record_failed_scan_view(root_id, answers.count),
        ],
{
    let v = WorkView::failed(root_id, now);
    lemma_changes_from(v, answers, 0);
    assert(v.statements(answers) =~= seq![record_failed_scan_view(root_id, answers.count)]);
}

/// A rebuild removes what is stored of a root, stores every entry of the crawl
/// with its terms, and records the scan.
pub proof fn a_rebuild_replaces_the_entries(
    root_id: i64,
    now: i64,
    entries: Seq<CrawledView>,
    answers: Answers,
)
    requires
        entries.len() <= usize::MAX,
    ensures
        ({
            let v = WorkView::replace(root_id, now, entries);
            v.statements(answers) == seq![delete_entries_view(root_id)] + v.changes_from(answers, 0)
                + seq![record_full_scan_view(root_id, now, answers.count)]
        }),
{
    let v = WorkView::replace(root_id, now, entries);
    lemma_next_keeps(v, answers);
    let w = v.next(answers);
    lemma_changes_from(w, answers, 0);
    lemma_changes_agree(v, w, answers, 0);
    let last = seq![record_full_scan_view(root_id, now, answers.count)];
    let clear = seq![delete_entries_view(root_id)];
    assert(v.statements(answers) =~= clear + w.statements(answers));
    assert(clear + (v.changes_from(answers, 0) + last) =~= clear + v.changes_from(answers, 0)
        + last);
}

/// A refresh makes its changes, in order, and records the scan.
pub proof fn a_refresh_makes_its_changes(
    root_id: i64,
    now: i64,
    entries: Seq<CrawledView>,
    changes: Seq<EntryChange>,
    answers: Answers,
)
    requires
        in_range(changes, entries.len()),
        changes.len() <= usize::MAX,
    ensures
        ({
            let v = WorkView::apply(root_id, now, entries, changes);
            v.statements(answers) == v.changes_from(answers, 0) + seq![
                record_incremental_scan_view(root_id, now, answers.count),
            ]
        }),
{
    let v = WorkView::apply(root_id, now, entries, changes);
    lemma_changes_from(v, answers, 0);
}

/// The texts of an entry that are split: its file name, and those of its
/// components that are UTF-8, in their order, the root's slash among them.
pub proof fn names_and_components_are_split(entry: CrawledView)
    ensures
        ({
            let asked = WorkView::splitting(entry);
            &&& asked is Terms
            &&& asked->name == match file_name(entry.path) {
                Some(last) => match utf8_text(last) {
                    Some(text) => text,
                    None => Seq::<char>::empty(),
                },
                None => Seq::<char>::empty(),
            }
            &&& asked->components == utf8_components(components(entry.path))
        }),
{
    lemma_utf8_components(components(entry.path));
}

/// The texts of those components that are UTF-8.
pub open spec fn utf8_components(pieces: Seq<Seq<u8>>) -> Seq<Seq<char>>
    decreases pieces.len(),
{
    if pieces.len() == 0 {
        Seq::empty()
    } else if valid_utf8(pieces.last()) {
        utf8_components(pieces.drop_last()).push(decode_utf8(pieces.last()))
    } else {
        utf8_components(pieces.drop_last())
    }
}

proof fn lemma_utf8_components(pieces: Seq<Seq<u8>>)
    ensures
        pieces.filter_map(|piece: Seq<u8>| utf8_text(piece)) == utf8_components(pieces),
    decreases pieces.len(),
{
    if pieces.len() > 0 {
        lemma_utf8_components(pieces.drop_last());
    }
    assert(pieces.filter_map(|piece: Seq<u8>| utf8_text(piece)) =~= utf8_components(pieces));
}

/// The terms that a change stores are those of its entry: those that its name was
/// split into, its own extension in lower case, and those that its components
/// were split into.
pub proof fn changes_store_the_terms_of_their_entry(
    work: WorkView,
    answers: Answers,
    k: usize,
    row: TermView,
)
    requires
        k < work.changes.len(),
        entry_at(work.changes[k as int]) is Some,
    ensures
        ({
            let path = work.entries[entry_at(work.changes[k as int])->0 as int].path;
            let names = (answers.name_terms)(k as int);
            let pieces = (answers.component_terms)(k as int);
            work.terms(answers, k as int).contains(row) <==> {
                ||| row.field == 1 && row.weight == 100 && names.contains(row.term)
                ||| row.field == 2 && row.weight == 50 && extension(path) is Some && utf8_text(
                    extension(path)->0,
                ) is Some && row.term == ascii_lower_text(utf8_text(extension(path)->0)->0)
                ||| row.field == 3 && row.weight == 10 && exists|i: int, j: int|
                    0 <= i < pieces.len() && 0 <= j < pieces[i]@.len() && #[trigger] pieces[i]@[j]@
                        == row.term
            }
        }),
        entry_at(work.changes[k as int]) == match work.changes[k as int] {
            EntryChange::Insert { entry } => Some(entry),
            EntryChange::Update { id: _, entry } => Some(entry),
            EntryChange::MarkDeleted { id: _ } => None,
        },
{
    let path = work.entries[entry_at(work.changes[k as int])->0 as int].path;
    terms_come_from_the_path(
        (answers.name_terms)(k as int),
        lowercase_extension(path),
        (answers.component_terms)(k as int),
        row,
    );
}

} // verus!
