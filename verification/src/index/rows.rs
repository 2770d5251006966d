//! The rows of the index: what is stored of an entry, and the statements that
//! store and read it.

use crate::index::sql::{flag, flag_value, integer_or_null, optional_integer, optional_text, statement_views, text_or_null, values, SqlValue, Statement, StatementView, ValueView};
use crate::model::{texts, EntryKind, PolicyDecision};
use crate::path::{components, lossy_utf8, text_view, utf8_text, FilePath};
use crate::policy::{file_name_text, lowercase_extension};
use crate::text::{ascii_lower_text, to_ascii_lower};
use vstd::prelude::*;

verus! {

/// The number that stands for a kind in the database.
pub open spec fn kind_number(kind: EntryKind) -> i64 {
    match kind {
        EntryKind::File => 1,
        EntryKind::Directory => 2,
        EntryKind::Other => 3,
    }
}

/// The kind that a number of the database stands for.
pub open spec fn number_kind(value: i64) -> EntryKind {
    if value == 1 {
        EntryKind::File
    } else if value == 2 {
        EntryKind::Directory
    } else {
        EntryKind::Other
    }
}

/// The number of a kind.
pub fn kind_to_int(kind: EntryKind) -> (r: i64)
    ensures
        r == kind_number(kind),
{
    match kind {
        EntryKind::File => 1,
        EntryKind::Directory => 2,
        EntryKind::Other => 3,
    }
}

/// The kind of a number.
pub fn int_to_kind(value: i64) -> (r: EntryKind)
    ensures
        r == number_kind(value),
{
    if value == 1 {
        EntryKind::File
    } else if value == 2 {
        EntryKind::Directory
    } else {
        EntryKind::Other
    }
}

/// A kind survives being stored.
pub proof fn kind_round_trips(kind: EntryKind)
    ensures
        number_kind(kind_number(kind)) == kind,
{
}

/// An entry that a crawl found, with the policy's decision on it.
#[derive(Debug)]
pub struct CrawledEntry {
    pub path: FilePath,
    pub kind: EntryKind,
    pub size: Option<u64>,
    pub mtime: Option<i64>,
    pub decision: PolicyDecision,
}

/// What the index keeps of a [`CrawledEntry`].
pub struct CrawledView {
    pub path: Seq<u8>,
    pub kind: EntryKind,
    pub size: Option<u64>,
    pub mtime: Option<i64>,
    pub hidden: bool,
    pub ignored: bool,
    pub sensitive: bool,
}

impl View for CrawledEntry {
    type V = CrawledView;

    open spec fn view(&self) -> CrawledView {
        CrawledView {
            path: self.path@,
            kind: self.kind,
            size: self.size,
            mtime: self.mtime,
            hidden: self.decision.hidden,
            ignored: self.decision.ignored,
            sensitive: self.decision.sensitive,
        }
    }
}

/// What the index keeps of a crawl.
pub open spec fn crawled_views(entries: Seq<CrawledEntry>) -> Seq<CrawledView> {
    entries.map_values(|e: CrawledEntry| e@)
}

impl CrawledView {
    /// The text under which the entry is stored.
    pub open spec fn key(self) -> Seq<char> {
        lossy_utf8(self.path)
    }

    /// The size as stored: none where 63 bits do not hold it.
    pub open spec fn stored_size(self) -> Option<i64> {
        match self.size {
            Some(n) => if n <= i64::MAX {
                Some(n as i64)
            } else {
                None
            },
            None => None,
        }
    }
}

/// The size of an entry as stored.
pub fn entry_size_i64(entry: &CrawledEntry) -> (r: Option<i64>)
    ensures
        r == entry@.stored_size(),
{
    match entry.size {
        Some(n) => if n <= i64::MAX as u64 {
            Some(n as i64)
        } else {
            None
        },
        None => None,
    }
}

/// What is stored of an entry, apart from its path.
#[derive(Debug, Clone, Copy)]
pub struct ExistingEntry {
    pub id: i64,
    pub kind: EntryKind,
    pub size: Option<i64>,
    pub mtime: Option<i64>,
    pub hidden: bool,
    pub ignored: bool,
    pub sensitive: bool,
    pub deleted: bool,
}

/// What is stored of a crawled entry under an id.
pub open spec fn stored_as(entry: CrawledView, id: i64) -> ExistingEntry {
    ExistingEntry {
        id,
        kind: entry.kind,
        size: entry.stored_size(),
        mtime: entry.mtime,
        hidden: entry.hidden,
        ignored: entry.ignored,
        sensitive: entry.sensitive,
        deleted: false,
    }
}

fn same_number(a: Option<i64>, b: Option<i64>) -> (r: bool)
    ensures
        r == (a == b),
{
    match (a, b) {
        (Some(x), Some(y)) => x == y,
        (None, None) => true,
        _ => false,
    }
}

/// Whether a crawled entry differs from what is stored of it; a deleted one
/// always does.
pub fn entry_changed(existing: &ExistingEntry, entry: &CrawledEntry) -> (r: bool)
    ensures
        r == (*existing != stored_as(entry@, existing.id)),
{
    existing.deleted || existing.kind != entry.kind || !same_number(
        existing.size,
        entry_size_i64(entry),
    ) || !same_number(existing.mtime, entry.mtime) || existing.hidden != entry.decision.hidden
        || existing.ignored != entry.decision.ignored || existing.sensitive
        != entry.decision.sensitive
}

/// A row of the entries table as it is read.
#[derive(Debug, Clone)]
pub struct EntryRow {
    pub path: String,
    pub id: i64,
    pub kind: i64,
    pub size: Option<i64>,
    pub mtime: Option<i64>,
    pub hidden: i64,
    pub ignored: i64,
    pub sensitive: i64,
    pub deleted: i64,
}

/// What a row of the entries table says of its entry.
pub open spec fn row_entry(row: EntryRow) -> ExistingEntry {
    ExistingEntry {
        id: row.id,
        kind: number_kind(row.kind),
        size: row.size,
        mtime: row.mtime,
        hidden: row.hidden != 0,
        ignored: row.ignored != 0,
        sensitive: row.sensitive != 0,
        deleted: row.deleted != 0,
    }
}

/// The entry of a row.
pub fn existing_entry(row: &EntryRow) -> (r: ExistingEntry)
    ensures
        r == row_entry(*row),
{
    ExistingEntry {
        id: row.id,
        kind: int_to_kind(row.kind),
        size: row.size,
        mtime: row.mtime,
        hidden: row.hidden != 0,
        ignored: row.ignored != 0,
        sensitive: row.sensitive != 0,
        deleted: row.deleted != 0,
    }
}

/// The file name under which an entry is stored; empty where the path has none
/// in UTF-8.
pub open spec fn entry_name(path: Seq<u8>) -> Seq<char> {
    match file_name_text(path) {
        Some(name) => name,
        None => Seq::empty(),
    }
}

/// The file name under which a path is stored.
pub fn stored_name(path: &FilePath) -> (r: String)
    ensures
        r@ == entry_name(path@),
{
    match path.file_name_text() {
        Some(name) => name,
        None => String::new(),
    }
}

/// The extension under which a path is stored.
pub fn stored_extension(path: &FilePath) -> (r: Option<String>)
    ensures
        text_view(r) == lowercase_extension(path@),
{
    match path.extension_text() {
        Some(ext) => Some(to_ascii_lower(ext.as_str())),
        None => None,
    }
}

/// Reads what is stored of the entries of a root.
pub const LOAD_ENTRIES: &'static str =
    "SELECT path, id, kind, size, mtime, hidden, ignored, sensitive, deleted FROM entries WHERE root_id = ?1";

/// The statement that reads what is stored of the entries of a root.
pub open spec fn load_entries_view(root_id: i64) -> StatementView {
    StatementView { sql: LOAD_ENTRIES@, params: seq![ValueView::Integer(root_id)] }
}

/// The statement that reads what is stored of the entries of a root.
pub fn load_entries_statement(root_id: i64) -> (r: Statement)
    ensures
        r@ == load_entries_view(root_id),
{
    let r = Statement { sql: LOAD_ENTRIES.to_owned(), params: vec![SqlValue::Integer(root_id)] };
    assert(r@.params =~= seq![ValueView::Integer(root_id)]);
    r
}

/// Stores a new entry.
pub const INSERT_ENTRY: &'static str =
    "INSERT INTO entries (root_id, path, path_lower, name, name_lower, extension, kind, size, mtime, hidden, ignored, sensitive, deleted, indexed_at) VALUES (?1, ?2, ?3, ?4, ?5, ?6, ?7, ?8, ?9, ?10, ?11, ?12, 0, ?13)";

/// Finds the id of the entry that a root and a path name.
pub const SELECT_ENTRY_ID: &'static str = "SELECT id FROM entries WHERE root_id = ?1 AND path = ?2";

/// Stores an entry anew, and as live.
pub const UPDATE_ENTRY: &'static str =
    "UPDATE entries SET path = ?1, path_lower = ?2, name = ?3, name_lower = ?4, extension = ?5, kind = ?6, size = ?7, mtime = ?8, hidden = ?9, ignored = ?10, sensitive = ?11, deleted = 0, indexed_at = ?12 WHERE id = ?13";

/// Removes the terms of an entry.
pub const DELETE_TERMS: &'static str = "DELETE FROM terms WHERE entry_id = ?1";

/// Marks an entry as deleted.
pub const MARK_ENTRY_DELETED: &'static str =
    "UPDATE entries SET deleted = 1, indexed_at = ?1 WHERE id = ?2";

/// Removes the entries of a root, and with them their terms.
pub const DELETE_ENTRIES: &'static str = "DELETE FROM entries WHERE root_id = ?1";

/// Stores a term of an entry, unless it is there.
pub const INSERT_TERM: &'static str =
    "INSERT OR IGNORE INTO terms (term, entry_id, field, weight) VALUES (?1, ?2, ?3, ?4)";

/// The columns that describe an entry, from its path to its flags.
pub open spec fn entry_columns(entry: CrawledView) -> Seq<ValueView> {
    seq![
        ValueView::Text(entry.key()),
        ValueView::Text(ascii_lower_text(entry.key())),
        ValueView::Text(entry_name(entry.path)),
        ValueView::Text(ascii_lower_text(entry_name(entry.path))),
        optional_text(lowercase_extension(entry.path)),
        ValueView::Integer(kind_number(entry.kind)),
        optional_integer(entry.stored_size()),
        optional_integer(entry.mtime),
        flag_value(entry.hidden),
        flag_value(entry.ignored),
        flag_value(entry.sensitive),
    ]
}

fn push_entry_columns(params: &mut Vec<SqlValue>, entry: &CrawledEntry)
    ensures
        values(final(params)@) == values(old(params)@) + entry_columns(entry@),
{
    let path = entry.path.to_lossy();
    let path_lower = to_ascii_lower(path.as_str());
    let name = stored_name(&entry.path);
    let name_lower = to_ascii_lower(name.as_str());
    params.push(SqlValue::Text(path));
    params.push(SqlValue::Text(path_lower));
    params.push(SqlValue::Text(name));
    params.push(SqlValue::Text(name_lower));
    params.push(text_or_null(stored_extension(&entry.path)));
    params.push(SqlValue::Integer(kind_to_int(entry.kind)));
    params.push(integer_or_null(entry_size_i64(entry)));
    params.push(integer_or_null(entry.mtime));
    params.push(flag(entry.decision.hidden));
    params.push(flag(entry.decision.ignored));
    params.push(flag(entry.decision.sensitive));
    assert(values(params@) =~= values(old(params)@) + entry_columns(entry@));
}

/// The statement that stores a new entry.
pub open spec fn insert_entry_view(
    root_id: i64,
    entry: CrawledView,
    indexed_at: i64,
) -> StatementView {
    StatementView {
        sql: INSERT_ENTRY@,
        params: seq![ValueView::Integer(root_id)] + entry_columns(entry) + seq![
            ValueView::Integer(indexed_at),
        ],
    }
}

/// The statement that stores a new entry.
pub fn insert_entry_statement(root_id: i64, entry: &CrawledEntry, indexed_at: i64) -> (r: Statement)
    ensures
        r@ == insert_entry_view(root_id, entry@, indexed_at),
{
    let mut params: Vec<SqlValue> = vec![SqlValue::Integer(root_id)];
    assert(values(params@) =~= seq![ValueView::Integer(root_id)]);
    push_entry_columns(&mut params, entry);
    let ghost before = params@;
    params.push(SqlValue::Integer(indexed_at));
    assert(values(params@) =~= values(before) + seq![ValueView::Integer(indexed_at)]);
    Statement { sql: INSERT_ENTRY.to_owned(), params }
}

/// The statement that finds the id of a stored entry.
pub open spec fn select_entry_id_view(root_id: i64, entry: CrawledView) -> StatementView {
    StatementView {
        sql: SELECT_ENTRY_ID@,
        params: seq![ValueView::Integer(root_id), ValueView::Text(entry.key())],
    }
}

/// The statement that finds the id of a stored entry.
pub fn select_entry_id_statement(root_id: i64, entry: &CrawledEntry) -> (r: Statement)
    ensures
        r@ == select_entry_id_view(root_id, entry@),
{
    let r = Statement {
        sql: SELECT_ENTRY_ID.to_owned(),
        params: vec![SqlValue::Integer(root_id), SqlValue::Text(entry.path.to_lossy())],
    };
    assert(r@.params =~= seq![ValueView::Integer(root_id), ValueView::Text(entry@.key())]);
    r
}

/// The statement that stores an entry anew under its id.
pub fn update_entry_statement(entry_id: i64, entry: &CrawledEntry, indexed_at: i64) -> (r: Statement)
    ensures
        r@ == update_entry_view(entry_id, entry@, indexed_at),
{
    let mut params: Vec<SqlValue> = Vec::new();
    push_entry_columns(&mut params, entry);
    params.push(SqlValue::Integer(indexed_at));
    params.push(SqlValue::Integer(entry_id));
    assert(values(params@) =~= entry_columns(entry@) + seq![
        ValueView::Integer(indexed_at),
        ValueView::Integer(entry_id),
    ]);
    Statement { sql: UPDATE_ENTRY.to_owned(), params }
}

/// The statement that removes the terms of an entry.
pub fn delete_terms_statement(entry_id: i64) -> (r: Statement)
    ensures
        r@ == delete_terms_view(entry_id),
{
    let r = Statement { sql: DELETE_TERMS.to_owned(), params: vec![SqlValue::Integer(entry_id)] };
    assert(r@.params =~= seq![ValueView::Integer(entry_id)]);
    r
}

/// The statement that marks an entry as deleted.
pub open spec fn mark_entry_deleted_view(entry_id: i64, indexed_at: i64) -> StatementView {
    StatementView {
        sql: MARK_ENTRY_DELETED@,
        params: seq![ValueView::Integer(indexed_at), ValueView::Integer(entry_id)],
    }
}

/// The statement that marks an entry as deleted.
pub fn mark_entry_deleted_statement(entry_id: i64, indexed_at: i64) -> (r: Statement)
    ensures
        r@ == mark_entry_deleted_view(entry_id, indexed_at),
{
    let r = Statement {
        sql: MARK_ENTRY_DELETED.to_owned(),
        params: vec![SqlValue::Integer(indexed_at), SqlValue::Integer(entry_id)],
    };
    assert(r@.params =~= seq![ValueView::Integer(indexed_at), ValueView::Integer(entry_id)]);
    r
}

/// The statement that removes the entries of a root.
pub open spec fn delete_entries_view(root_id: i64) -> StatementView {
    StatementView { sql: DELETE_ENTRIES@, params: seq![ValueView::Integer(root_id)] }
}

/// The statement that removes the entries of a root.
pub fn delete_entries_statement(root_id: i64) -> (r: Statement)
    ensures
        r@ == delete_entries_view(root_id),
{
    let r = Statement { sql: DELETE_ENTRIES.to_owned(), params: vec![SqlValue::Integer(root_id)] };
    assert(r@.params =~= seq![ValueView::Integer(root_id)]);
    r
}

/// The texts of a path that are split into terms, and the extension that is a
/// term of its own.
#[derive(Debug)]
pub struct TermSources {
    pub name: String,
    pub extension: Option<String>,
    pub components: Vec<String>,
}

/// The texts of a path that are split into terms: its file name, and each of
/// its components that is UTF-8.
pub fn term_sources(path: &FilePath) -> (r: TermSources)
    ensures
        r.name@ == entry_name(path@),
        text_view(r.extension) == lowercase_extension(path@),
        texts(r.components@) == components(path@).filter_map(|piece: Seq<u8>| utf8_text(piece)),
{
    TermSources {
        name: stored_name(path),
        extension: stored_extension(path),
        components: path.component_texts(),
    }
}

/// A term under which an entry is found: from its name, its extension or any
/// component of its path, and how much that counts.
#[derive(Debug)]
pub struct TermRow {
    pub term: String,
    pub field: i64,
    pub weight: i64,
}

/// What a [`TermRow`] says.
pub struct TermView {
    pub term: Seq<char>,
    pub field: i64,
    pub weight: i64,
}

impl View for TermRow {
    type V = TermView;

    open spec fn view(&self) -> TermView {
        TermView { term: self.term@, field: self.field, weight: self.weight }
    }
}

/// What a list of terms says.
pub open spec fn term_views(rows: Seq<TermRow>) -> Seq<TermView> {
    rows.map_values(|r: TermRow| r@)
}

/// Terms of one field.
pub open spec fn field_terms(terms: Seq<Seq<char>>, field: i64, weight: i64) -> Seq<TermView> {
    terms.map_values(|t: Seq<char>| TermView { term: t, field, weight })
}

/// The terms of the first `n` components.
pub open spec fn component_terms(terms: Seq<Vec<String>>, n: nat) -> Seq<TermView>
    decreases n,
{
    if n == 0 {
        Seq::empty()
    } else {
        component_terms(terms, (n - 1) as nat) + field_terms(texts(terms[n - 1]@), 3, 10)
    }
}

fn push_terms(rows: &mut Vec<TermRow>, terms: &Vec<String>, field: i64, weight: i64)
    ensures
        term_views(final(rows)@) == term_views(old(rows)@) + field_terms(
            texts(terms@),
            field,
            weight,
        ),
{
    let ghost start = term_views(rows@);
    let mut i: usize = 0;
    assert(start =~= start + field_terms(texts(terms@).take(0), field, weight));
    while i < terms.len()
        invariant
            i <= terms.len(),
            term_views(rows@) == start + field_terms(texts(terms@).take(i as int), field, weight),
        decreases terms.len() - i,
    {
        let ghost before = rows@;
        let row = TermRow { term: terms[i].clone(), field, weight };
        let ghost view = row@;
        rows.push(row);
        assert(term_views(rows@) =~= term_views(before).push(view));
        assert(field_terms(texts(terms@).take(i + 1), field, weight) =~= field_terms(
            texts(terms@).take(i as int),
            field,
            weight,
        ).push(view));
        i += 1;
    }
    assert(texts(terms@).take(i as int) =~= texts(terms@));
}

/// The terms of an entry: those of its name, its extension, and those of each
/// of its components.
pub open spec fn entry_terms(
    name_terms: Seq<Seq<char>>,
    extension: Option<Seq<char>>,
    components: Seq<Vec<String>>,
) -> Seq<TermView> {
    let named = field_terms(name_terms, 1, 100);
    let extended = match extension {
        Some(ext) => named.push(TermView { term: ext, field: 2, weight: 50 }),
        None => named,
    };
    extended + component_terms(components, components.len())
}

/// The terms of an entry, from the terms that its name and its components were
/// split into.
pub fn term_rows(
    name_terms: &Vec<String>,
    extension: Option<String>,
    components: &Vec<Vec<String>>,
) -> (r: Vec<TermRow>)
    ensures
        term_views(r@) == entry_terms(texts(name_terms@), text_view(extension), components@),
{
    let mut rows: Vec<TermRow> = Vec::new();
    push_terms(&mut rows, name_terms, 1, 100);
    assert(term_views(rows@) =~= field_terms(texts(name_terms@), 1, 100));
    match extension {
        Some(ext) => {
            let ghost before = rows@;
            let row = TermRow { term: ext, field: 2, weight: 50 };
            let ghost view = row@;
            rows.push(row);
            assert(term_views(rows@) =~= term_views(before).push(view));
        },
        None => {},
    }
    let ghost start = term_views(rows@);
    let mut i: usize = 0;
    assert(start =~= start + component_terms(components@, 0));
    while i < components.len()
        invariant
            i <= components.len(),
            term_views(rows@) == start + component_terms(components@, i as nat),
        decreases components.len() - i,
    {
        push_terms(&mut rows, &components[i], 3, 10);
        assert(term_views(rows@) =~= start + component_terms(components@, (i + 1) as nat));
        i += 1;
    }
    rows
}

/// The statement that stores a term of an entry.
pub fn insert_term_statement(entry_id: i64, row: &TermRow) -> (r: Statement)
    ensures
        r@ == insert_term_view(entry_id, row@),
{
    let r = Statement {
        sql: INSERT_TERM.to_owned(),
        params: vec![
            SqlValue::Text(row.term.clone()),
            SqlValue::Integer(entry_id),
            SqlValue::Integer(row.field),
            SqlValue::Integer(row.weight),
        ],
    };
    assert(r@.params =~= seq![
        ValueView::Text(row@.term),
        ValueView::Integer(entry_id),
        ValueView::Integer(row@.field),
        ValueView::Integer(row@.weight),
    ]);
    r
}

/// The statement that stores a term of an entry.
pub open spec fn insert_term_view(entry_id: i64, row: TermView) -> StatementView {
    StatementView {
        sql: INSERT_TERM@,
        params: seq![
            ValueView::Text(row.term),
            ValueView::Integer(entry_id),
            ValueView::Integer(row.field),
            ValueView::Integer(row.weight),
        ],
    }
}

/// The statements that store the terms of an entry.
pub open spec fn insert_term_views(entry_id: i64, rows: Seq<TermView>) -> Seq<StatementView> {
    rows.map_values(|r: TermView| insert_term_view(entry_id, r))
}

fn push_term_statements(out: &mut Vec<Statement>, entry_id: i64, rows: &Vec<TermRow>)
    ensures
        statement_views(final(out)@) == statement_views(old(out)@) + insert_term_views(
            entry_id,
            term_views(rows@),
        ),
{
    let ghost start = statement_views(out@);
    let ghost views = term_views(rows@);
    assert(start =~= start + insert_term_views(entry_id, views.take(0)));
    let mut i: usize = 0;
    while i < rows.len()
        invariant
            i <= rows.len(),
            views == term_views(rows@),
            statement_views(out@) == start + insert_term_views(entry_id, views.take(i as int)),
        decreases rows.len() - i,
    {
        let statement = insert_term_statement(entry_id, &rows[i]);
        let ghost view = statement@;
        let ghost before = out@;
        out.push(statement);
        assert(statement_views(out@) =~= statement_views(before).push(view));
        assert(insert_term_views(entry_id, views.take(i + 1)) =~= insert_term_views(
            entry_id,
            views.take(i as int),
        ).push(view));
        i += 1;
    }
    assert(views.take(i as int) =~= views);
}

/// The statements that store the terms of an entry, in order.
pub fn insert_term_statements(entry_id: i64, rows: &Vec<TermRow>) -> (r: Vec<Statement>)
    ensures
        statement_views(r@) == insert_term_views(entry_id, term_views(rows@)),
{
    let mut out: Vec<Statement> = Vec::new();
    push_term_statements(&mut out, entry_id, rows);
    assert(statement_views(out@) =~= insert_term_views(entry_id, term_views(rows@)));
    out
}

/// The statement that stores an entry anew under its id.
pub open spec fn update_entry_view(
    entry_id: i64,
    entry: CrawledView,
    indexed_at: i64,
) -> StatementView {
    StatementView {
        sql: UPDATE_ENTRY@,
        params: entry_columns(entry) + seq![
            ValueView::Integer(indexed_at),
            ValueView::Integer(entry_id),
        ],
    }
}

/// The statement that removes the terms of an entry.
pub open spec fn delete_terms_view(entry_id: i64) -> StatementView {
    StatementView { sql: DELETE_TERMS@, params: seq![ValueView::Integer(entry_id)] }
}

/// The statements that store an entry anew: its row, and its terms in place of
/// those that it had.
pub fn update_entry_statements(
    entry_id: i64,
    entry: &CrawledEntry,
    indexed_at: i64,
    rows: &Vec<TermRow>,
) -> (r: Vec<Statement>)
    ensures
        statement_views(r@) == seq![
            update_entry_view(entry_id, entry@, indexed_at),
            delete_terms_view(entry_id),
        ] + insert_term_views(entry_id, term_views(rows@)),
{
    let mut out: Vec<Statement> = Vec::new();
    out.push(update_entry_statement(entry_id, entry, indexed_at));
    out.push(delete_terms_statement(entry_id));
    assert(statement_views(out@) =~= seq![
        update_entry_view(entry_id, entry@, indexed_at),
        delete_terms_view(entry_id),
    ]);
    push_term_statements(&mut out, entry_id, rows);
    out
}

/// The statements that mark an entry as deleted and remove its terms.
pub fn mark_deleted_statements(entry_id: i64, indexed_at: i64) -> (r: Vec<Statement>)
    ensures
        statement_views(r@) == seq![
            mark_entry_deleted_view(entry_id, indexed_at),
            delete_terms_view(entry_id),
        ],
{
    let mut out: Vec<Statement> = Vec::new();
    out.push(mark_entry_deleted_statement(entry_id, indexed_at));
    out.push(delete_terms_statement(entry_id));
    assert(statement_views(out@) =~= seq![
        mark_entry_deleted_view(entry_id, indexed_at),
        delete_terms_view(entry_id),
    ]);
    out
}

/// Files are stored as 1, directories as 2 and anything else as 3; 1 is read as a
/// file, 2 as a directory, and any other number as something else.
pub proof fn kinds_are_stored_as_numbers(kind: EntryKind, number: i64)
    ensures
        kind == EntryKind::File <==> kind_number(kind) == 1,
        kind == EntryKind::Directory <==> kind_number(kind) == 2,
        kind == EntryKind::Other <==> kind_number(kind) == 3,
        number_kind(number) == EntryKind::File <==> number == 1,
        number_kind(number) == EntryKind::Directory <==> number == 2,
        number_kind(number) == EntryKind::Other <==> number != 1 && number != 2,
{
}

/// What a row says of an entry: its id, size and time are those of the row, its
/// kind is that of the number, and it is hidden, ignored, sensitive or deleted
/// where the row does not say zero.
pub proof fn rows_tell_of_their_entry(row: EntryRow)
    ensures
        row_entry(row).id == row.id,
        row_entry(row).kind == number_kind(row.kind),
        row_entry(row).size == row.size,
        row_entry(row).mtime == row.mtime,
        row_entry(row).hidden <==> row.hidden != 0,
        row_entry(row).ignored <==> row.ignored != 0,
        row_entry(row).sensitive <==> row.sensitive != 0,
        row_entry(row).deleted <==> row.deleted != 0,
{
}

/// A crawled entry is as it is stored exactly where what is stored is live and of
/// the same kind, size, time and flags; a size that 63 bits do not hold is stored
/// as none.
pub proof fn an_entry_is_as_stored_exactly_when(existing: ExistingEntry, entry: CrawledView)
    ensures
        existing == stored_as(entry, existing.id) <==> {
            &&& !existing.deleted
            &&& existing.kind == entry.kind
            &&& existing.mtime == entry.mtime
            &&& existing.hidden == entry.hidden
            &&& existing.ignored == entry.ignored
            &&& existing.sensitive == entry.sensitive
            &&& match entry.size {
                Some(n) => if n <= 0x7fff_ffff_ffff_ffff {
                    existing.size is Some && existing.size->0 == n
                } else {
                    existing.size is None
                },
                None => existing.size is None,
            }
        },
        stored_as(entry, existing.id).id == existing.id,
{
}

/// The key of an entry is the text of its path.
pub proof fn entries_are_keyed_by_their_path(entry: CrawledView)
    ensures
        entry.key() == lossy_utf8(entry.path),
{
}

proof fn lemma_component_terms(terms: Seq<Vec<String>>, n: nat, row: TermView)
    requires
        n <= terms.len(),
    ensures
        component_terms(terms, n).contains(row) <==> row.field == 3 && row.weight == 10 && exists|
            i: int,
            j: int,
        |
            0 <= i < n && 0 <= j < terms[i]@.len() && #[trigger] terms[i]@[j]@ == row.term,
    decreases n,
{
    if n > 0 {
        let m = (n - 1) as nat;
        let before = component_terms(terms, m);
        let list = texts(terms[n - 1]@);
        let last = field_terms(list, 3, 10);
        let all = component_terms(terms, n);
        lemma_component_terms(terms, m, row);
        if before.contains(row) {
            let k = choose|k: int| 0 <= k < before.len() && before[k] == row;
            assert(all[k] == row);
        }
        if all.contains(row) && !before.contains(row) {
            let k = choose|k: int| 0 <= k < all.len() && all[k] == row;
            if k < before.len() {
                assert(before[k] == row);
            }
            let j = k - before.len();
            assert(last[j] == row);
            assert(terms[n - 1]@[j]@ == row.term);
        }
        if row.field == 3 && row.weight == 10 && (exists|i: int, j: int|
            0 <= i < n && 0 <= j < terms[i]@.len() && #[trigger] terms[i]@[j]@ == row.term) {
            let (i, j) = choose|i: int, j: int|
                0 <= i < n && 0 <= j < terms[i]@.len() && #[trigger] terms[i]@[j]@ == row.term;
            if i == n - 1 {
                assert(last[j] == row);
                assert(all[before.len() + j] == row);
            }
        }
    }
}

/// The terms of an entry are those of its name, which weigh 100, its extension,
/// which weighs 50, and those of each of its components, which weigh 10; there
/// are no others.
pub proof fn terms_come_from_the_path(
    name_terms: Seq<Seq<char>>,
    extension: Option<Seq<char>>,
    components: Seq<Vec<String>>,
    row: TermView,
)
    ensures
        entry_terms(name_terms, extension, components).contains(row) <==> {
            ||| row.field == 1 && row.weight == 100 && name_terms.contains(row.term)
            ||| row.field == 2 && row.weight == 50 && extension == Some(row.term)
            ||| row.field == 3 && row.weight == 10 && exists|i: int, j: int|
                0 <= i < components.len() && 0 <= j < components[i]@.len() && #[trigger]
                    components[i]@[j]@ == row.term
        },
{
    let named = field_terms(name_terms, 1, 100);
    let extended = match extension {
        Some(ext) => named.push(TermView { term: ext, field: 2, weight: 50 }),
        None => named,
    };
    let rest = component_terms(components, components.len());
    let all = entry_terms(name_terms, extension, components);
    lemma_component_terms(components, components.len(), row);
    if row.field == 1 && row.weight == 100 && name_terms.contains(row.term) {
        let k = choose|k: int| 0 <= k < name_terms.len() && name_terms[k] == row.term;
        assert(all[k] == row);
    }
    if row.field == 2 && row.weight == 50 && extension == Some(row.term) {
        assert(all[named.len() as int] == row);
    }
    if rest.contains(row) {
        let k = choose|k: int| 0 <= k < rest.len() && rest[k] == row;
        assert(all[extended.len() + k] == row);
    }
    if all.contains(row) {
        let k = choose|k: int| 0 <= k < all.len() && all[k] == row;
        if k < named.len() {
            assert(named[k] == row);
            assert(name_terms[k] == row.term);
        } else if k >= extended.len() {
            assert(rest[k - extended.len()] == row);
        }
    }
}

/// The statement that stores a term carries the term, the entry, the field and
/// the weight, in this order.
pub proof fn terms_are_stored_for_their_entry(entry_id: i64, rows: Seq<TermView>, i: int)
    requires
        0 <= i < rows.len(),
    ensures
        insert_term_views(entry_id, rows).len() == rows.len(),
        ({
            let s = insert_term_views(entry_id, rows)[i];
            &&& s.params.len() == 4
            &&& s.params[0] == ValueView::Text(rows[i].term)
            &&& s.params[1] == ValueView::Integer(entry_id)
            &&& s.params[2] == ValueView::Integer(rows[i].field)
            &&& s.params[3] == ValueView::Integer(rows[i].weight)
        }),
{
}

} // verus!
