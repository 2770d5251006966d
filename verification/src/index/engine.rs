//! What the database does with a statement.
//!
//! The text of a statement says what is done, and its parameters with what. Each
//! text that the index runs is given its meaning here, over the roots, entries
//! and terms that the database holds, so that what is read and what is stored
//! follows from the statements themselves. Of any other text nothing is said.

use crate::index::candidates::{candidates_view, extension_values, normal_extension, ColumnsView};
use crate::index::matching::{like, selects};
use crate::index::roots::root_id_view;
use crate::index::sql::{StatementView, ValueView};
use crate::index::store::Store;
use crate::index::terms::{placeholder_list, prefix_upper_bound, term_ids_view};
use crate::model::QueryView;
use crate::order::text_before;
use crate::path::lossy_utf8;
use crate::sorted::{increasing, number_order};
use crate::text::{decimal, exactly_the_leading_dots_go, lower_case_changes_ascii_capitals_only, signed_decimal, without_leading_dots};
use vstd::prelude::*;

verus! {

/// The placeholders of a list of `n`: question marks with commas between them.
pub open spec fn marks(n: nat) -> Seq<char> {
    Seq::new(
        if n == 0 {
            0
        } else {
            (2 * n - 1) as nat
        },
        |i: int|
            if i % 2 == 0 {
                '?'
            } else {
                ','
            },
    )
}

/// How many values of each sort a statement that reads candidates names, and the
/// number of the only kind that it reads, if it reads only one.
pub struct Shape {
    pub ids: nat,
    pub roots: nat,
    pub kind: Option<i64>,
    pub extensions: nat,
}

/// The condition on kinds: 1 is the number of files, 2 that of directories.
pub open spec fn kind_condition(kind: Option<i64>) -> Seq<char> {
    match kind {
        Some(n) => if n == 1 {
            " AND entries_main.kind = 1"@
        } else {
            " AND entries_main.kind = 2"@
        },
        None => Seq::empty(),
    }
}

/// The condition on extensions.
pub open spec fn extension_condition(n: nat) -> Seq<char> {
    if n == 0 {
        Seq::empty()
    } else {
        " AND entries_main.extension IN ("@ + marks(n) + ")"@
    }
}

/// The text of a statement that reads candidates.
pub open spec fn candidates_text(shape: Shape) -> Seq<char> {
    "SELECT entries_main.path, entries_main.kind, roots_pri.priority, entries_main.size, entries_main.mtime FROM entries AS entries_main JOIN roots AS roots_pri ON roots_pri.id = entries_main.root_id WHERE entries_main.id IN ("@
        + marks(shape.ids) + ") AND entries_main.deleted = 0 AND entries_main.root_id IN ("@ + marks(shape.roots) + ")"@
        + kind_condition(shape.kind)
        + " AND (entries_main.hidden = 0 OR ? OR roots_pri.include_hidden = 1) AND (entries_main.ignored = 0 OR ? OR roots_pri.include_ignored = 1) AND entries_main.sensitive = 0"@
        + extension_condition(shape.extensions)
}

/// Whether a parameter is a truth value that holds.
pub open spec fn is_true(value: ValueView) -> bool {
    value matches ValueView::Integer(n) && n != 0
}

/// Whether a value is among `n` parameters from a place on.
pub open spec fn among(params: Seq<ValueView>, from: int, n: nat, value: ValueView) -> bool {
    exists|k: int| from <= k < from + n && #[trigger] params[k] == value
}

impl Store {
    /// Whether an entry passes every condition of a statement of this shape with
    /// these parameters: its id is among the first, the id of its root among the
    /// next, then come the two truth values, and its extension is among the
    /// last.
    pub open spec fn passes(self, params: Seq<ValueView>, shape: Shape, id: i64) -> bool {
        let e = self.entries[id];
        let root = self.roots[e.root_id];
        let flags = (shape.ids + shape.roots) as int;
        &&& self.entries.contains_key(id)
        &&& among(params, 0, shape.ids, ValueView::Integer(id))
        &&& !e.deleted
        &&& among(params, shape.ids as int, shape.roots, ValueView::Integer(e.root_id))
        &&& shape.kind is Some ==> e.kind == shape.kind->0
        &&& !e.hidden || is_true(params[flags]) || root.include_hidden
        &&& !e.ignored || is_true(params[flags + 1]) || root.include_ignored
        &&& !e.sensitive
        &&& shape.extensions > 0 ==> e.extension is Some && among(
            params,
            flags + 2,
            shape.extensions,
            ValueView::Text(e.extension->0),
        )
    }

    /// Whether the candidates of a statement are those of the entries `picked`.
    pub open spec fn reads_entries(
        self,
        params: Seq<ValueView>,
        shape: Shape,
        picked: Seq<i64>,
    ) -> bool {
        &&& picked.no_duplicates()
        &&& forall|id: i64| #[trigger] picked.contains(id) <==> self.passes(params, shape, id)
    }

    /// Whether rows are what the database gives where a statement reads
    /// candidates: the columns of the entries that pass, in any order.
    pub open spec fn gives_candidates(self, s: StatementView, rows: Seq<ColumnsView>) -> bool {
        forall|shape: Shape|
            s.sql == #[trigger] candidates_text(shape) && s.params.len() == shape.ids + shape.roots + 2
                + shape.extensions && (shape.kind is None || shape.kind == Some(1i64) || shape.kind
                == Some(2i64)) ==> exists|picked: Seq<i64>| #[trigger]
                self.reads_entries(s.params, shape, picked) && rows == picked.map_values(
                    |id: i64| self.columns(id),
                )
    }

    /// Whether an id is what the database gives where a statement looks up a
    /// root by its path.
    pub open spec fn gives_root_id(self, s: StatementView, id: Option<i64>) -> bool {
        s.sql == "SELECT id FROM roots WHERE path = ?1"@ && s.params.len() == 1 && s.params[0] is Text ==> {
            let path = s.params[0]->Text_0;
            match id {
                Some(n) => self.roots.contains_key(n) && self.roots[n].path == path,
                None => forall|n: i64| #[trigger]
                    self.roots.contains_key(n) ==> self.roots[n].path != path,
            }
        }
    }

    /// Whether an entry has a term that meets a condition.
    pub open spec fn has_such_term(self, id: i64, such: spec_fn(Seq<char>) -> bool) -> bool {
        exists|t: Seq<char>| #[trigger] self.terms.contains((t, id)) && such(t)
    }

    /// Whether rows are the ids of the entries with a term that meets a
    /// condition: each once, in order, and no more than the limit. All are there
    /// where the limit is not reached, and none is left out before the last.
    pub open spec fn lists_entries(
        self,
        such: spec_fn(Seq<char>) -> bool,
        limit: int,
        rows: Seq<i64>,
    ) -> bool {
        &&& increasing(rows, number_order())
        &&& rows.len() <= limit
        &&& forall|i: int| 0 <= i < rows.len() ==> self.has_such_term(#[trigger] rows[i], such)
        &&& forall|id: i64| #[trigger]
            self.has_such_term(id, such) && (rows.len() < limit || (rows.len() > 0 && id
                <= rows.last())) ==> rows.contains(id)
    }

    /// Whether rows are what the database gives where a statement finds the
    /// entries of terms: those from one text up to another, or those that a
    /// pattern matches; the last parameter is the limit.
    pub open spec fn gives_entry_ids(self, s: StatementView, rows: Seq<i64>) -> bool {
        let p = s.params;
        &&& s.sql == "SELECT DISTINCT term_index.entry_id FROM terms AS term_index WHERE "@
            + "term_index.term >= ? AND term_index.term < ?"@
            + " ORDER BY term_index.entry_id LIMIT ?"@ && p.len() == 3 && p[0] is Text && p[1] is Text
            && p[2] is Integer ==> self.lists_entries(
            |t: Seq<char>| !text_before(t, p[0]->Text_0) && text_before(t, p[1]->Text_0),
            p[2]->Integer_0 as int,
            rows,
        )
        &&& s.sql == "SELECT DISTINCT term_index.entry_id FROM terms AS term_index WHERE "@
            + "term_index.term LIKE ?"@ + " ORDER BY term_index.entry_id LIMIT ?"@
            && p.len() == 2 && p[0] is Text && p[1] is Integer ==> self.lists_entries(
            |t: Seq<char>| like(p[0]->Text_0, t),
            p[1]->Integer_0 as int,
            rows,
        )
    }
}

proof fn lemma_marks(n: nat)
    ensures
        placeholder_list(n) == marks(n),
    decreases n,
{
    if n > 0 {
        lemma_marks((n - 1) as nat);
    }
    assert(placeholder_list(n) =~= marks(n));
}

proof fn lemma_kind_conditions()
    ensures
        " AND entries_main.kind = "@ + signed_decimal(1) == " AND entries_main.kind = 1"@,
        " AND entries_main.kind = "@ + signed_decimal(2) == " AND entries_main.kind = 2"@,
{
    reveal_strlit(" AND entries_main.kind = ");
    reveal_strlit(" AND entries_main.kind = 1");
    reveal_strlit(" AND entries_main.kind = 2");
    reveal_with_fuel(decimal, 2);
    assert(" AND entries_main.kind = "@ + signed_decimal(1) =~= " AND entries_main.kind = 1"@);
    assert(" AND entries_main.kind = "@ + signed_decimal(2) =~= " AND entries_main.kind = 2"@);
}

/// Whether a text is the form in which an extension is stored: without the dots
/// that lead it, with its capitals in lower case, and else as it is.
pub open spec fn stored_form(given: Seq<char>, text: Seq<char>) -> bool {
    let dots = given.len() - text.len();
    &&& dots >= 0
    &&& forall|i: int| 0 <= i < dots ==> #[trigger] given[i] == '.'
    &&& dots < given.len() ==> given[dots] != '.'
    &&& forall|i: int|
        0 <= i < text.len() ==> if 'A' <= given[dots + i] <= 'Z' {
            #[trigger] text[i] as int == given[dots + i] as int + 32
        } else {
            text[i] == given[dots + i]
        }
}

/// The shape of the statement that a query calls for.
pub open spec fn shape_of(ids: Seq<i64>, root_ids: Seq<i64>, query: QueryView) -> Shape {
    Shape {
        ids: ids.len(),
        roots: root_ids.len(),
        kind: if query.include_files && query.include_directories {
            None
        } else if query.include_files {
            Some(1i64)
        } else {
            Some(2i64)
        },
        extensions: query.extensions.len(),
    }
}

/// The statement that reads candidates says what the query asks for: as many ids,
/// roots and extensions as there are, and the only kind that is sought, if only
/// one is.
pub proof fn the_text_asks_for_what_is_sought(
    ids: Seq<i64>,
    root_ids: Seq<i64>,
    query: QueryView,
)
    requires
        query.include_files || query.include_directories,
    ensures
        candidates_view(ids, root_ids, query).sql == candidates_text(
            shape_of(ids, root_ids, query),
        ),
{
    lemma_marks(ids.len());
    lemma_marks(root_ids.len());
    lemma_marks(query.extensions.len());
    lemma_kind_conditions();
}

/// The parameters of the statement that reads candidates, place by place: the
/// ids, the roots, whether hidden and whether ignored entries are let through,
/// and for each extension of the query, in their order, the text without the
/// dots that lead it and with its capitals in lower case.
pub proof fn the_parameters_are_those_of_the_query(
    ids: Seq<i64>,
    root_ids: Seq<i64>,
    query: QueryView,
)
    ensures
        ({
            let p = candidates_view(ids, root_ids, query).params;
            let n = ids.len();
            let m = root_ids.len();
            &&& p.len() == n + m + 2 + query.extensions.len()
            &&& forall|i: int| 0 <= i < n ==> #[trigger] p[i] == ValueView::Integer(ids[i])
            &&& forall|i: int|
                n <= i < n + m ==> #[trigger] p[i] == ValueView::Integer(root_ids[i - n])
            &&& p[(n + m) as int] == ValueView::Integer(
                if query.include_hidden {
                    1
                } else {
                    0
                },
            )
            &&& p[(n + m) as int + 1] == ValueView::Integer(
                if query.include_ignored {
                    1
                } else {
                    0
                },
            )
            &&& forall|i: int|
                0 <= i < query.extensions.len() ==> (#[trigger] p[n + m + 2 + i]) is Text
                    && stored_form(query.extensions[i], p[n + m + 2 + i]->Text_0)
        }),
{
    let p = candidates_view(ids, root_ids, query).params;
    let n = ids.len();
    let m = root_ids.len();
    assert forall|i: int| 0 <= i < query.extensions.len() implies (#[trigger] p[n + m + 2 + i]) is Text
        && stored_form(query.extensions[i], p[n + m + 2 + i]->Text_0) by {
        lemma_stored_form(query.extensions[i]);
        assert(p[n + m + 2 + i] == extension_values(query.extensions)[i]);
    }
}

proof fn lemma_stored_form(given: Seq<char>)
    ensures
        stored_form(given, normal_extension(given)),
{
    let bare = without_leading_dots(given);
    let text = normal_extension(given);
    exactly_the_leading_dots_go(given);
    let dots = given.len() - text.len();
    assert forall|i: int| 0 <= i < text.len() implies if 'A' <= given[dots + i] <= 'Z' {
        #[trigger] text[i] as int == given[dots + i] as int + 32
    } else {
        text[i] == given[dots + i]
    } by {
        lower_case_changes_ascii_capitals_only(bare, i);
        assert(bare[i] == given[dots + i]);
    }
}

/// An extension has one form in which it is stored.
pub proof fn stored_forms_are_unique(given: Seq<char>, a: Seq<char>, b: Seq<char>)
    requires
        stored_form(given, a),
        stored_form(given, b),
    ensures
        a == b,
{
    let m = given.len() - a.len();
    let n = given.len() - b.len();
    if m < n {
        assert(given[m] == '.');
    }
    if n < m {
        assert(given[n] == '.');
    }
    assert forall|i: int| 0 <= i < a.len() implies a[i] == b[i] by {
        assert(given[m + i] == given[n + i]);
        assert(a[i] as int == b[i] as int);
    }
    assert(a =~= b);
}

proof fn lemma_among(params: Seq<ValueView>, from: int, list: Seq<i64>, n: i64)
    requires
        0 <= from,
        from + list.len() <= params.len(),
        forall|k: int| from <= k < from + list.len() ==> #[trigger] params[k] == ValueView::Integer(
            list[k - from],
        ),
    ensures
        among(params, from, list.len(), ValueView::Integer(n)) <==> list.contains(n),
{
    if list.contains(n) {
        let i = choose|i: int| 0 <= i < list.len() && list[i] == n;
        assert(params[from + i] == ValueView::Integer(n));
    }
    if among(params, from, list.len(), ValueView::Integer(n)) {
        let k = choose|k: int|
            from <= k < from + list.len() && #[trigger] params[k] == ValueView::Integer(n);
        assert(list[k - from] == n);
    }
}

/// An entry that passes every other condition is read exactly where the query
/// names no extension, or its extension is the stored form of one that the query
/// names.
pub proof fn any_extension_of_the_query_will_do(
    store: Store,
    ids: Seq<i64>,
    root_ids: Seq<i64>,
    query: QueryView,
    id: i64,
)
    requires
        store.passes(
            candidates_view(ids, root_ids, query).params,
            Shape { extensions: 0, ..shape_of(ids, root_ids, query) },
            id,
        ),
    ensures
        store.passes(
            candidates_view(ids, root_ids, query).params,
            shape_of(ids, root_ids, query),
            id,
        ) <==> query.extensions.len() == 0 || (store.entries[id].extension is Some && exists|i: int|
            0 <= i < query.extensions.len() && stored_form(
                #[trigger] query.extensions[i],
                store.entries[id].extension->0,
            )),
{
    let p = candidates_view(ids, root_ids, query).params;
    let from = ids.len() + root_ids.len() + 2;
    let n = query.extensions.len();
    let e = store.entries[id].extension;
    the_parameters_are_those_of_the_query(ids, root_ids, query);
    if n > 0 && e is Some {
        let value = ValueView::Text(e->0);
        if among(p, from as int, n, value) {
            let k = choose|k: int| from <= k < from + n && #[trigger] p[k] == value;
            let i = k - from;
            assert(p[ids.len() + root_ids.len() + 2 + i] == value);
            assert(stored_form(query.extensions[i], e->0));
        }
        if exists|i: int| 0 <= i < n && stored_form(#[trigger] query.extensions[i], e->0) {
            let i = choose|i: int| 0 <= i < n && stored_form(#[trigger] query.extensions[i], e->0);
            let k = ids.len() + root_ids.len() + 2 + i;
            assert(p[ids.len() + root_ids.len() + 2 + i] is Text);
            stored_forms_are_unique(query.extensions[i], e->0, p[k]->Text_0);
            assert(p[k] == value);
        }
    }
}

/// The statement reads exactly those of the ids whose entry is shown to the query
/// and belongs to one of the roots.
pub proof fn what_is_read_is_what_is_shown(
    store: Store,
    ids: Seq<i64>,
    root_ids: Seq<i64>,
    query: QueryView,
    id: i64,
)
    requires
        query.include_files || query.include_directories,
    ensures
        store.passes(
            candidates_view(ids, root_ids, query).params,
            shape_of(ids, root_ids, query),
            id,
        ) <==> ids.contains(id) && store.shows(query, id) && root_ids.contains(
            store.entries[id].root_id,
        ),
{
    let p = candidates_view(ids, root_ids, query).params;
    let shape = shape_of(ids, root_ids, query);
    let n = query.extensions.len();
    let e = store.entries[id].extension;
    the_parameters_are_those_of_the_query(ids, root_ids, query);
    lemma_among(p, 0, ids, id);
    lemma_among(p, ids.len() as int, root_ids, store.entries[id].root_id);
    if store.passes(p, Shape { extensions: 0, ..shape }, id) {
        any_extension_of_the_query_will_do(store, ids, root_ids, query, id);
        if store.passes(p, shape, id) && n > 0 {
            let i = choose|i: int| 0 <= i < n && stored_form(#[trigger] query.extensions[i], e->0);
            lemma_stored_form(query.extensions[i]);
            stored_forms_are_unique(query.extensions[i], e->0, normal_extension(query.extensions[i]));
            assert(e == Some(normal_extension(query.extensions[i])));
        }
        if store.shows(query, id) && n > 0 {
            let i = choose|i: int|
                0 <= i < n && e == Some(normal_extension(#[trigger] query.extensions[i]));
            lemma_stored_form(query.extensions[i]);
            assert(stored_form(query.extensions[i], e->0));
        }
    }
}

/// What the database gives of candidates is what [`Store::answers_candidates`]
/// says.
pub proof fn lemma_candidates_are_answered(
    store: Store,
    ids: Seq<i64>,
    root_ids: Seq<i64>,
    query: QueryView,
    rows: Seq<ColumnsView>,
)
    requires
        query.include_files || query.include_directories,
        store.gives_candidates(candidates_view(ids, root_ids, query), rows),
    ensures
        store.answers_candidates(ids, root_ids, query, rows),
{
    let s = candidates_view(ids, root_ids, query);
    let shape = shape_of(ids, root_ids, query);
    the_text_asks_for_what_is_sought(ids, root_ids, query);
    the_parameters_are_those_of_the_query(ids, root_ids, query);
    assert(s.sql == candidates_text(shape));
    let picked = choose|picked: Seq<i64>| #[trigger]
        store.reads_entries(s.params, shape, picked) && rows == picked.map_values(
            |id: i64| store.columns(id),
        );
    assert(store.reads_entries(s.params, shape, picked));
    assert forall|id: i64| #[trigger] picked.contains(id) <==> ids.contains(id) && store.shows(
        query,
        id,
    ) && root_ids.contains(store.entries[id].root_id) by {
        what_is_read_is_what_is_shown(store, ids, root_ids, query, id);
    }
    assert(store.picks(ids, root_ids, query, picked));
}

/// What the database gives of a root is what [`Store::answers_root_id`] says.
pub proof fn lemma_root_id_is_answered(store: Store, path: Seq<u8>, id: Option<i64>)
    requires
        store.gives_root_id(root_id_view(path), id),
    ensures
        store.answers_root_id(path, id),
{
    assert(root_id_view(path).params[0] == ValueView::Text(lossy_utf8(path)));
}

proof fn lemma_such_term(store: Store, id: i64, such: spec_fn(Seq<char>) -> bool, term: Seq<char>)
    requires
        forall|t: Seq<char>| #[trigger] selects(term, t) == such(t),
    ensures
        store.has_such_term(id, such) == store.has_term(id, term),
{
    if store.has_term(id, term) {
        let t = choose|t: Seq<char>| #[trigger] store.terms.contains((t, id)) && selects(term, t);
        assert(store.terms.contains((t, id)) && such(t));
    }
    if store.has_such_term(id, such) {
        let t = choose|t: Seq<char>| #[trigger] store.terms.contains((t, id)) && such(t);
        assert(selects(term, t) == such(t));
        assert(store.terms.contains((t, id)) && selects(term, t));
    }
}

/// What the database gives of a term's entries is what
/// [`Store::answers_entry_ids`] says: at most one more than fifty thousand.
pub proof fn lemma_entry_ids_are_answered(store: Store, term: Seq<char>, rows: Seq<i64>)
    requires
        store.gives_entry_ids(term_ids_view(term), rows),
    ensures
        store.answers_entry_ids(term, rows),
{
    let p = term_ids_view(term).params;
    let such = match prefix_upper_bound(term) {
        Some(_) => |t: Seq<char>| !text_before(t, p[0]->Text_0) && text_before(t, p[1]->Text_0),
        None => |t: Seq<char>| like(p[0]->Text_0, t),
    };
    assert forall|t: Seq<char>| #[trigger] selects(term, t) == such(t) by {}
    assert(store.lists_entries(such, 50_001, rows));
    assert forall|i: int| 0 <= i < rows.len() implies store.has_term(#[trigger] rows[i], term) by {
        lemma_such_term(store, rows[i], such, term);
        assert(store.has_such_term(rows[i], such));
    }
    assert forall|id: i64| #[trigger]
        store.has_term(id, term) && (rows.len() < 50_001 || (rows.len() > 0 && id <= rows.last())) implies rows.contains(
        id,
    ) by {
        lemma_such_term(store, id, such, term);
        assert(store.has_such_term(id, such));
    }
}

} // verus!
