//! Statements: SQL text with the values of its parameters.

use vstd::prelude::*;

verus! {

/// The value of a statement's parameter.
#[derive(Debug, PartialEq, Eq)]
pub enum SqlValue {
    Null,
    Integer(i64),
    Text(String),
}

/// What a [`SqlValue`] says.
pub enum ValueView {
    Null,
    Integer(i64),
    Text(Seq<char>),
}

impl View for SqlValue {
    type V = ValueView;

    open spec fn view(&self) -> ValueView {
        match self {
            SqlValue::Null => ValueView::Null,
            SqlValue::Integer(n) => ValueView::Integer(*n),
            SqlValue::Text(s) => ValueView::Text(s@),
        }
    }
}

/// What a list of values says.
pub open spec fn values(v: Seq<SqlValue>) -> Seq<ValueView> {
    v.map_values(|x: SqlValue| x@)
}

/// A truth value as the database holds it.
pub open spec fn flag_value(flag: bool) -> ValueView {
    ValueView::Integer(
        if flag {
            1
        } else {
            0
        },
    )
}

/// An optional number as the database holds it.
pub open spec fn optional_integer(n: Option<i64>) -> ValueView {
    match n {
        Some(i) => ValueView::Integer(i),
        None => ValueView::Null,
    }
}

/// An optional text as the database holds it.
pub open spec fn optional_text(s: Option<Seq<char>>) -> ValueView {
    match s {
        Some(text) => ValueView::Text(text),
        None => ValueView::Null,
    }
}

/// A statement and the values of its parameters, in order.
#[derive(Debug, PartialEq, Eq)]
pub struct Statement {
    pub sql: String,
    pub params: Vec<SqlValue>,
}

/// What a [`Statement`] says.
#[verifier::ext_equal]
pub struct StatementView {
    pub sql: Seq<char>,
    pub params: Seq<ValueView>,
}

impl View for Statement {
    type V = StatementView;

    open spec fn view(&self) -> StatementView {
        StatementView { sql: self.sql@, params: values(self.params@) }
    }
}

/// What a list of statements says.
pub open spec fn statement_views(list: Seq<Statement>) -> Seq<StatementView> {
    list.map_values(|s: Statement| s@)
}

/// A truth value as a parameter.
pub fn flag(value: bool) -> (r: SqlValue)
    ensures
        r@ == flag_value(value),
{
    if value {
        SqlValue::Integer(1)
    } else {
        SqlValue::Integer(0)
    }
}

/// An optional number as a parameter.
pub fn integer_or_null(n: Option<i64>) -> (r: SqlValue)
    ensures
        r@ == optional_integer(n),
{
    match n {
        Some(i) => SqlValue::Integer(i),
        None => SqlValue::Null,
    }
}

/// An optional text as a parameter.
pub fn text_or_null(s: Option<String>) -> (r: SqlValue)
    ensures
        r@ == optional_text(crate::path::text_view(s)),
{
    match s {
        Some(text) => SqlValue::Text(text),
        None => SqlValue::Null,
    }
}

/// A text as a parameter.
pub fn text(s: &str) -> (r: SqlValue)
    ensures
        r@ == ValueView::Text(s@),
{
    SqlValue::Text(s.to_owned())
}

impl Clone for SqlValue {
    fn clone(&self) -> (r: Self)
        ensures
            r@ == self@,
    {
        match self {
            SqlValue::Null => SqlValue::Null,
            SqlValue::Integer(n) => SqlValue::Integer(*n),
            SqlValue::Text(s) => SqlValue::Text(s.clone()),
        }
    }
}

impl Clone for Statement {
    fn clone(&self) -> (r: Self)
        ensures
            r@ == self@,
    {
        let mut params: Vec<SqlValue> = Vec::new();
        let mut i: usize = 0;
        assert(values(params@) =~= values(self.params@).take(0));
        while i < self.params.len()
            invariant
                i <= self.params.len(),
                values(params@) == values(self.params@).take(i as int),
            decreases self.params.len() - i,
        {
            let copy = self.params[i].clone();
            let ghost view = copy@;
            let ghost before = params@;
            params.push(copy);
            assert(values(params@) =~= values(before).push(view));
            assert(values(self.params@).take(i + 1) =~= values(self.params@).take(i as int).push(
                view,
            ));
            i += 1;
        }
        assert(values(self.params@).take(i as int) =~= values(self.params@));
        Statement { sql: self.sql.clone(), params }
    }
}

/// A copy of a list of statements.
pub fn copy_statements(list: &Vec<Statement>) -> (r: Vec<Statement>)
    ensures
        statement_views(r@) == statement_views(list@),
{
    let mut out: Vec<Statement> = Vec::new();
    let mut i: usize = 0;
    assert(statement_views(out@) =~= statement_views(list@).take(0));
    while i < list.len()
        invariant
            i <= list.len(),
            statement_views(out@) == statement_views(list@).take(i as int),
        decreases list.len() - i,
    {
        let copy = list[i].clone();
        let ghost view = copy@;
        let ghost before = out@;
        out.push(copy);
        assert(statement_views(out@) =~= statement_views(before).push(view));
        assert(statement_views(list@).take(i + 1) =~= statement_views(list@).take(i as int).push(
            view,
        ));
        i += 1;
    }
    assert(statement_views(list@).take(i as int) =~= statement_views(list@));
    out
}

/// Turns the engine's foreign keys on; without them the terms of a deleted
/// entry would stay and be taken for those of a later entry with its id.
pub const FOREIGN_KEYS_ON: &'static str = "PRAGMA foreign_keys = ON";

/// Counts the live entries of a root.
pub const COUNT_ENTRIES: &'static str = "SELECT COUNT(*) FROM entries WHERE root_id = ?1 AND deleted = 0";

/// The statement that counts the live entries of a root.
pub open spec fn count_entries_view(root_id: i64) -> StatementView {
    StatementView { sql: COUNT_ENTRIES@, params: seq![ValueView::Integer(root_id)] }
}

/// The statement that counts the live entries of a root.
pub fn count_entries_statement(root_id: i64) -> (r: Statement)
    ensures
        r@ == count_entries_view(root_id),
{
    let r = Statement { sql: COUNT_ENTRIES.to_owned(), params: vec![SqlValue::Integer(root_id)] };
    assert(r@.params =~= seq![ValueView::Integer(root_id)]);
    r
}

} // verus!
