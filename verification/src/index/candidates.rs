//! The candidates of a search: how they are read, scored into results and
//! ranked.

use crate::index::rows::{int_to_kind, kind_number, kind_to_int, number_kind};
use crate::index::sql::{flag, flag_value, values, SqlValue, Statement, StatementView, ValueView};
use crate::index::terms::{placeholder_list, placeholders};
use crate::model::{texts, EntryKind, MatchKind, QueryView, SearchQuery};
use crate::order::{is_order, lemma_order_is_order, lemma_order_unique, order, rank_order, ranked, ranking_is_sorted, ranks, strict_total, Comparable, Ranked};
use crate::path::{component_before, components, lemma_components_before_strict_total, path_before, FilePath};
use crate::text::{ascii_lower_text, signed_decimal, signed_decimal_text, to_ascii_lower, trim_leading_dots, without_leading_dots};
use vstd::prelude::*;
use vstd::seq_lib::to_multiset_build;
use vstd::utf8::encode_utf8;

verus! {

/// What stands before the ids, where candidates are read.
pub const CANDIDATES_HEAD: &'static str =
    "SELECT entries_main.path, entries_main.kind, roots_pri.priority, entries_main.size, entries_main.mtime FROM entries AS entries_main JOIN roots AS roots_pri ON roots_pri.id = entries_main.root_id WHERE entries_main.id IN (";

/// Live entries of given roots; stands between the ids and the roots.
pub const CANDIDATES_LIVE: &'static str = ") AND entries_main.deleted = 0 AND entries_main.root_id IN (";

/// Stands before the number of the only kind that is sought.
pub const CANDIDATES_KIND: &'static str = " AND entries_main.kind = ";

/// A row is visible when it is clean, when the query relaxes the flag, or when
/// its own root allows it; a sensitive row never is.
pub const CANDIDATES_VISIBLE: &'static str =
    " AND (entries_main.hidden = 0 OR ? OR roots_pri.include_hidden = 1) AND (entries_main.ignored = 0 OR ? OR roots_pri.include_ignored = 1) AND entries_main.sensitive = 0";

/// Stands before the extensions that are sought.
pub const CANDIDATES_EXTENSION: &'static str = " AND entries_main.extension IN (";

/// Closes a list.
pub const LIST_END: &'static str = ")";

/// The condition on kinds: none where files and directories are sought, else
/// the one kind that is.
pub open spec fn kind_clause(query: QueryView) -> Seq<char> {
    if query.include_files && query.include_directories {
        Seq::empty()
    } else if query.include_files {
        CANDIDATES_KIND@ + signed_decimal(kind_number(EntryKind::File) as int)
    } else {
        CANDIDATES_KIND@ + signed_decimal(kind_number(EntryKind::Directory) as int)
    }
}

/// The condition on extensions, where the query names any.
pub open spec fn extension_clause(query: QueryView) -> Seq<char> {
    if query.extensions.len() == 0 {
        Seq::empty()
    } else {
        CANDIDATES_EXTENSION@ + placeholder_list(query.extensions.len()) + LIST_END@
    }
}

/// An extension as the index stores it: without leading dots, in lower case.
pub open spec fn normal_extension(extension: Seq<char>) -> Seq<char> {
    ascii_lower_text(without_leading_dots(extension))
}

/// Numbers as parameters.
pub open spec fn number_values(numbers: Seq<i64>) -> Seq<ValueView> {
    numbers.map_values(|n: i64| ValueView::Integer(n))
}

/// Extensions as parameters.
pub open spec fn extension_values(extensions: Seq<Seq<char>>) -> Seq<ValueView> {
    extensions.map_values(|e: Seq<char>| ValueView::Text(normal_extension(e)))
}

/// The statement that reads the candidates among these ids: what is live,
/// within the roots, of a kind and an extension that is sought, and visible.
pub open spec fn candidates_view(
    ids: Seq<i64>,
    root_ids: Seq<i64>,
    query: QueryView,
) -> StatementView {
    StatementView {
        sql: CANDIDATES_HEAD@ + placeholder_list(ids.len()) + CANDIDATES_LIVE@ + placeholder_list(
            root_ids.len(),
        ) + LIST_END@ + kind_clause(query) + CANDIDATES_VISIBLE@ + extension_clause(query),
        params: number_values(ids) + number_values(root_ids) + seq![
            flag_value(query.include_hidden),
            flag_value(query.include_ignored),
        ] + extension_values(query.extensions),
    }
}

fn push_numbers(params: &mut Vec<SqlValue>, numbers: &[i64])
    ensures
        values(final(params)@) == values(old(params)@) + number_values(numbers@),
{
    let ghost start = values(params@);
    assert(start =~= start + number_values(numbers@.take(0)));
    let mut i: usize = 0;
    while i < numbers.len()
        invariant
            i <= numbers.len(),
            values(params@) == start + number_values(numbers@.take(i as int)),
        decreases numbers.len() - i,
    {
        let ghost before = params@;
        params.push(SqlValue::Integer(numbers[i]));
        assert(values(params@) =~= values(before).push(ValueView::Integer(numbers@[i as int])));
        assert(number_values(numbers@.take(i + 1)) =~= number_values(numbers@.take(i as int)).push(
            ValueView::Integer(numbers@[i as int]),
        ));
        i += 1;
    }
    assert(numbers@.take(i as int) =~= numbers@);
}

fn push_extensions(params: &mut Vec<SqlValue>, extensions: &Vec<String>)
    ensures
        values(final(params)@) == values(old(params)@) + extension_values(texts(extensions@)),
{
    let ghost start = values(params@);
    assert(start =~= start + extension_values(texts(extensions@).take(0)));
    let mut i: usize = 0;
    while i < extensions.len()
        invariant
            i <= extensions.len(),
            values(params@) == start + extension_values(texts(extensions@).take(i as int)),
        decreases extensions.len() - i,
    {
        let ghost before = params@;
        let bare = trim_leading_dots(extensions[i].as_str());
        let value = SqlValue::Text(to_ascii_lower(bare.as_str()));
        let ghost view = value@;
        params.push(value);
        assert(values(params@) =~= values(before).push(view));
        assert(extension_values(texts(extensions@).take(i + 1)) =~= extension_values(
            texts(extensions@).take(i as int),
        ).push(view));
        i += 1;
    }
    assert(texts(extensions@).take(i as int) =~= texts(extensions@));
}

/// The statement that reads the candidates among these ids.
pub fn candidates_statement(ids: &[i64], root_ids: &[i64], query: &SearchQuery) -> (r: Statement)
    requires
        query@.include_files || query@.include_directories,
    ensures
        r@ == candidates_view(ids@, root_ids@, query@),
{
    let mut sql = CANDIDATES_HEAD.to_owned();
    sql.append(placeholders(ids.len()).as_str());
    sql.append(CANDIDATES_LIVE);
    sql.append(placeholders(root_ids.len()).as_str());
    sql.append(LIST_END);
    let ghost scoped = sql@;
    if query.include_files && query.include_directories {
        assert(sql@ =~= scoped + kind_clause(query@));
    } else {
        let number: i64 = if query.include_files {
            kind_to_int(EntryKind::File)
        } else {
            kind_to_int(EntryKind::Directory)
        };
        sql.append(CANDIDATES_KIND);
        sql.append(signed_decimal_text(number).as_str());
        assert(sql@ =~= scoped + kind_clause(query@));
    }
    sql.append(CANDIDATES_VISIBLE);
    let ghost visible = sql@;
    assert(texts(query.extensions@).len() == query.extensions.len());
    if query.extensions.len() > 0 {
        sql.append(CANDIDATES_EXTENSION);
        sql.append(placeholders(query.extensions.len()).as_str());
        sql.append(LIST_END);
        assert(sql@ =~= visible + extension_clause(query@));
    } else {
        assert(sql@ =~= visible + extension_clause(query@));
    }
    let mut params: Vec<SqlValue> = Vec::new();
    push_numbers(&mut params, ids);
    push_numbers(&mut params, root_ids);
    let ghost before = params@;
    params.push(flag(query.include_hidden));
    params.push(flag(query.include_ignored));
    assert(values(params@) =~= values(before) + seq![
        flag_value(query@.include_hidden),
        flag_value(query@.include_ignored),
    ]);
    push_extensions(&mut params, &query.extensions);
    let r = Statement { sql, params };
    assert(r@ =~= candidates_view(ids@, root_ids@, query@));
    r
}

/// The columns of a candidate as they are read; a size or a time that is
/// missing is none.
#[derive(Debug, Clone, PartialEq, Eq)]
pub struct CandidateColumns {
    pub path: String,
    pub kind: i64,
    pub priority: i32,
    pub size: Option<i64>,
    pub mtime: Option<i64>,
}

/// What [`CandidateColumns`] say.
pub struct ColumnsView {
    pub path: Seq<char>,
    pub kind: i64,
    pub priority: i32,
    pub size: Option<i64>,
    pub mtime: Option<i64>,
}

impl View for CandidateColumns {
    type V = ColumnsView;

    open spec fn view(&self) -> ColumnsView {
        ColumnsView {
            path: self.path@,
            kind: self.kind,
            priority: self.priority,
            size: self.size,
            mtime: self.mtime,
        }
    }
}

/// What rows of columns say.
pub open spec fn column_views(rows: Seq<CandidateColumns>) -> Seq<ColumnsView> {
    rows.map_values(|r: CandidateColumns| r@)
}

/// An entry that may become a result.
#[derive(Debug)]
pub struct CandidateRow {
    pub path: FilePath,
    pub kind: EntryKind,
    pub root_priority: i32,
    pub byte_size: Option<u64>,
    pub modified_unix_seconds: Option<u64>,
}

/// What a [`CandidateRow`] says.
pub struct CandidateView {
    pub path: Seq<u8>,
    pub kind: EntryKind,
    pub root_priority: i32,
    pub byte_size: Option<u64>,
    pub modified_unix_seconds: Option<u64>,
}

impl View for CandidateRow {
    type V = CandidateView;

    open spec fn view(&self) -> CandidateView {
        CandidateView {
            path: self.path@,
            kind: self.kind,
            root_priority: self.root_priority,
            byte_size: self.byte_size,
            modified_unix_seconds: self.modified_unix_seconds,
        }
    }
}

/// What a list of candidates says.
pub open spec fn candidate_views(rows: Seq<CandidateRow>) -> Seq<CandidateView> {
    rows.map_values(|r: CandidateRow| r@)
}

/// A number that may be missing, where it is not negative.
pub open spec fn unsigned_or_none(n: Option<i64>) -> Option<u64> {
    match n {
        Some(i) => if i >= 0 {
            Some(i as u64)
        } else {
            None
        },
        None => None,
    }
}

/// The candidate of a row.
pub open spec fn candidate_of(row: ColumnsView) -> CandidateView {
    CandidateView {
        path: encode_utf8(row.path),
        kind: number_kind(row.kind),
        root_priority: row.priority,
        byte_size: unsigned_or_none(row.size),
        modified_unix_seconds: unsigned_or_none(row.mtime),
    }
}

fn unsigned(n: Option<i64>) -> (r: Option<u64>)
    ensures
        r == unsigned_or_none(n),
{
    match n {
        Some(i) => if i >= 0 {
            Some(i as u64)
        } else {
            None
        },
        None => None,
    }
}

/// The candidate of a row.
pub fn candidate_row(row: &CandidateColumns) -> (r: CandidateRow)
    ensures
        r@ == candidate_of(row@),
{
    CandidateRow {
        path: FilePath::from_text(row.path.as_str()),
        kind: int_to_kind(row.kind),
        root_priority: row.priority,
        byte_size: unsigned(row.size),
        modified_unix_seconds: unsigned(row.mtime),
    }
}

/// How well a candidate matches, and how.
#[derive(Debug, Clone, PartialEq, Eq)]
pub struct CandidateScore {
    pub score: i64,
    pub matches: Vec<MatchKind>,
}

/// The name under which the index provides its results.
pub const PROVIDER: &'static str = "sqlite";

/// An entry that matches a query.
#[derive(Debug, PartialEq, Eq)]
pub struct SearchResult {
    pub path: FilePath,
    pub score: i64,
    pub provider: String,
    pub matches: Vec<MatchKind>,
    pub kind: EntryKind,
    pub byte_size: Option<u64>,
    pub modified_unix_seconds: Option<u64>,
}

/// What a [`SearchResult`] says.
#[verifier::ext_equal]
pub struct ResultView {
    pub path: Seq<u8>,
    pub score: i64,
    pub provider: Seq<char>,
    pub matches: Seq<MatchKind>,
    pub kind: EntryKind,
    pub byte_size: Option<u64>,
    pub modified_unix_seconds: Option<u64>,
}

impl View for SearchResult {
    type V = ResultView;

    open spec fn view(&self) -> ResultView {
        ResultView {
            path: self.path@,
            score: self.score,
            provider: self.provider@,
            matches: self.matches@,
            kind: self.kind,
            byte_size: self.byte_size,
            modified_unix_seconds: self.modified_unix_seconds,
        }
    }
}

fn copy_matches(matches: &Vec<MatchKind>) -> (r: Vec<MatchKind>)
    ensures
        r@ == matches@,
{
    let mut out: Vec<MatchKind> = Vec::new();
    let mut i: usize = 0;
    while i < matches.len()
        invariant
            i <= matches.len(),
            out@ == matches@.take(i as int),
        decreases matches.len() - i,
    {
        out.push(matches[i]);
        assert(out@ =~= matches@.take(i + 1));
        i += 1;
    }
    assert(matches@.take(i as int) =~= matches@);
    out
}

impl Clone for SearchResult {
    fn clone(&self) -> (r: Self)
        ensures
            r@ == self@,
    {
        SearchResult {
            path: self.path.clone(),
            score: self.score,
            provider: self.provider.clone(),
            matches: copy_matches(&self.matches),
            kind: self.kind,
            byte_size: self.byte_size,
            modified_unix_seconds: self.modified_unix_seconds,
        }
    }
}

/// What a list of results says.
pub open spec fn result_views(results: Seq<SearchResult>) -> Seq<ResultView> {
    results.map_values(|r: SearchResult| r@)
}

proof fn lemma_path_order(a: Seq<u8>, b: Seq<u8>, c: Seq<u8>)
    ensures
        !path_before(a, a),
        path_before(a, b) && path_before(b, c) ==> path_before(a, c),
        !path_before(a, b) && !path_before(b, c) ==> !path_before(a, c),
{
    lemma_components_before_strict_total();
    let lt = |x: Seq<Seq<u8>>, y: Seq<Seq<u8>>|
        crate::order::lex_before(x, y, |p: Seq<u8>, q: Seq<u8>| component_before(p, q));
    let x = components(a);
    let y = components(b);
    let z = components(c);
    assert(strict_total(lt));
    assert(!lt(x, x));
    assert(lt(x, y) && lt(y, z) ==> lt(x, z));
    if x != y {
        assert(lt(x, y) || lt(y, x));
    }
    if y != z {
        assert(lt(y, z) || lt(z, y));
    }
    assert(lt(z, y) && lt(y, x) ==> lt(z, x));
    assert(lt(x, z) && lt(z, x) ==> lt(x, x));
}

/// The higher score ranks first, and among equal scores the path that comes
/// first.
impl Ranked for ResultView {
    open spec fn before(self, other: Self) -> bool {
        self.score > other.score || (self.score == other.score && path_before(
            self.path,
            other.path,
        ))
    }

    proof fn before_irreflexive(a: Self) {
        lemma_path_order(a.path, a.path, a.path);
    }

    proof fn before_transitive(a: Self, b: Self, c: Self) {
        lemma_path_order(a.path, b.path, c.path);
    }

    proof fn not_before_transitive(a: Self, b: Self, c: Self) {
        lemma_path_order(a.path, b.path, c.path);
    }
}

impl Ranked for SearchResult {
    open spec fn before(self, other: Self) -> bool {
        self@.before(other@)
    }

    proof fn before_irreflexive(a: Self) {
        ResultView::before_irreflexive(a@);
    }

    proof fn before_transitive(a: Self, b: Self, c: Self) {
        ResultView::before_transitive(a@, b@, c@);
    }

    proof fn not_before_transitive(a: Self, b: Self, c: Self) {
        ResultView::not_before_transitive(a@, b@, c@);
    }
}

impl Comparable for SearchResult {
    fn comes_before(&self, other: &Self) -> (r: bool) {
        self.score > other.score || (self.score == other.score && self.path.comes_before_path(
            &other.path,
        ))
    }
}

/// The first results of a list, as many as are asked for.
pub open spec fn first_results(results: Seq<ResultView>, limit: usize) -> Seq<ResultView> {
    if results.len() > limit {
        results.take(limit as int)
    } else {
        results
    }
}

proof fn lemma_ranking(results: Seq<SearchResult>)
    ensures
        order(results) == order(result_views(results)),
{
    let hits = result_views(results);
    let q = order(results);
    lemma_order_is_order(results);
    assert forall|a: int, b: int| 0 <= a < b < q.len() implies ranks(
        hits,
        #[trigger] q[a],
        #[trigger] q[b],
    ) by {
        assert(ranks(results, q[a], q[b]));
    }
    lemma_order_unique(hits, q);
}

/// The best results, as many as are asked for.
pub fn rank_results(results: &Vec<SearchResult>, limit: usize) -> (r: Vec<SearchResult>)
    ensures
        result_views(r@) == first_results(ranked(result_views(results@)), limit),
{
    let p = rank_order(results);
    proof {
        lemma_ranking(results@);
        lemma_order_is_order(results@);
    }
    let ghost all = ranked(result_views(results@));
    let ghost positions = p@.map_values(|i: usize| i as int);
    let count: usize = if p.len() > limit {
        limit
    } else {
        p.len()
    };
    let mut out: Vec<SearchResult> = Vec::new();
    let mut i: usize = 0;
    assert(result_views(out@) =~= all.take(0));
    while i < count
        invariant
            i <= count <= p.len(),
            positions == p@.map_values(|i: usize| i as int),
            positions == order(results@),
            all == positions.map_values(|i: int| results@[i]@),
            is_order(results@, positions),
            result_views(out@) == all.take(i as int),
        decreases count - i,
    {
        let at: usize = p[i];
        assert(positions[i as int] == at);
        let copy = results[at].clone();
        let ghost view = copy@;
        let ghost before = out@;
        out.push(copy);
        assert(result_views(out@) =~= result_views(before).push(view));
        assert(all.take(i + 1) =~= all.take(i as int).push(view));
        i += 1;
    }
    assert(positions.len() == p.len());
    if p.len() <= limit {
        assert(all.take(count as int) =~= all);
    }
    out
}

/// The result of a candidate.
pub open spec fn result_of(candidate: CandidateView, score: CandidateScore) -> ResultView {
    ResultView {
        path: candidate.path,
        score: score.score,
        provider: PROVIDER@,
        matches: score.matches@,
        kind: candidate.kind,
        byte_size: candidate.byte_size,
        modified_unix_seconds: candidate.modified_unix_seconds,
    }
}

/// The results of candidates: those that score above zero.
pub open spec fn hits_of(
    candidates: Seq<CandidateView>,
    scores: Seq<CandidateScore>,
) -> Seq<ResultView>
    decreases candidates.len(),
{
    if candidates.len() == 0 {
        Seq::empty()
    } else {
        let found = hits_of(candidates.drop_last(), scores.drop_last());
        if scores.last().score > 0 {
            found.push(result_of(candidates.last(), scores.last()))
        } else {
            found
        }
    }
}

/// The results of candidates: those that score above zero, in the order of the
/// candidates.
pub fn results_of(candidates: &Vec<CandidateRow>, scores: &Vec<CandidateScore>) -> (r: Vec<
    SearchResult,
>)
    requires
        candidates@.len() == scores@.len(),
    ensures
        result_views(r@) == hits_of(candidate_views(candidates@), scores@),
{
    let ghost views = candidate_views(candidates@);
    let mut out: Vec<SearchResult> = Vec::new();
    let mut i: usize = 0;
    assert(result_views(out@) =~= hits_of(views.take(0), scores@.take(0)));
    while i < candidates.len()
        invariant
            i <= candidates.len(),
            candidates.len() == scores.len(),
            views == candidate_views(candidates@),
            result_views(out@) == hits_of(views.take(i as int), scores@.take(i as int)),
        decreases candidates.len() - i,
    {
        proof {
            assert(views.take(i + 1).drop_last() =~= views.take(i as int));
            assert(scores@.take(i + 1).drop_last() =~= scores@.take(i as int));
        }
        if scores[i].score > 0 {
            let row = &candidates[i];
            let result = SearchResult {
                path: row.path.clone(),
                score: scores[i].score,
                provider: PROVIDER.to_owned(),
                matches: copy_matches(&scores[i].matches),
                kind: row.kind,
                byte_size: row.byte_size,
                modified_unix_seconds: row.modified_unix_seconds,
            };
            let ghost view = result@;
            let ghost before = out@;
            out.push(result);
            assert(result_views(out@) =~= result_views(before).push(view));
        }
        i += 1;
    }
    assert(views.take(i as int) =~= views);
    assert(scores@.take(i as int) =~= scores@);
    out
}

/// The name of a way to match.
pub open spec fn match_name(kind: MatchKind) -> Seq<char> {
    match kind {
        MatchKind::Empty => "Empty"@,
        MatchKind::ExactBasename => "ExactBasename"@,
        MatchKind::BasenamePrefix => "BasenamePrefix"@,
        MatchKind::BasenameToken => "BasenameToken"@,
        MatchKind::PathComponent => "PathComponent"@,
        MatchKind::Substring => "Substring"@,
        MatchKind::Fuzzy => "Fuzzy"@,
        MatchKind::Extension => "Extension"@,
        MatchKind::RootPriority => "RootPriority"@,
    }
}

fn name_of_match(kind: MatchKind) -> (r: &'static str)
    ensures
        r@ == match_name(kind),
{
    match kind {
        MatchKind::Empty => "Empty",
        MatchKind::ExactBasename => "ExactBasename",
        MatchKind::BasenamePrefix => "BasenamePrefix",
        MatchKind::BasenameToken => "BasenameToken",
        MatchKind::PathComponent => "PathComponent",
        MatchKind::Substring => "Substring",
        MatchKind::Fuzzy => "Fuzzy",
        MatchKind::Extension => "Extension",
        MatchKind::RootPriority => "RootPriority",
    }
}

/// The names of ways to match.
pub fn match_names(matches: &[MatchKind]) -> (r: Vec<&'static str>)
    ensures
        r@.len() == matches@.len(),
        forall|i: int| 0 <= i < r@.len() ==> (#[trigger] r@[i])@ == match_name(matches@[i]),
{
    let mut out: Vec<&'static str> = Vec::new();
    let mut i: usize = 0;
    while i < matches.len()
        invariant
            i <= matches.len(),
            out@.len() == i,
            forall|k: int| 0 <= k < i ==> (#[trigger] out@[k])@ == match_name(matches@[k]),
        decreases matches.len() - i,
    {
        out.push(name_of_match(matches[i]));
        i += 1;
    }
    out
}

/// Results come with the higher score first, and those of one score in the
/// order of their paths.
pub proof fn results_are_ranked(hits: Seq<ResultView>, limit: usize, a: int, b: int)
    requires
        0 <= a < b < first_results(ranked(hits), limit).len(),
    ensures
        ({
            let r = first_results(ranked(hits), limit);
            &&& r[a].score >= r[b].score
            &&& r[a].score == r[b].score ==> !path_before(r[b].path, r[a].path)
        }),
{
    lemma_order_is_order(hits);
    ranking_is_sorted(hits, a, b);
}

/// No more results come than are asked for, and where there are not more, none
/// is left out.
pub proof fn results_are_limited(hits: Seq<ResultView>, limit: usize)
    ensures
        first_results(ranked(hits), limit).len() == if hits.len() > limit {
            limit as nat
        } else {
            hits.len()
        },
{
    lemma_order_is_order(hits);
}

/// Every result of the first ones is one of those that were found.
pub proof fn first_results_were_found(hits: Seq<ResultView>, limit: usize, a: int)
    requires
        0 <= a < first_results(ranked(hits), limit).len(),
    ensures
        hits.contains(first_results(ranked(hits), limit)[a]),
{
    lemma_order_is_order(hits);
    assert(hits[order(hits)[a]] == first_results(ranked(hits), limit)[a]);
}

/// Every result is that of a candidate which scores above zero.
pub proof fn results_score_above_zero(
    candidates: Seq<CandidateView>,
    scores: Seq<CandidateScore>,
    i: int,
)
    requires
        candidates.len() == scores.len(),
        0 <= i < hits_of(candidates, scores).len(),
    ensures
        exists|k: int|
            0 <= k < candidates.len() && (#[trigger] scores[k]).score > 0 && hits_of(
                candidates,
                scores,
            )[i] == result_of(candidates[k], scores[k]),
    decreases candidates.len(),
{
    let front = candidates.drop_last();
    let rest = scores.drop_last();
    let found = hits_of(front, rest);
    if i < found.len() {
        results_score_above_zero(front, rest, i);
        let k = choose|k: int|
            0 <= k < front.len() && (#[trigger] rest[k]).score > 0 && found[i] == result_of(
                front[k],
                rest[k],
            );
        assert(scores[k] == rest[k]);
    } else {
        assert(scores[candidates.len() - 1].score > 0);
    }
}

/// Every candidate that scores above zero has a result.
pub proof fn scores_above_zero_become_results(
    candidates: Seq<CandidateView>,
    scores: Seq<CandidateScore>,
    k: int,
)
    requires
        candidates.len() == scores.len(),
        0 <= k < candidates.len(),
        scores[k].score > 0,
    ensures
        hits_of(candidates, scores).contains(result_of(candidates[k], scores[k])),
    decreases candidates.len(),
{
    let front = candidates.drop_last();
    let rest = scores.drop_last();
    let found = hits_of(front, rest);
    let all = hits_of(candidates, scores);
    if k < front.len() {
        scores_above_zero_become_results(front, rest, k);
        let i = choose|i: int| 0 <= i < found.len() && found[i] == result_of(front[k], rest[k]);
        assert(all[i] == found[i]);
    } else {
        assert(all[found.len() as int] == result_of(candidates[k], scores[k]));
    }
}

/// Whether the result of each candidate depends on the candidate alone.
pub open spec fn rates(
    candidates: Seq<CandidateView>,
    scores: Seq<CandidateScore>,
    rate: spec_fn(CandidateView) -> ResultView,
) -> bool {
    &&& candidates.len() == scores.len()
    &&& forall|k: int|
        0 <= k < candidates.len() ==> result_of(#[trigger] candidates[k], scores[k]) == rate(
            candidates[k],
        )
}

/// What one candidate adds to the results.
proof fn lemma_hits_without(
    candidates: Seq<CandidateView>,
    scores: Seq<CandidateScore>,
    j: int,
)
    requires
        candidates.len() == scores.len(),
        0 <= j < candidates.len(),
    ensures
        ({
            let rest = hits_of(candidates.remove(j), scores.remove(j)).to_multiset();
            hits_of(candidates, scores).to_multiset() == if scores[j].score > 0 {
                rest.insert(result_of(candidates[j], scores[j]))
            } else {
                rest
            }
        }),
    decreases candidates.len(),
{
    let last = candidates.len() - 1;
    let front = candidates.drop_last();
    let some = scores.drop_last();
    let less = candidates.remove(j);
    let fewer = scores.remove(j);
    let added = result_of(candidates[last], scores[last]);
    if j == last {
        assert(less =~= front);
        assert(fewer =~= some);
        to_multiset_build(hits_of(front, some), added);
    } else {
        lemma_hits_without(front, some, j);
        assert(less.drop_last() =~= front.remove(j));
        assert(fewer.drop_last() =~= some.remove(j));
        assert(less.last() == candidates[last]);
        assert(fewer.last() == scores[last]);
        let rest = hits_of(less.drop_last(), fewer.drop_last());
        to_multiset_build(hits_of(front, some), added);
        to_multiset_build(rest, added);
        let one = result_of(candidates[j], scores[j]);
        assert(rest.to_multiset().insert(one).insert(added) =~= rest.to_multiset().insert(
            added,
        ).insert(one));
    }
}

/// The same candidates in another order have the same results.
pub proof fn lemma_hits_in_any_order(
    a: Seq<i64>,
    b: Seq<i64>,
    of: spec_fn(i64) -> CandidateView,
    scores: Seq<CandidateScore>,
    others: Seq<CandidateScore>,
    rate: spec_fn(CandidateView) -> ResultView,
)
    requires
        a.no_duplicates(),
        b.no_duplicates(),
        forall|id: i64| #[trigger] a.contains(id) <==> b.contains(id),
        rates(a.map_values(of), scores, rate),
        rates(b.map_values(of), others, rate),
    ensures
        a.len() == b.len(),
        hits_of(a.map_values(of), scores).to_multiset() == hits_of(
            b.map_values(of),
            others,
        ).to_multiset(),
    decreases a.len(),
{
    let x = a.map_values(of);
    let y = b.map_values(of);
    if a.len() == 0 {
        if b.len() > 0 {
            assert(b.contains(b[0]));
            assert(a.contains(b[0]));
        }
        assert(x =~= y);
    } else {
        let last = a.len() - 1;
        let id = a[last];
        assert(a.contains(id));
        assert(b.contains(id));
        let j = choose|j: int| 0 <= j < b.len() && b[j] == id;
        let front = a.remove(last);
        let rest = b.remove(j);
        assert forall|n: i64| #[trigger] front.contains(n) <==> rest.contains(n) by {
            if front.contains(n) {
                let i = choose|i: int| 0 <= i < front.len() && front[i] == n;
                assert(a[i] == n && a[i] != a[last]);
                assert(a.contains(n));
                let k = choose|k: int| 0 <= k < b.len() && b[k] == n;
                assert(k != j);
                assert(rest[if k < j {
                    k
                } else {
                    k - 1
                }] == n);
            }
            if rest.contains(n) {
                let k = choose|k: int| 0 <= k < rest.len() && rest[k] == n;
                let m = if k < j {
                    k
                } else {
                    k + 1
                };
                assert(b[m] == n && b[m] != b[j]);
                assert(b.contains(n));
                assert(a.contains(n));
                let i = choose|i: int| 0 <= i < a.len() && a[i] == n;
                assert(i != last);
                assert(front[i] == n);
            }
        }
        assert(front.map_values(of) =~= x.remove(last));
        assert(rest.map_values(of) =~= y.remove(j));
        let some = scores.remove(last);
        let fewer = others.remove(j);
        assert(rates(front.map_values(of), some, rate)) by {
            assert forall|k: int| 0 <= k < front.len() implies result_of(
                #[trigger] front.map_values(of)[k],
                some[k],
            ) == rate(front.map_values(of)[k]) by {
                assert(x[k] == front.map_values(of)[k]);
            }
        }
        assert(rates(rest.map_values(of), fewer, rate)) by {
            assert forall|k: int| 0 <= k < rest.len() implies result_of(
                #[trigger] rest.map_values(of)[k],
                fewer[k],
            ) == rate(rest.map_values(of)[k]) by {
                let m = if k < j {
                    k
                } else {
                    k + 1
                };
                assert(y[m] == rest.map_values(of)[k]);
                assert(others[m] == fewer[k]);
            }
        }
        lemma_hits_in_any_order(front, rest, of, some, fewer, rate);
        lemma_hits_without(x, scores, last);
        lemma_hits_without(y, others, j);
        assert(x[last] == of(id) && y[j] == of(id));
        assert(result_of(x[last], scores[last]) == rate(of(id)));
        assert(result_of(y[j], others[j]) == rate(of(id)));
    }
}

/// Results tie only where their scores and their paths are the same.
pub proof fn ties_have_one_path(a: ResultView, b: ResultView)
    requires
        !a.before(b),
        !b.before(a),
    ensures
        a.score == b.score,
        components(a.path) == components(b.path),
{
    lemma_components_before_strict_total();
    let lt = |x: Seq<Seq<u8>>, y: Seq<Seq<u8>>|
        crate::order::lex_before(x, y, |p: Seq<u8>, q: Seq<u8>| component_before(p, q));
    let x = components(a.path);
    let y = components(b.path);
    assert(strict_total(lt));
    if x != y {
        assert(lt(x, y) || lt(y, x));
    }
}

/// A candidate tells what its row says: the path of the text, the kind of the
/// number, the priority of its root, and its size and its time where they are
/// there and not negative.
pub proof fn candidates_tell_of_their_row(row: ColumnsView)
    ensures
        candidate_of(row).path == encode_utf8(row.path),
        candidate_of(row).kind == EntryKind::File <==> row.kind == 1,
        candidate_of(row).kind == EntryKind::Directory <==> row.kind == 2,
        candidate_of(row).root_priority == row.priority,
        row.size is Some && row.size->0 >= 0 ==> candidate_of(row).byte_size is Some
            && candidate_of(row).byte_size->0 == row.size->0,
        row.size is None || row.size->0 < 0 ==> candidate_of(row).byte_size is None,
        row.mtime is Some && row.mtime->0 >= 0 ==> candidate_of(row).modified_unix_seconds is Some
            && candidate_of(row).modified_unix_seconds->0 == row.mtime->0,
        row.mtime is None || row.mtime->0 < 0 ==> candidate_of(row).modified_unix_seconds is None,
{
}

/// A result tells of its candidate, with the score and the matches that it was
/// given.
pub proof fn results_tell_of_their_candidate(candidate: CandidateView, score: CandidateScore)
    ensures
        result_of(candidate, score).path == candidate.path,
        result_of(candidate, score).kind == candidate.kind,
        result_of(candidate, score).byte_size == candidate.byte_size,
        result_of(candidate, score).modified_unix_seconds == candidate.modified_unix_seconds,
        result_of(candidate, score).score == score.score,
        result_of(candidate, score).matches == score.matches@,
        result_of(candidate, score).provider == "sqlite"@,
{
}

/// How many of the scores are above zero.
pub open spec fn above_zero(scores: Seq<CandidateScore>) -> nat
    decreases scores.len(),
{
    if scores.len() == 0 {
        0
    } else {
        above_zero(scores.drop_last()) + if scores.last().score > 0 {
            1nat
        } else {
            0nat
        }
    }
}

/// There are as many results as scores above zero.
pub proof fn each_score_above_zero_counts(
    candidates: Seq<CandidateView>,
    scores: Seq<CandidateScore>,
)
    requires
        candidates.len() == scores.len(),
    ensures
        hits_of(candidates, scores).len() == above_zero(scores),
    decreases candidates.len(),
{
    if candidates.len() > 0 {
        each_score_above_zero_counts(candidates.drop_last(), scores.drop_last());
    }
}

/// No result that is left out ranks before one that is given.
pub proof fn the_best_results_are_given(hits: Seq<ResultView>, limit: usize, a: int, b: int)
    requires
        0 <= a < first_results(ranked(hits), limit).len(),
        limit <= b < ranked(hits).len(),
    ensures
        ({
            let given = first_results(ranked(hits), limit)[a];
            let left = ranked(hits)[b];
            &&& left.score <= given.score
            &&& left.score == given.score ==> !path_before(left.path, given.path)
        }),
{
    lemma_order_is_order(hits);
    ranking_is_sorted(hits, a, b);
}

/// The names of the ways to match.
pub proof fn ways_to_match_have_names()
    ensures
        match_name(MatchKind::Empty) == "Empty"@,
        match_name(MatchKind::ExactBasename) == "ExactBasename"@,
        match_name(MatchKind::BasenamePrefix) == "BasenamePrefix"@,
        match_name(MatchKind::BasenameToken) == "BasenameToken"@,
        match_name(MatchKind::PathComponent) == "PathComponent"@,
        match_name(MatchKind::Substring) == "Substring"@,
        match_name(MatchKind::Fuzzy) == "Fuzzy"@,
        match_name(MatchKind::Extension) == "Extension"@,
        match_name(MatchKind::RootPriority) == "RootPriority"@,
{
}

} // verus!
