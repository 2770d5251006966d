//! Finding terms by their prefix, and lists of placeholders and ids.

use crate::index::sql::{text, values, SqlValue, Statement, StatementView, ValueView};
use crate::path::text_view;
use crate::text::chars_of;
use vstd::prelude::*;
use vstd::utf8::is_ascii_chars;

verus! {

/// The last of the ASCII characters.
pub const LAST_ASCII: char = '\u{7f}';

/// The last position of a character that has an ASCII character after it; -1
/// where there is none.
pub open spec fn last_raisable(s: Seq<char>) -> int
    decreases s.len(),
{
    if s.len() == 0 {
        -1
    } else if s.last() < LAST_ASCII {
        s.len() - 1
    } else {
        last_raisable(s.drop_last())
    }
}

/// A text that comes after every text with this prefix, for an ASCII prefix
/// that has one: its last character that can be raised is, and what
/// follows is cut.
pub open spec fn prefix_upper_bound(prefix: Seq<char>) -> Option<Seq<char>> {
    let at = last_raisable(prefix);
    if is_ascii_chars(prefix) && at >= 0 {
        Some(prefix.take(at).push((prefix[at] as int + 1) as char))
    } else {
        None
    }
}

/// Bounds of [`last_raisable`], and what it finds.
pub proof fn lemma_last_raisable(s: Seq<char>)
    ensures
        -1 <= last_raisable(s) < s.len() || s.len() == 0,
        s.len() == 0 ==> last_raisable(s) == -1,
        last_raisable(s) >= 0 ==> s[last_raisable(s)] < LAST_ASCII,
        forall|i: int| last_raisable(s) < i < s.len() ==> (#[trigger] s[i]) >= LAST_ASCII,
    decreases s.len(),
{
    if s.len() > 0 && s.last() >= LAST_ASCII {
        lemma_last_raisable(s.drop_last());
        assert forall|i: int| last_raisable(s) < i < s.len() implies (#[trigger] s[i])
            >= LAST_ASCII by {
            if i < s.len() - 1 {
                assert(s.drop_last()[i] == s[i]);
            }
        }
    }
}

/// No character comes before the first.
pub proof fn lemma_first_char(c: char)
    ensures
        '\0' <= c,
{
}

fn next_char(c: char) -> (r: char)
    requires
        c < LAST_ASCII,
    ensures
        r == (c as int + 1) as char,
{
    ((c as u8) + 1u8) as char
}

/// A text that comes after every text with this prefix; none where the
/// prefix is empty, not ASCII, or cannot be raised.
pub fn ascii_prefix_upper_bound(prefix: &str) -> (r: Option<String>)
    ensures
        text_view(r) == prefix_upper_bound(prefix@),
{
    let all = chars_of(prefix);
    let mut i: usize = 0;
    let mut at: Option<usize> = None;
    while i < all.len()
        invariant
            i <= all.len(),
            all@ == prefix@,
            forall|k: int| 0 <= k < i ==> (#[trigger] all@[k]) <= LAST_ASCII,
            match at {
                Some(k) => k < i && all@[k as int] < LAST_ASCII && forall|j: int|
                    k < j < i ==> (#[trigger] all@[j]) >= LAST_ASCII,
                None => forall|j: int| 0 <= j < i ==> (#[trigger] all@[j]) >= LAST_ASCII,
            },
        decreases all.len() - i,
    {
        if all[i] > LAST_ASCII {
            assert(!is_ascii_chars(prefix@)) by {
                assert(prefix@[i as int] > LAST_ASCII);
            }
            return None;
        }
        if all[i] < LAST_ASCII {
            at = Some(i);
        }
        i += 1;
    }
    proof {
        assert forall|k: int| 0 <= k < prefix@.len() implies '\0' <= #[trigger] prefix@[k]
            <= LAST_ASCII by {
            lemma_first_char(prefix@[k]);
            assert(all@[k] <= LAST_ASCII);
        }
        assert(is_ascii_chars(prefix@));
        lemma_last_raisable(all@);
    }
    match at {
        None => {
            proof {
                if last_raisable(all@) >= 0 {
                    assert(all@[last_raisable(all@)] < LAST_ASCII);
                }
            }
            None
        },
        Some(last) => {
            proof {
                let r = last_raisable(all@);
                assert(all@[last as int] < LAST_ASCII);
                if r < last {
                    assert(all@[last as int] >= LAST_ASCII);
                } else if r > last {
                    assert(all@[r] >= LAST_ASCII);
                }
            }
            let mut out = String::new();
            let mut k: usize = 0;
            while k < last
                invariant
                    k <= last < all.len(),
                    all@ == prefix@,
                    all@[last as int] < LAST_ASCII,
                    out@ == prefix@.take(k as int),
                decreases last - k,
            {
                out.push(all[k]);
                assert(out@ =~= prefix@.take(k + 1));
                k += 1;
            }
            out.push(next_char(all[last]));
            Some(out)
        },
    }
}

/// So many placeholders, with commas between them.
pub open spec fn placeholder_list(count: nat) -> Seq<char>
    decreases count,
{
    if count == 0 {
        Seq::empty()
    } else if count == 1 {
        seq!['?']
    } else {
        placeholder_list((count - 1) as nat) + seq![',', '?']
    }
}

/// So many placeholders, with commas between them.
pub fn placeholders(count: usize) -> (r: String)
    ensures
        r@ == placeholder_list(count as nat),
{
    let mut out = String::new();
    let mut i: usize = 0;
    while i < count
        invariant
            i <= count,
            out@ == placeholder_list(i as nat),
        decreases count - i,
    {
        if i > 0 {
            out.push(',');
        }
        out.push('?');
        i += 1;
        assert(out@ =~= placeholder_list(i as nat));
    }
    out
}

/// Selects the terms from one text up to, but not with, another.
pub const TERM_RANGE: &'static str = "term_index.term >= ? AND term_index.term < ?";

/// Selects the terms that a pattern matches.
pub const TERM_PATTERN: &'static str = "term_index.term LIKE ?";

/// The condition that selects the terms with a prefix.
pub open spec fn prefix_clause(term: Seq<char>) -> Seq<char> {
    match prefix_upper_bound(term) {
        Some(_) => TERM_RANGE@,
        None => TERM_PATTERN@,
    }
}

/// The parameters of the condition that selects the terms with a prefix.
pub open spec fn prefix_params(term: Seq<char>) -> Seq<ValueView> {
    match prefix_upper_bound(term) {
        Some(bound) => seq![ValueView::Text(term), ValueView::Text(bound)],
        None => seq![ValueView::Text(term.push('%'))],
    }
}

/// The condition that selects the terms with a prefix, and its parameters.
pub fn term_prefix_clause(term: &str) -> (r: (String, Vec<SqlValue>))
    ensures
        r.0@ == prefix_clause(term@),
        values(r.1@) == prefix_params(term@),
{
    match ascii_prefix_upper_bound(term) {
        Some(bound) => {
            let params: Vec<SqlValue> = vec![text(term), SqlValue::Text(bound)];
            assert(values(params@) =~= prefix_params(term@));
            (TERM_RANGE.to_owned(), params)
        },
        None => {
            let mut pattern = term.to_owned();
            pattern.push('%');
            let params: Vec<SqlValue> = vec![SqlValue::Text(pattern)];
            assert(values(params@) =~= prefix_params(term@));
            (TERM_PATTERN.to_owned(), params)
        },
    }
}

/// The candidate work bound for one search. A term that more entries have
/// yields this many of them, and the search reports that its coverage is
/// truncated.
pub const MAX_KFS_CANDIDATE_ROWS: usize = 50_000;

/// What stands before the condition on a term, where its entries are sought.
pub const TERM_IDS_HEAD: &'static str =
    "SELECT DISTINCT term_index.entry_id FROM terms AS term_index WHERE ";

/// What stands after the condition on a term, where its entries are sought.
pub const TERM_IDS_TAIL: &'static str = " ORDER BY term_index.entry_id LIMIT ?";

/// The statement that finds the entries with a term of this prefix: at most
/// one more than a search takes, so that it can tell that there are more.
pub open spec fn term_ids_view(term: Seq<char>) -> StatementView {
    StatementView {
        sql: TERM_IDS_HEAD@ + prefix_clause(term) + TERM_IDS_TAIL@,
        params: prefix_params(term).push(ValueView::Integer(50_001)),
    }
}

/// The statement that finds the entries with a term of this prefix.
pub fn term_ids_statement(term: &str) -> (r: Statement)
    ensures
        r@ == term_ids_view(term@),
{
    let (clause, mut params) = term_prefix_clause(term);
    let mut sql = TERM_IDS_HEAD.to_owned();
    sql.append(clause.as_str());
    sql.append(TERM_IDS_TAIL);
    let ghost before = params@;
    let limit: i64 = MAX_KFS_CANDIDATE_ROWS as i64 + 1;
    params.push(SqlValue::Integer(limit));
    assert(values(params@) =~= values(before).push(ValueView::Integer(limit)));
    Statement { sql, params }
}

/// The upper bound of an ASCII prefix: its last character that is not the last of
/// ASCII is raised by one, and what follows is cut. A prefix without such a
/// character, the empty one among them, has no bound, and neither has one that is
/// not ASCII.
pub proof fn upper_bounds_raise_one_character(front: Seq<char>, c: char, n: nat)
    ensures
        ({
            let last = Seq::new(n, |i: int| '\u{7f}');
            let prefix = front.push(c) + last;
            &&& is_ascii_chars(prefix) && c != '\u{7f}' ==> prefix_upper_bound(prefix) == Some(
                front.push((c as int + 1) as char),
            )
            &&& !is_ascii_chars(prefix) ==> prefix_upper_bound(prefix) is None
            &&& prefix_upper_bound(last) is None
        }),
    decreases n,
{
    let last = Seq::new(n, |i: int| '\u{7f}');
    let prefix = front.push(c) + last;
    lemma_last_raisable(prefix);
    lemma_last_raisable(last);
    let at = front.len() as int;
    if last_raisable(last) >= 0 {
        assert(last[last_raisable(last)] == '\u{7f}');
    }
    if is_ascii_chars(prefix) && c != LAST_ASCII {
        let found = last_raisable(prefix);
        assert(prefix[at] == c);
        if found < at {
            assert(prefix[at] >= LAST_ASCII);
        } else if found > at {
            assert(prefix[found] == last[found - at - 1]);
        }
        assert(prefix.take(at) =~= front);
    }
}

} // verus!
