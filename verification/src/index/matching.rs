//! Which terms a prefix selects.

use crate::index::terms::{last_raisable, lemma_last_raisable, prefix_upper_bound, LAST_ASCII};
use crate::order::{first_difference, lemma_first_difference, lemma_lex_at, text_before};
use crate::text::{ascii_lower, starts_with_text};
use vstd::prelude::*;
use vstd::utf8::*;

verus! {

/// Whether a pattern of the database matches a text: `%` stands for any
/// characters, `_` for any one, and ASCII letters match in either case.
pub open spec fn like(pattern: Seq<char>, text: Seq<char>) -> bool
    decreases pattern.len(), text.len(),
{
    if pattern.len() == 0 {
        text.len() == 0
    } else if pattern[0] == '%' {
        like(pattern.skip(1), text) || (text.len() > 0 && like(pattern, text.skip(1)))
    } else {
        &&& text.len() > 0
        &&& pattern[0] == '_' || ascii_lower(pattern[0]) == ascii_lower(text[0])
        &&& like(pattern.skip(1), text.skip(1))
    }
}

/// Whether the condition that seeks the terms with a prefix selects a stored
/// term: by the range from the prefix to its upper bound, or, for a prefix
/// without one, by a pattern.
pub open spec fn selects(prefix: Seq<char>, stored: Seq<char>) -> bool {
    match prefix_upper_bound(prefix) {
        Some(bound) => !text_before(stored, prefix) && text_before(stored, bound),
        None => like(prefix.push('%'), stored),
    }
}

/// A text starts with an ASCII prefix exactly where its bytes start with those
/// of the prefix.
proof fn lemma_prefix_bytes(text: Seq<char>, prefix: Seq<char>)
    requires
        is_ascii_chars(prefix),
    ensures
        encode_utf8(prefix).len() == prefix.len(),
        starts_with_text(text, prefix) == (encode_utf8(text).len() >= prefix.len() && forall|i: int|
            0 <= i < prefix.len() ==> #[trigger] encode_utf8(text)[i] == encode_utf8(prefix)[i]),
    decreases prefix.len(),
{
    let b = encode_utf8(text);
    let p = encode_utf8(prefix);
    is_ascii_chars_encode_utf8(prefix);
    if prefix.len() == 0 {
        assert(text.subrange(0, 0) =~= prefix);
    } else if text.len() == 0 {
        assert(b.len() == 0);
    } else {
        let rest = text.drop_first();
        let more = prefix.drop_first();
        assert(is_ascii_chars(more)) by {
            assert forall|i: int| 0 <= i < more.len() implies '\0' <= #[trigger] more[i]
                <= '\u{7f}' by {
                assert(more[i] == prefix[i + 1]);
            }
        }
        lemma_prefix_bytes(rest, more);
        is_ascii_chars_encode_utf8(more);
        encode_utf8_first_scalar(text);
        encode_utf8_first_scalar(prefix);
        let b0 = b[0];
        let p0 = p[0];
        assert(p0 <= 0x7f);
        assert(p0 & 0x7f == p0) by (bit_vector)
            requires
                p0 <= 0x7f,
        ;
        assert(prefix[0] as u32 == p0);
        assert(p =~= seq![p0] + encode_utf8(more)) by {
            assert(encode_scalar(prefix[0] as u32).len() == 1);
        }
        if b0 <= 0x7f {
            assert(b0 & 0x7f == b0) by (bit_vector)
                requires
                    b0 <= 0x7f,
            ;
            assert(text[0] as u32 == b0);
            assert(encode_scalar(text[0] as u32).len() == 1);
            assert(b =~= seq![b0] + encode_utf8(rest));
            char_u32_cast(text[0], text[0] as u32);
            char_u32_cast(prefix[0], prefix[0] as u32);
            assert((text[0] == prefix[0]) == (b0 == p0));
            if starts_with_text(text, prefix) {
                assert(text.subrange(0, prefix.len() as int)[0] == prefix[0]);
                assert(rest.subrange(0, more.len() as int) =~= more) by {
                    assert forall|i: int| 0 <= i < more.len() implies rest.subrange(
                        0,
                        more.len() as int,
                    )[i] == more[i] by {
                        assert(text.subrange(0, prefix.len() as int)[i + 1] == prefix[i + 1]);
                    }
                }
                assert(starts_with_text(rest, more));
                assert forall|i: int| 0 <= i < prefix.len() implies #[trigger] b[i] == p[i] by {
                    if i > 0 {
                        assert(encode_utf8(rest)[i - 1] == encode_utf8(more)[i - 1]);
                    }
                }
            }
            if b.len() >= prefix.len() && (forall|i: int|
                0 <= i < prefix.len() ==> #[trigger] b[i] == p[i]) {
                assert(b[0] == p[0]);
                assert forall|i: int| 0 <= i < more.len() implies #[trigger] encode_utf8(rest)[i]
                    == encode_utf8(more)[i] by {
                    assert(b[i + 1] == p[i + 1]);
                }
                assert(starts_with_text(rest, more));
                assert(text.subrange(0, prefix.len() as int) =~= prefix) by {
                    assert forall|i: int| 0 <= i < prefix.len() implies text.subrange(
                        0,
                        prefix.len() as int,
                    )[i] == prefix[i] by {
                        if i > 0 {
                            assert(rest.subrange(0, more.len() as int)[i - 1] == more[i - 1]);
                        }
                    }
                }
            }
        } else {
            assert(b[0] != p[0]);
            if starts_with_text(text, prefix) {
                assert(text.subrange(0, prefix.len() as int)[0] == prefix[0]);
                assert(encode_scalar(text[0] as u32) == encode_scalar(prefix[0] as u32));
                assert(b[0] == encode_scalar(text[0] as u32)[0]);
                assert(p[0] == encode_scalar(prefix[0] as u32)[0]);
            }
        }
    }
}

/// The bytes of an ASCII prefix and of its upper bound.
proof fn lemma_bound_bytes(prefix: Seq<char>)
    requires
        prefix_upper_bound(prefix) is Some,
    ensures
        ({
            let at = last_raisable(prefix);
            let p = encode_utf8(prefix);
            let u = encode_utf8(prefix_upper_bound(prefix)->0);
            &&& 0 <= at < prefix.len()
            &&& p.len() == prefix.len()
            &&& u.len() == at + 1
            &&& u[at] == p[at] + 1
            &&& forall|i: int| 0 <= i < at ==> u[i] == p[i]
        }),
{
    let at = last_raisable(prefix);
    let bound = prefix_upper_bound(prefix)->0;
    lemma_last_raisable(prefix);
    is_ascii_chars_encode_utf8(prefix);
    assert(is_ascii_chars(bound)) by {
        assert forall|i: int| 0 <= i < bound.len() implies '\0' <= #[trigger] bound[i]
            <= LAST_ASCII by {
            if i < at {
                assert(bound[i] == prefix[i]);
            } else {
                assert('\0' <= prefix[at]);
            }
        }
    }
    is_ascii_chars_encode_utf8(bound);
    let p = encode_utf8(prefix);
    let u = encode_utf8(bound);
    assert(prefix[at] as u8 == p[at]);
    assert(bound[at] as u8 == u[at]);
    assert('\0' <= prefix[at]);
    assert forall|i: int| 0 <= i < at implies u[i] == p[i] by {
        assert(bound[i] as u8 == u[i]);
        assert(prefix[i] as u8 == p[i]);
    }
}

/// Every text with a prefix lies between the prefix and its upper bound.
pub proof fn upper_bound_is_after_the_prefix(prefix: Seq<char>, text: Seq<char>)
    requires
        prefix_upper_bound(prefix) is Some,
        starts_with_text(text, prefix),
    ensures
        !text_before(text, prefix),
        text_before(text, prefix_upper_bound(prefix)->0),
{
    let at = last_raisable(prefix);
    let b = encode_utf8(text);
    let p = encode_utf8(prefix);
    let u = encode_utf8(prefix_upper_bound(prefix)->0);
    let lt = |x: u8, y: u8| x < y;
    lemma_prefix_bytes(text, prefix);
    lemma_bound_bytes(prefix);
    assert(first_difference(b, p, p.len() as int));
    lemma_lex_at(b, p, lt, p.len() as int);
    assert(b[at] == p[at]);
    assert(first_difference(b, u, at));
    lemma_lex_at(b, u, lt, at);
}

proof fn lemma_pattern_matches_prefix(prefix: Seq<char>, text: Seq<char>)
    requires
        starts_with_text(text, prefix),
    ensures
        like(prefix.push('%'), text),
    decreases prefix.len() + text.len(),
{
    let pattern = prefix.push('%');
    if prefix.len() == 0 {
        assert(pattern.skip(1) =~= Seq::empty());
        if text.len() > 0 {
            let rest = text.skip(1);
            assert(rest.subrange(0, 0) =~= prefix);
            lemma_pattern_matches_prefix(prefix, rest);
        } else {
            assert(like(pattern.skip(1), text));
        }
    } else {
        let rest = text.skip(1);
        let more = prefix.skip(1);
        assert(pattern.skip(1) =~= more.push('%'));
        assert(text.subrange(0, prefix.len() as int)[0] == prefix[0]);
        assert(rest.subrange(0, more.len() as int) =~= more) by {
            assert forall|i: int| 0 <= i < more.len() implies rest.subrange(0, more.len() as int)[i]
                == more[i] by {
                assert(text.subrange(0, prefix.len() as int)[i + 1] == prefix[i + 1]);
            }
        }
        lemma_pattern_matches_prefix(more, rest);
        if pattern[0] == '%' {
            // the `%` stands for the first character, and for it alone
            assert(like(pattern.skip(1), rest));
            assert(like(pattern, rest));
        }
    }
}

/// A prefix selects every term that starts with it.
pub proof fn terms_with_the_prefix_are_selected(prefix: Seq<char>, stored: Seq<char>)
    requires
        starts_with_text(stored, prefix),
    ensures
        selects(prefix, stored),
{
    match prefix_upper_bound(prefix) {
        Some(_) => upper_bound_is_after_the_prefix(prefix, stored),
        None => lemma_pattern_matches_prefix(prefix, stored),
    }
}

/// An ASCII prefix whose last character is not the last of ASCII selects
/// nothing but the terms that start with it.
pub proof fn only_terms_with_the_prefix_are_selected(prefix: Seq<char>, stored: Seq<char>)
    requires
        prefix.len() > 0,
        is_ascii_chars(prefix),
        prefix.last() < LAST_ASCII,
        selects(prefix, stored),
    ensures
        starts_with_text(stored, prefix),
{
    let at = last_raisable(prefix);
    assert(at == prefix.len() - 1);
    let b = encode_utf8(stored);
    let p = encode_utf8(prefix);
    let u = encode_utf8(prefix_upper_bound(prefix)->0);
    let lt = |x: u8, y: u8| x < y;
    lemma_prefix_bytes(stored, prefix);
    lemma_bound_bytes(prefix);
    let k = lemma_first_difference(b, p);
    lemma_lex_at(b, p, lt, k);
    if k < p.len() {
        assert(k < b.len() && p[k] < b[k]);
        if k < at || b[k] != u[k] {
            assert(first_difference(b, u, k));
            lemma_lex_at(b, u, lt, k);
        } else {
            assert(first_difference(b, u, u.len() as int));
            lemma_lex_at(b, u, lt, u.len() as int);
        }
        assert(false);
    }
}

} // verus!
