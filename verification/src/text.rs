//! Text helpers: characters, ASCII case, substrings and decimal numbers.

use vstd::prelude::*;
use vstd::utf8::*;

verus! {

/// `String::push` appends one character to the end of the text.
pub assume_specification[ String::push ](string: &mut String, ch: char)
    ensures
        final(string)@ == old(string)@.push(ch),
;

/// The characters of a text, in order.
pub fn chars_of(text: &str) -> (r: Vec<char>)
    ensures
        r@ == text@,
{
    let mut out: Vec<char> = Vec::new();
    for c in it: text.chars()
        invariant
            out@ == it.seq().take(it.index()),
            it.seq() == text@,
    {
        out.push(c);
    }
    out
}

/// Whether two texts hold the same characters.
pub fn same_text(a: &str, b: &str) -> (r: bool)
    ensures
        r == (a@ == b@),
{
    let x = a.as_bytes();
    let y = b.as_bytes();
    proof {
        encode_utf8_decode_utf8(a@);
        encode_utf8_decode_utf8(b@);
    }
    same_bytes(x, y)
}

/// Whether two byte strings are equal.
pub fn same_bytes(a: &[u8], b: &[u8]) -> (r: bool)
    ensures
        r == (a@ == b@),
{
    if a.len() != b.len() {
        return false;
    }
    let mut i: usize = 0;
    while i < a.len()
        invariant
            i <= a.len(),
            a.len() == b.len(),
            forall|k: int| 0 <= k < i ==> a@[k] == b@[k],
        decreases a.len() - i,
    {
        if a[i] != b[i] {
            return false;
        }
        i += 1;
    }
    assert(a@ =~= b@);
    true
}

/// One ASCII letter in lower case; any other character unchanged.
pub open spec fn ascii_lower(c: char) -> char {
    if 'A' <= c <= 'Z' {
        (c as u32 + 32) as char
    } else {
        c
    }
}

/// A text with its ASCII letters in lower case.
pub open spec fn ascii_lower_text(s: Seq<char>) -> Seq<char> {
    s.map_values(|c: char| ascii_lower(c))
}

fn lower_char(c: char) -> (r: char)
    ensures
        r == ascii_lower(c),
{
    if 'A' <= c && c <= 'Z' {
        ((c as u8) + 32u8) as char
    } else {
        c
    }
}

/// A copy of the text with its ASCII letters in lower case.
pub fn to_ascii_lower(text: &str) -> (r: String)
    ensures
        r@ == ascii_lower_text(text@),
{
    let mut out = String::new();
    for c in it: text.chars()
        invariant
            out@ == ascii_lower_text(it.seq().take(it.index())),
            it.seq() == text@,
    {
        out.push(lower_char(c));
        assert(it.seq().take(it.index() + 1) =~= it.seq().take(it.index()).push(c));
        assert(out@ =~= ascii_lower_text(it.seq().take(it.index() + 1)));
    }
    assert(text@.take(text@.len() as int) =~= text@);
    out
}

/// Whether `needle` occurs in `hay` at position `at`.
pub open spec fn occurs_at(hay: Seq<char>, needle: Seq<char>, at: int) -> bool {
    &&& 0 <= at
    &&& at + needle.len() <= hay.len()
    &&& hay.subrange(at, at + needle.len()) == needle
}

/// Whether `needle` occurs anywhere in `hay`.
pub open spec fn contains_text(hay: Seq<char>, needle: Seq<char>) -> bool {
    exists|at: int| occurs_at(hay, needle, at)
}

/// Whether `prefix` starts `text`.
pub open spec fn starts_with_text(text: Seq<char>, prefix: Seq<char>) -> bool {
    occurs_at(text, prefix, 0)
}

fn matches_at(hay: &Vec<char>, needle: &Vec<char>, at: usize) -> (r: bool)
    requires
        at + needle@.len() <= hay@.len(),
    ensures
        r == occurs_at(hay@, needle@, at as int),
{
    let mut i: usize = 0;
    while i < needle.len()
        invariant
            i <= needle.len(),
            at + needle.len() <= hay.len(),
            forall|k: int| 0 <= k < i ==> hay@[at + k] == needle@[k],
        decreases needle@.len() - i,
    {
        if hay[at + i] != needle[i] {
            assert(hay@.subrange(at as int, at + needle@.len())[i as int] != needle@[i as int]);
            return false;
        }
        i += 1;
    }
    assert(hay@.subrange(at as int, at + needle@.len()) =~= needle@);
    true
}

/// Whether the text holds `needle` as a run of characters.
pub fn text_contains(text: &str, needle: &str) -> (r: bool)
    ensures
        r == contains_text(text@, needle@),
{
    let hay = chars_of(text);
    let sought = chars_of(needle);
    if sought.len() > hay.len() {
        return false;
    }
    let last: usize = hay.len() - sought.len();
    let mut at: usize = 0;
    while at <= last
        invariant
            hay@ == text@,
            sought@ == needle@,
            last == hay@.len() - sought@.len(),
            at <= last + 1,
            forall|k: int| 0 <= k < at ==> !occurs_at(text@, needle@, k),
        decreases last + 1 - at,
    {
        if matches_at(&hay, &sought, at) {
            return true;
        }
        if at == last {
            assert forall|k: int| !occurs_at(text@, needle@, k) by {}
            return false;
        }
        at += 1;
    }
    false
}

/// Whether the text starts with `prefix`.
pub fn text_starts_with(text: &str, prefix: &str) -> (r: bool)
    ensures
        r == starts_with_text(text@, prefix@),
{
    let hay = chars_of(text);
    let sought = chars_of(prefix);
    if sought.len() > hay.len() {
        return false;
    }
    matches_at(&hay, &sought, 0)
}

/// A text without the dots it starts with.
pub open spec fn without_leading_dots(s: Seq<char>) -> Seq<char>
    decreases s.len(),
{
    if s.len() > 0 && s[0] == '.' {
        without_leading_dots(s.skip(1))
    } else {
        s
    }
}

/// A copy of the text without the dots it starts with.
pub fn trim_leading_dots(text: &str) -> (r: String)
    ensures
        r@ == without_leading_dots(text@),
{
    let all = chars_of(text);
    let mut start: usize = 0;
    assert(all@.skip(0) =~= text@);
    while start < all.len() && all[start] == '.'
        invariant
            start <= all@.len(),
            without_leading_dots(text@) == without_leading_dots(all@.skip(start as int)),
        decreases all@.len() - start,
    {
        assert(all@.skip(start as int).skip(1) =~= all@.skip(start + 1));
        start += 1;
    }
    assert(without_leading_dots(all@.skip(start as int)) == all@.skip(start as int));
    let mut out = String::new();
    let mut i: usize = start;
    while i < all.len()
        invariant
            start <= i <= all@.len(),
            out@ == all@.subrange(start as int, i as int),
        decreases all@.len() - i,
    {
        out.push(all[i]);
        assert(out@ =~= all@.subrange(start as int, i + 1));
        i += 1;
    }
    assert(out@ =~= all@.skip(start as int));
    out
}

/// The character of one decimal digit.
pub open spec fn digit_char(d: int) -> char {
    (48 + d) as char
}

/// Whether a character is a decimal digit.
pub open spec fn is_digit(c: char) -> bool {
    '0' <= c <= '9'
}

/// A number in decimal digits, without leading zeros.
pub open spec fn decimal(n: nat) -> Seq<char>
    decreases n,
{
    if n < 10 {
        seq![digit_char(n as int)]
    } else {
        decimal(n / 10).push(digit_char((n % 10) as int))
    }
}

/// A signed number in decimal digits, with `-` before a negative one.
pub open spec fn signed_decimal(n: int) -> Seq<char> {
    if n < 0 {
        seq!['-'] + decimal((-n) as nat)
    } else {
        decimal(n as nat)
    }
}

/// The number that a run of decimal digits stands for.
pub open spec fn digits_value(s: Seq<char>) -> nat
    decreases s.len(),
{
    if s.len() == 0 {
        0
    } else {
        digits_value(s.drop_last()) * 10 + (s.last() as nat - 48) as nat
    }
}

/// The digits of a number text: one leading `+` is allowed and dropped.
pub open spec fn unsigned_body(s: Seq<char>) -> Seq<char> {
    if s.len() > 0 && s[0] == '+' {
        s.skip(1)
    } else {
        s
    }
}

/// The number that a text stands for, where it is a 64-bit unsigned number:
/// digits, at least one, with at most one `+` before them.
pub open spec fn parse_decimal(s: Seq<char>) -> Option<u64> {
    let body = unsigned_body(s);
    if body.len() > 0 && (forall|i: int| 0 <= i < body.len() ==> is_digit(body[i]))
        && digits_value(body) <= u64::MAX {
        Some(digits_value(body) as u64)
    } else {
        None
    }
}

fn digit_of(d: u64) -> (r: char)
    requires
        d < 10,
    ensures
        r == digit_char(d as int),
{
    (48u8 + d as u8) as char
}

/// A number in decimal digits.
pub fn decimal_text(n: u64) -> (r: String)
    ensures
        r@ == decimal(n as nat),
    decreases n,
{
    let mut out = if n < 10 {
        String::new()
    } else {
        decimal_text(n / 10)
    };
    out.push(digit_of(n % 10));
    proof {
        if n < 10 {
            assert(out@ =~= decimal(n as nat));
        }
    }
    out
}

/// A signed number in decimal digits.
pub fn signed_decimal_text(n: i64) -> (r: String)
    ensures
        r@ == signed_decimal(n as int),
{
    if n < 0 {
        let magnitude: u64 = (-(n as i128)) as u64;
        let mut out = String::new();
        out.push('-');
        let digits = decimal_text(magnitude);
        out.append(digits.as_str());
        assert(out@ =~= signed_decimal(n as int));
        out
    } else {
        decimal_text(n as u64)
    }
}

proof fn lemma_digits_value_grows(s: Seq<char>, n: int)
    requires
        0 <= n <= s.len(),
    ensures
        digits_value(s.take(n)) <= digits_value(s),
    decreases s.len() - n,
{
    if n == s.len() {
        assert(s.take(n) =~= s);
    } else {
        lemma_digits_value_grows(s, n + 1);
        assert(s.take(n + 1).drop_last() =~= s.take(n));
    }
}

/// The number that a text stands for, if it is a 64-bit unsigned number.
pub fn parse_decimal_text(text: &str) -> (r: Option<u64>)
    ensures
        r == parse_decimal(text@),
{
    let all = chars_of(text);
    let start: usize = if all.len() > 0 && all[0] == '+' { 1 } else { 0 };
    let ghost body = unsigned_body(text@);
    assert(body =~= all@.skip(start as int));
    if start == all.len() {
        return None;
    }
    let mut value: u64 = 0;
    let mut i: usize = start;
    while i < all.len()
        invariant
            start <= i <= all.len(),
            body == all@.skip(start as int),
            body == unsigned_body(text@),
            body.len() > 0,
            forall|k: int| 0 <= k < i - start ==> is_digit(body[k]),
            value == digits_value(body.take(i - start)),
        decreases all.len() - i,
    {
        let c = all[i];
        assert(c == body[i - start]);
        if c < '0' || c > '9' {
            assert(!is_digit(body[i - start]));
            return None;
        }
        let d: u64 = (c as u32 - 48) as u64;
        assert(body.take(i - start + 1).drop_last() =~= body.take(i - start));
        assert(digits_value(body.take(i - start + 1)) == value * 10 + d);
        let next = match value.checked_mul(10) {
            Some(tens) => tens.checked_add(d),
            None => None,
        };
        match next {
            Some(v) => {
                value = v;
            },
            None => {
                proof {
                    lemma_digits_value_grows(body, i - start + 1);
                }
                return None;
            },
        }
        i += 1;
    }
    assert(body.take(i - start) =~= body);
    Some(value)
}

proof fn lemma_decimal_reads_back(n: nat)
    ensures
        decimal(n).len() > 0,
        forall|i: int| 0 <= i < decimal(n).len() ==> is_digit(#[trigger] decimal(n)[i]),
        digits_value(decimal(n)) == n,
    decreases n,
{
    if n < 10 {
        let s = decimal(n);
        assert(s.drop_last() =~= Seq::empty());
        assert(digits_value(s.drop_last()) == 0);
    } else {
        lemma_decimal_reads_back(n / 10);
        let s = decimal(n);
        assert(s.drop_last() =~= decimal(n / 10));
        assert forall|i: int| 0 <= i < s.len() implies is_digit(#[trigger] s[i]) by {
            if i < s.len() - 1 {
                assert(s[i] == decimal(n / 10)[i]);
            }
        }
    }
}

/// A 64-bit number written in decimal reads back as itself.
pub proof fn decimal_round_trips(n: u64)
    ensures
        parse_decimal(decimal(n as nat)) == Some(n),
{
    lemma_decimal_reads_back(n as nat);
    let s = decimal(n as nat);
    assert(is_digit(s[0]));
    assert(unsigned_body(s) == s);
}

/// Different numbers have different decimal texts.
pub proof fn decimal_is_injective(a: nat, b: nat)
    requires
        decimal(a) == decimal(b),
    ensures
        a == b,
{
    lemma_decimal_reads_back(a);
    lemma_decimal_reads_back(b);
}

/// Lower case keeps the length of a text, moves the letters from `A` to `Z` to
/// those from `a` to `z`, and leaves every other character alone.
pub proof fn lower_case_changes_ascii_capitals_only(s: Seq<char>, i: int)
    requires
        0 <= i < s.len(),
    ensures
        ascii_lower_text(s).len() == s.len(),
        'A' <= s[i] <= 'Z' ==> ascii_lower_text(s)[i] as int == s[i] as int + 32,
        !('A' <= s[i] <= 'Z') ==> ascii_lower_text(s)[i] == s[i],
{
}

/// What is in lower case stays as it is.
pub proof fn lower_case_is_kept(s: Seq<char>)
    ensures
        ascii_lower_text(ascii_lower_text(s)) == ascii_lower_text(s),
{
    assert(ascii_lower_text(ascii_lower_text(s)) =~= ascii_lower_text(s));
}

/// Exactly the dots before the first other character are taken away.
pub proof fn exactly_the_leading_dots_go(s: Seq<char>)
    ensures
        without_leading_dots(s).len() <= s.len(),
        ({
            let n = s.len() - without_leading_dots(s).len();
            &&& without_leading_dots(s) == s.skip(n)
            &&& forall|i: int| 0 <= i < n ==> #[trigger] s[i] == '.'
            &&& n < s.len() ==> s[n] != '.'
        }),
    decreases s.len(),
{
    if s.len() > 0 && s[0] == '.' {
        let rest = s.skip(1);
        exactly_the_leading_dots_go(rest);
        let n = s.len() - without_leading_dots(s).len();
        assert(rest.skip(n - 1) =~= s.skip(n));
        assert forall|i: int| 0 <= i < n implies #[trigger] s[i] == '.' by {
            if i > 0 {
                assert(rest[i - 1] == '.');
            }
        }
    } else {
        assert(s.skip(0) =~= s);
    }
}

/// A text starts with a prefix exactly where it is the prefix and something more.
pub proof fn starting_is_having_a_rest(text: Seq<char>, prefix: Seq<char>, rest: Seq<char>)
    ensures
        starts_with_text(prefix + rest, prefix),
        starts_with_text(text, prefix) ==> prefix.len() <= text.len() && text == prefix + text.skip(
            prefix.len() as int,
        ),
{
    assert((prefix + rest).subrange(0, prefix.len() as int) =~= prefix);
    if starts_with_text(text, prefix) {
        assert(text.subrange(0, prefix.len() as int) == prefix);
        assert(text =~= prefix + text.skip(prefix.len() as int));
    }
}

/// A text holds another exactly where it is the other with something around it.
pub proof fn holding_is_standing_between(before: Seq<char>, needle: Seq<char>, after: Seq<char>)
    ensures
        contains_text(before + needle + after, needle),
        forall|text: Seq<char>| #[trigger]
            contains_text(text, needle) ==> exists|at: int|
                0 <= at && at + needle.len() <= text.len() && text == #[trigger] text.take(at)
                    + needle + text.skip(at + needle.len()),
{
    let whole = before + needle + after;
    let at = before.len() as int;
    assert(whole.subrange(at, at + needle.len()) =~= needle);
    assert(occurs_at(whole, needle, at));
    assert forall|text: Seq<char>| #[trigger] contains_text(text, needle) implies exists|at: int|
        0 <= at && at + needle.len() <= text.len() && text == #[trigger] text.take(at) + needle
            + text.skip(at + needle.len()) by {
        let at = choose|at: int| occurs_at(text, needle, at);
        assert(text.subrange(at, at + needle.len()) == needle);
        assert(text =~= text.take(at) + needle + text.skip(at + needle.len()));
    }
}

/// A number of one digit is written as that digit, and ten times a number and a
/// digit as the number followed by the digit.
pub proof fn digits_are_written_one_by_one(n: nat, d: nat)
    requires
        d < 10,
    ensures
        decimal(d) == seq![(48 + d) as char],
        n > 0 ==> decimal(10 * n + d) == decimal(n).push((48 + d) as char),
        n > 0 ==> signed_decimal(-n) == seq!['-'] + decimal(n),
        signed_decimal(n as int) == decimal(n),
{
    if n > 0 {
        assert((10 * n + d) / 10 == n && (10 * n + d) % 10 == d);
    }
}

/// A digit is read as its number; a number followed by a digit as ten times the
/// number and the digit, where 64 bits hold that; and one `+` before a number
/// that has none is passed over.
pub proof fn digits_are_read_one_by_one(s: Seq<char>, n: u64, d: nat)
    requires
        d < 10,
        parse_decimal(s) == Some(n),
    ensures
        parse_decimal(seq![(48 + d) as char]) == Some(d as u64),
        parse_decimal(s.push((48 + d) as char)) == if 10 * n + d <= u64::MAX {
            Some((10 * n + d) as u64)
        } else {
            None
        },
        s[0] != '+' ==> parse_decimal(seq!['+'] + s) == Some(n),
{
    let c = (48 + d) as char;
    let one = seq![c];
    assert(one.drop_last() =~= Seq::empty());
    assert(digits_value(one.drop_last()) == 0);
    assert(is_digit(c));
    let body = unsigned_body(s);
    let t = s.push(c);
    assert(unsigned_body(t) =~= body.push(c));
    assert(body.push(c).drop_last() =~= body);
    assert(digits_value(body.push(c)) == digits_value(body) * 10 + d);
    assert forall|i: int| 0 <= i < body.push(c).len() implies is_digit(body.push(c)[i]) by {
        if i < body.len() {
            assert(is_digit(body[i]));
        }
    }
    assert((seq!['+'] + s).skip(1) =~= s);
}

/// What holds anything but digits, or no digit, is no number.
pub proof fn only_digits_are_read(s: Seq<char>, i: int)
    requires
        0 <= i < s.len(),
        !('0' <= s[i] <= '9'),
        i > 0 || s[0] != '+' || s.len() == 1,
    ensures
        parse_decimal(s) is None,
        parse_decimal(Seq::empty()) is None,
{
    let body = unsigned_body(s);
    if s[0] == '+' {
        if s.len() > 1 {
            assert(body[i - 1] == s[i]);
            assert(!is_digit(body[i - 1]));
        }
    } else {
        assert(!is_digit(body[i]));
    }
}

} // verus!
