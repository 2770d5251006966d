//! Paths as byte strings: their components, prefixes, names and order.
//!
//! A path is a run of bytes with `/` between its components, as on any Unix
//! system. It need not be UTF-8.

use crate::order::{bytes_before, bytes_come_before, first_difference, lemma_bytes_before_strict_total, lemma_lex_at, lemma_lex_strict_total, lex_before, strict_total};
use crate::text::same_bytes;
use vstd::prelude::*;
use vstd::slice::*;
use vstd::std_specs::cmp::PartialEqSpecImpl;
use vstd::utf8::*;

verus! {

/// The error of a byte string that is not UTF-8.
#[verifier::external_type_specification]
#[verifier::external_body]
pub struct ExUtf8Error(core::str::Utf8Error);

/// `core::str::from_utf8` reads bytes as text: it succeeds exactly on valid
/// UTF-8, and the text is then the one whose encoding these bytes are.
pub assume_specification[ core::str::from_utf8 ](v: &[u8]) -> (r: Result<
    &str,
    core::str::Utf8Error,
>)
    ensures
        r is Ok <==> valid_utf8(v@),
        r matches Ok(text) ==> encode_utf8(text@) == v@,
;

/// The text of a byte string that is not UTF-8, with each malformed part
/// replaced by U+FFFD.
pub uninterp spec fn replaced_utf8(bytes: Seq<u8>) -> Seq<char>;

/// The text of a byte string: the one that it encodes, where it is UTF-8, else
/// the one with its malformed parts replaced.
pub open spec fn lossy_utf8(bytes: Seq<u8>) -> Seq<char> {
    if valid_utf8(bytes) {
        decode_utf8(bytes)
    } else {
        replaced_utf8(bytes)
    }
}

/// `String::from_utf8_lossy`: bytes as text, malformed parts replaced. Valid
/// UTF-8 comes out as the text it encodes; which characters malformed bytes
/// become is not stated beyond being a function of the bytes.
#[verifier::external_body]
fn lossy(bytes: &[u8]) -> (r: String)
    ensures
        r@ == if valid_utf8(bytes@) {
            decode_utf8(bytes@)
        } else {
            replaced_utf8(bytes@)
        },
{
    String::from_utf8_lossy(bytes).into_owned()
}

/// The text that bytes encode, where they are UTF-8.
pub open spec fn utf8_text(bytes: Seq<u8>) -> Option<Seq<char>> {
    if valid_utf8(bytes) {
        Some(decode_utf8(bytes))
    } else {
        None
    }
}

/// The view of an optional text.
pub open spec fn text_view(text: Option<String>) -> Option<Seq<char>> {
    match text {
        Some(s) => Some(s@),
        None => None,
    }
}

fn text_of(bytes: &[u8]) -> (r: Option<String>)
    ensures
        text_view(r) == utf8_text(bytes@),
{
    match core::str::from_utf8(bytes) {
        Ok(text) => {
            proof {
                encode_utf8_decode_utf8(text@);
            }
            Some(text.to_owned())
        },
        Err(_) => None,
    }
}

/// Where the run of non-separator bytes that starts at `i` ends.
pub open spec fn piece_end(b: Seq<u8>, i: int) -> int
    decreases b.len() - i,
{
    if i >= b.len() || b[i] == 47 {
        i
    } else {
        piece_end(b, i + 1)
    }
}

/// A run ends at the next separator or at the end of the path.
pub proof fn lemma_piece_end(b: Seq<u8>, i: int)
    requires
        0 <= i <= b.len(),
    ensures
        i <= piece_end(b, i) <= b.len(),
        forall|k: int| i <= k < piece_end(b, i) ==> b[k] != 47,
        piece_end(b, i) < b.len() ==> b[piece_end(b, i)] == 47,
    decreases b.len() - i,
{
    if !(i >= b.len() || b[i] == 47) {
        lemma_piece_end(b, i + 1);
    }
}

/// The start and end of each component from position `i` on. Empty runs
/// between separators and runs of one dot are no components.
pub open spec fn body_spans(b: Seq<u8>, i: int) -> Seq<(int, int)>
    decreases b.len() + 1 - i,
{
    if i < 0 || i >= b.len() {
        Seq::empty()
    } else {
        let j = piece_end(b, i);
        proof {
            lemma_piece_end(b, i);
        }
        let rest = body_spans(b, j + 1);
        if j == i || (j == i + 1 && b[i] == 46) {
            rest
        } else {
            seq![(i, j)] + rest
        }
    }
}

/// Whether a path starts at the root of the file system.
pub open spec fn is_rooted(b: Seq<u8>) -> bool {
    b.len() > 0 && b[0] == 47
}

/// Whether a path starts with a component of one dot.
pub open spec fn starts_at_dot(b: Seq<u8>) -> bool {
    b.len() > 0 && b[0] == 46 && (b.len() == 1 || b[1] == 47)
}

/// The start and end of each component of a path: the leading separator or
/// the leading dot, if there is one, and the components that follow.
pub open spec fn spans(b: Seq<u8>) -> Seq<(int, int)> {
    if is_rooted(b) || starts_at_dot(b) {
        seq![(0int, 1int)] + body_spans(b, 1)
    } else {
        body_spans(b, 0)
    }
}

/// The components of a path: `/` for its root, `.` for a leading dot, and the
/// names in between, `..` among them.
pub open spec fn components(b: Seq<u8>) -> Seq<Seq<u8>> {
    spans(b).map_values(|s: (int, int)| b.subrange(s.0, s.1))
}

/// Whether a component is a name, and neither the root nor `.` nor `..`.
pub open spec fn is_name(c: Seq<u8>) -> bool {
    c != seq![47u8] && c != seq![46u8] && c != seq![46u8, 46u8]
}

/// Whether path `b` lies at or below path `base`.
pub open spec fn is_within(b: Seq<u8>, base: Seq<u8>) -> bool {
    components(base).is_prefix_of(components(b))
}

/// The last component of a path, where that is a name.
pub open spec fn file_name(b: Seq<u8>) -> Option<Seq<u8>> {
    let c = components(b);
    if c.len() > 0 && is_name(c.last()) {
        Some(c.last())
    } else {
        None
    }
}

/// The position of the last dot of a name, or -1.
pub open spec fn last_dot(name: Seq<u8>) -> int
    decreases name.len(),
{
    if name.len() == 0 {
        -1
    } else if name.last() == 46 {
        name.len() - 1
    } else {
        last_dot(name.drop_last())
    }
}

/// The part of a name after its last dot, where a dot stands past its start.
pub open spec fn name_extension(name: Seq<u8>) -> Option<Seq<u8>> {
    if last_dot(name) > 0 {
        Some(name.skip(last_dot(name) + 1))
    } else {
        None
    }
}

/// The extension of a path's file name.
pub open spec fn extension(b: Seq<u8>) -> Option<Seq<u8>> {
    match file_name(b) {
        Some(name) => name_extension(name),
        None => None,
    }
}

/// The text of a component that is a name in UTF-8.
pub open spec fn name_text(c: Seq<u8>) -> Option<Seq<char>> {
    if is_name(c) {
        utf8_text(c)
    } else {
        None
    }
}

/// The texts of those components that are names in UTF-8.
pub open spec fn name_texts(c: Seq<Seq<u8>>) -> Seq<Seq<char>> {
    c.filter_map(|piece: Seq<u8>| name_text(piece))
}

/// What is left of path `b` after its first `n` components: the bytes from the
/// start of the next component to the end of the last one.
pub open spec fn tail_after(b: Seq<u8>, n: int) -> Seq<u8> {
    let s = spans(b);
    if n < s.len() {
        b.subrange(s[n].0, s.last().1)
    } else {
        Seq::empty()
    }
}

proof fn lemma_body_spans(b: Seq<u8>, i: int)
    requires
        0 <= i,
    ensures
        forall|k: int|
            0 <= k < body_spans(b, i).len() ==> i <= (#[trigger] body_spans(b, i)[k]).0
                < body_spans(b, i)[k].1 <= b.len(),
        forall|k: int, l: int|
            0 <= k < l < body_spans(b, i).len() ==> (#[trigger] body_spans(b, i)[k]).1 < (
            #[trigger] body_spans(b, i)[l]).0,
    decreases b.len() + 1 - i,
{
    if i < b.len() {
        let j = piece_end(b, i);
        lemma_piece_end(b, i);
        lemma_body_spans(b, j + 1);
        let rest = body_spans(b, j + 1);
        let all = body_spans(b, i);
        if all.len() > rest.len() {
            assert(all =~= seq![(i, j)] + rest);
            assert forall|k: int| 0 <= k < all.len() implies i <= (#[trigger] all[k]).0 < all[k].1
                <= b.len() by {
                if k > 0 {
                    assert(all[k] == rest[k - 1]);
                }
            }
            assert forall|k: int, l: int| 0 <= k < l < all.len() implies (#[trigger] all[k]).1 < (
            #[trigger] all[l]).0 by {
                assert(all[l] == rest[l - 1]);
                if k > 0 {
                    assert(all[k] == rest[k - 1]);
                }
            }
        }
    }
}

/// The components of a path stand in it one after the other.
pub proof fn lemma_spans(b: Seq<u8>)
    ensures
        forall|k: int|
            0 <= k < spans(b).len() ==> 0 <= (#[trigger] spans(b)[k]).0 < spans(b)[k].1
                <= b.len(),
        forall|k: int, l: int|
            0 <= k < l < spans(b).len() ==> (#[trigger] spans(b)[k]).1 <= (#[trigger] spans(
                b,
            )[l]).0,
{
    lemma_body_spans(b, 0);
    lemma_body_spans(b, 1);
}

/// Where one component starts and ends.
#[derive(Clone, Copy)]
pub struct Span {
    pub start: usize,
    pub end: usize,
}

/// The positions of a list of spans.
pub open spec fn span_views(s: Seq<Span>) -> Seq<(int, int)> {
    s.map_values(|x: Span| (x.start as int, x.end as int))
}

/// A path.
#[derive(Debug)]
pub struct FilePath {
    bytes: Vec<u8>,
}

impl View for FilePath {
    type V = Seq<u8>;

    closed spec fn view(&self) -> Seq<u8> {
        self.bytes@
    }
}

/// Paths are equal where their components are.
impl PartialEq for FilePath {
    fn eq(&self, other: &Self) -> (r: bool) {
        self.same_path(other)
    }
}

impl PartialEqSpecImpl for FilePath {
    open spec fn obeys_eq_spec() -> bool {
        true
    }

    open spec fn eq_spec(&self, other: &Self) -> bool {
        components(self@) == components(other@)
    }
}

impl Eq for FilePath {

}

impl Clone for FilePath {
    fn clone(&self) -> (r: Self)
        ensures
            r@ == self@,
    {
        FilePath { bytes: slice_to_vec(self.bytes.as_slice()) }
    }
}

impl FilePath {
    /// The path that a text spells.
    pub fn from_text(text: &str) -> (r: Self)
        ensures
            r@ == encode_utf8(text@),
    {
        FilePath { bytes: slice_to_vec(text.as_bytes()) }
    }

    /// The path of these bytes.
    pub fn from_bytes(bytes: Vec<u8>) -> (r: Self)
        ensures
            r@ == bytes@,
    {
        FilePath { bytes }
    }

    /// The bytes of the path.
    pub fn as_bytes(&self) -> (r: &[u8])
        ensures
            r@ == self@,
    {
        self.bytes.as_slice()
    }

    /// The path as text, if it is UTF-8.
    pub fn to_text(&self) -> (r: Option<String>)
        ensures
            text_view(r) == utf8_text(self@),
    {
        text_of(self.bytes.as_slice())
    }

    /// The path as text, with malformed parts replaced.
    pub fn to_lossy(&self) -> (r: String)
        ensures
            r@ == lossy_utf8(self@),
            valid_utf8(self@) ==> r@ == decode_utf8(self@),
    {
        lossy(self.bytes.as_slice())
    }

    /// Where the components of the path start and end.
    pub fn component_spans(&self) -> (r: Vec<Span>)
        ensures
            span_views(r@) == spans(self@),
    {
        let b = self.bytes.as_slice();
        let mut out: Vec<Span> = Vec::new();
        let mut i: usize = 0;
        if b.len() > 0 && (b[0] == 47 || (b[0] == 46 && (b.len() == 1 || b[1] == 47))) {
            out.push(Span { start: 0, end: 1 });
            i = 1;
        }
        assert(span_views(out@) + body_spans(b@, i as int) =~= spans(b@));
        while i < b.len()
            invariant
                span_views(out@) + body_spans(b@, i as int) == spans(b@),
            decreases b.len() - i,
        {
            let start: usize = i;
            while i < b.len() && b[i] != 47
                invariant
                    start <= i <= b.len(),
                    piece_end(b@, start as int) == piece_end(b@, i as int),
                decreases b.len() - i,
            {
                i += 1;
            }
            let end: usize = i;
            assert(end == piece_end(b@, start as int));
            let ghost before = span_views(out@);
            if end > start && !(end == start + 1 && b[start] == 46) {
                out.push(Span { start, end });
                assert(span_views(out@) =~= before.push((start as int, end as int)));
                assert(before.push((start as int, end as int)) + body_spans(b@, end + 1)
                    =~= before + (seq![(start as int, end as int)] + body_spans(b@, end + 1)));
            }
            if i < b.len() {
                i += 1;
            } else {
                assert(body_spans(b@, i as int) =~= body_spans(b@, end + 1));
            }
        }
        assert(span_views(out@) =~= spans(b@));
        out
    }
}

/// The place of a component among the kinds: the root, `.`, `..`, a name.
pub open spec fn component_class(c: Seq<u8>) -> int {
    if c == seq![47u8] {
        0
    } else if c == seq![46u8] {
        1
    } else if c == seq![46u8, 46u8] {
        2
    } else {
        3
    }
}

/// Whether one component precedes another: by kind, and names by their bytes.
pub open spec fn component_before(a: Seq<u8>, b: Seq<u8>) -> bool {
    component_class(a) < component_class(b) || (component_class(a) == 3 && component_class(b) == 3
        && bytes_before(a, b))
}

/// Whether one path precedes another: component by component.
pub open spec fn path_before(a: Seq<u8>, b: Seq<u8>) -> bool {
    lex_before(components(a), components(b), |x: Seq<u8>, y: Seq<u8>| component_before(x, y))
}

/// Components are strictly and totally ordered.
pub proof fn lemma_component_before_strict_total()
    ensures
        strict_total(|a: Seq<u8>, b: Seq<u8>| component_before(a, b)),
{
    lemma_bytes_before_strict_total();
    let bytes = |a: Seq<u8>, b: Seq<u8>| bytes_before(a, b);
    let comp = |a: Seq<u8>, b: Seq<u8>| component_before(a, b);
    assert forall|a: Seq<u8>| !#[trigger] comp(a, a) by {
        assert(!bytes(a, a));
    }
    assert forall|a: Seq<u8>, b: Seq<u8>, c: Seq<u8>|
        #[trigger] comp(a, b) && #[trigger] comp(b, c) implies comp(a, c) by {
        if component_class(a) == 3 && component_class(c) == 3 {
            assert(bytes(a, b) && bytes(b, c));
        }
    }
    assert forall|a: Seq<u8>, b: Seq<u8>| a != b implies #[trigger] comp(a, b) || comp(b, a) by {
        assert(bytes(a, b) || bytes(b, a));
    }
}

/// Lists of components are strictly and totally ordered.
pub proof fn lemma_components_before_strict_total()
    ensures
        strict_total(
            |a: Seq<Seq<u8>>, b: Seq<Seq<u8>>|
                lex_before(a, b, |x: Seq<u8>, y: Seq<u8>| component_before(x, y)),
        ),
{
    lemma_component_before_strict_total();
    lemma_lex_strict_total(|x: Seq<u8>, y: Seq<u8>| component_before(x, y));
}

fn class_of(c: &[u8]) -> (r: u8)
    ensures
        r == component_class(c@),
{
    if c.len() == 1 && c[0] == 47 {
        assert(c@ =~= seq![47u8]);
        0
    } else if c.len() == 1 && c[0] == 46 {
        assert(c@ =~= seq![46u8]);
        1
    } else if c.len() == 2 && c[0] == 46 && c[1] == 46 {
        assert(c@ =~= seq![46u8, 46u8]);
        2
    } else {
        3
    }
}

fn component_comes_before(a: &[u8], b: &[u8]) -> (r: bool)
    ensures
        r == component_before(a@, b@),
{
    let x: u8 = class_of(a);
    let y: u8 = class_of(b);
    x < y || (x == 3 && y == 3 && bytes_come_before(a, b))
}

impl FilePath {
    fn component<'a>(&'a self, spans_: &Vec<Span>, k: usize) -> (r: &'a [u8])
        requires
            span_views(spans_@) == spans(self@),
            k < spans_@.len(),
        ensures
            r@ == components(self@)[k as int],
    {
        proof {
            lemma_spans(self@);
            assert(span_views(spans_@)[k as int] == spans(self@)[k as int]);
        }
        slice_subrange(self.bytes.as_slice(), spans_[k].start, spans_[k].end)
    }

    /// The number of components.
    pub fn component_count(&self) -> (r: usize)
        ensures
            r == components(self@).len(),
    {
        let s = self.component_spans();
        assert(span_views(s@).len() == s@.len());
        s.len()
    }

    /// Whether this path lies at or below `base`.
    pub fn starts_with(&self, base: &FilePath) -> (r: bool)
        ensures
            r == is_within(self@, base@),
    {
        let s = self.component_spans();
        let t = base.component_spans();
        assert(span_views(s@).len() == s@.len());
        assert(span_views(t@).len() == t@.len());
        if t.len() > s.len() {
            return false;
        }
        let mut k: usize = 0;
        while k < t.len()
            invariant
                k <= t.len() <= s.len(),
                s@.len() == components(self@).len(),
                t@.len() == components(base@).len(),
                span_views(s@) == spans(self@),
                span_views(t@) == spans(base@),
                forall|i: int| 0 <= i < k ==> components(base@)[i] == components(self@)[i],
            decreases t.len() - k,
        {
            if !same_bytes(self.component(&s, k), base.component(&t, k)) {
                assert(components(base@)[k as int] != components(self@).subrange(
                    0,
                    components(base@).len() as int,
                )[k as int]);
                return false;
            }
            k += 1;
        }
        assert(components(base@) =~= components(self@).subrange(0, components(base@).len() as int));
        true
    }

    /// Whether two paths have the same components.
    pub fn same_path(&self, other: &FilePath) -> (r: bool)
        ensures
            r == (components(self@) == components(other@)),
    {
        let r: bool = self.component_count() == other.component_count() && self.starts_with(other);
        proof {
            if r {
                assert(components(self@) =~= components(other@));
            } else if components(self@) == components(other@) {
                assert(components(other@) =~= components(self@).subrange(
                    0,
                    components(other@).len() as int,
                ));
            }
        }
        r
    }

    /// Whether this path precedes the other.
    pub fn comes_before_path(&self, other: &FilePath) -> (r: bool)
        ensures
            r == path_before(self@, other@),
    {
        let s = self.component_spans();
        let t = other.component_spans();
        assert(span_views(s@).len() == s@.len());
        assert(span_views(t@).len() == t@.len());
        let mut k: usize = 0;
        while k < s.len() && k < t.len() && same_bytes(self.component(&s, k), other.component(&t, k))
            invariant
                k <= s.len(),
                k <= t.len(),
                s@.len() == components(self@).len(),
                t@.len() == components(other@).len(),
                span_views(s@) == spans(self@),
                span_views(t@) == spans(other@),
                forall|i: int| 0 <= i < k ==> components(self@)[i] == components(other@)[i],
            decreases s.len() - k,
        {
            k += 1;
        }
        proof {
            let a = components(self@);
            let b = components(other@);
            assert(first_difference(a, b, k as int));
            lemma_lex_at(a, b, |x: Seq<u8>, y: Seq<u8>| component_before(x, y), k as int);
        }
        if k < s.len() && k < t.len() {
            component_comes_before(self.component(&s, k), other.component(&t, k))
        } else {
            s.len() < t.len()
        }
    }

    /// The texts of the components from the `from`-th on that are names in
    /// UTF-8.
    pub fn names_from(&self, from: usize) -> (r: Vec<String>)
        requires
            from <= components(self@).len(),
        ensures
            r@.map_values(|s: String| s@) == name_texts(components(self@).skip(from as int)),
    {
        let s = self.component_spans();
        assert(span_views(s@).len() == s@.len());
        let ghost c = components(self@).skip(from as int);
        let ghost f = |piece: Seq<u8>| name_text(piece);
        let mut out: Vec<String> = Vec::new();
        let mut k: usize = from;
        assert(out@.map_values(|s: String| s@) =~= c.take(0).filter_map(f));
        while k < s.len()
            invariant
                from <= k <= s.len(),
                s@.len() == components(self@).len(),
                span_views(s@) == spans(self@),
                c == components(self@).skip(from as int),
                f == (|piece: Seq<u8>| name_text(piece)),
                out@.map_values(|s: String| s@) == c.take(k - from).filter_map(f),
            decreases s.len() - k,
        {
            let piece = self.component(&s, k);
            assert(piece@ == c[k - from]);
            proof {
                c.lemma_filter_map_take_succ(f, k - from);
            }
            let ghost before = out@;
            if class_of(piece) == 3 {
                match text_of(piece) {
                    Some(text) => {
                        out.push(text);
                        assert(out@.map_values(|s: String| s@) =~= before.map_values(
                            |s: String| s@,
                        ) + seq![text@]);
                    },
                    None => {},
                }
            }
            assert(out@.map_values(|s: String| s@) =~= c.take(k - from + 1).filter_map(f));
            k += 1;
        }
        assert(c.take(k - from) =~= c);
        out
    }

    /// The texts of the components that are UTF-8, the root's `/` among them.
    pub fn component_texts(&self) -> (r: Vec<String>)
        ensures
            r@.map_values(|s: String| s@) == components(self@).filter_map(
                |piece: Seq<u8>| utf8_text(piece),
            ),
    {
        let s = self.component_spans();
        assert(span_views(s@).len() == s@.len());
        let ghost c = components(self@);
        let ghost f = |piece: Seq<u8>| utf8_text(piece);
        let mut out: Vec<String> = Vec::new();
        let mut k: usize = 0;
        assert(out@.map_values(|s: String| s@) =~= c.take(0).filter_map(f));
        while k < s.len()
            invariant
                k <= s.len(),
                s@.len() == c.len(),
                c == components(self@),
                span_views(s@) == spans(self@),
                f == (|piece: Seq<u8>| utf8_text(piece)),
                out@.map_values(|s: String| s@) == c.take(k as int).filter_map(f),
            decreases s.len() - k,
        {
            let piece = self.component(&s, k);
            proof {
                c.lemma_filter_map_take_succ(f, k as int);
            }
            let ghost before = out@;
            match text_of(piece) {
                Some(text) => {
                    out.push(text);
                    assert(out@.map_values(|s: String| s@) =~= before.map_values(|s: String| s@)
                        + seq![text@]);
                },
                None => {},
            }
            assert(out@.map_values(|s: String| s@) =~= c.take(k + 1).filter_map(f));
            k += 1;
        }
        assert(c.take(k as int) =~= c);
        out
    }

    /// The bytes of the last component, if it is a name.
    pub fn file_name(&self) -> (r: Option<&[u8]>)
        ensures
            match r {
                Some(name) => file_name(self@) == Some(name@),
                None => file_name(self@) is None,
            },
    {
        let s = self.component_spans();
        assert(span_views(s@).len() == s@.len());
        if s.len() == 0 {
            return None;
        }
        let last = self.component(&s, s.len() - 1);
        if class_of(last) == 3 {
            Some(last)
        } else {
            None
        }
    }

    /// The last component as text, if it is a name in UTF-8.
    pub fn file_name_text(&self) -> (r: Option<String>)
        ensures
            text_view(r) == match file_name(self@) {
                Some(name) => utf8_text(name),
                None => None,
            },
    {
        match self.file_name() {
            Some(name) => text_of(name),
            None => None,
        }
    }

    /// The extension of the file name as text, if there is one and it is UTF-8.
    pub fn extension_text(&self) -> (r: Option<String>)
        ensures
            text_view(r) == match extension(self@) {
                Some(ext) => utf8_text(ext),
                None => None,
            },
    {
        match self.file_name() {
            Some(name) => {
                let mut n: usize = name.len();
                assert(name@.take(n as int) =~= name@);
                while n > 0 && name[n - 1] != 46
                    invariant
                        n <= name.len(),
                        last_dot(name@) == last_dot(name@.take(n as int)),
                    decreases n,
                {
                    assert(name@.take(n as int).drop_last() =~= name@.take(n - 1));
                    n -= 1;
                }
                assert(last_dot(name@) == n - 1);
                if n > 1 {
                    assert(name@.subrange(n as int, name@.len() as int) =~= name@.skip(
                        last_dot(name@) + 1,
                    ));
                    text_of(slice_subrange(name, n, name.len()))
                } else {
                    None
                }
            },
            None => None,
        }
    }

    /// What is left of this path below `base`, if it lies at or below it.
    pub fn strip_prefix(&self, base: &FilePath) -> (r: Option<FilePath>)
        ensures
            match r {
                Some(rest) => is_within(self@, base@) && rest@ == tail_after(
                    self@,
                    components(base@).len() as int,
                ),
                None => !is_within(self@, base@),
            },
    {
        if !self.starts_with(base) {
            return None;
        }
        let s = self.component_spans();
        let n: usize = base.component_count();
        proof {
            assert(span_views(s@).len() == s@.len());
            lemma_spans(self@);
        }
        if n < s.len() {
            proof {
                assert(span_views(s@)[n as int] == spans(self@)[n as int]);
                assert(span_views(s@)[s@.len() - 1] == spans(self@)[s@.len() - 1]);
                if n < s@.len() - 1 {
                    assert(spans(self@)[n as int].1 <= spans(self@)[s@.len() - 1].0);
                }
            }
            let rest = slice_subrange(self.bytes.as_slice(), s[n].start, s[s.len() - 1].end);
            Some(FilePath { bytes: slice_to_vec(rest) })
        } else {
            let none: Vec<u8> = Vec::new();
            assert(none@ =~= Seq::empty());
            Some(FilePath { bytes: none })
        }
    }

    /// Whether the path holds no bytes.
    pub fn is_empty(&self) -> (r: bool)
        ensures
            r == (self@.len() == 0),
    {
        self.bytes.len() == 0
    }
}

/// A path followed by a separator, unless it is empty or ends in one.
pub open spec fn with_separator(base: Seq<u8>) -> Seq<u8> {
    if base.len() > 0 && base.last() != 47 {
        base.push(47)
    } else {
        base
    }
}

/// The path `rest` as seen from `base`: itself where it is rooted.
pub open spec fn joined(base: Seq<u8>, rest: Seq<u8>) -> Seq<u8> {
    if is_rooted(rest) {
        rest
    } else {
        with_separator(base) + rest
    }
}

impl FilePath {
    /// The path that `rest` names from this path.
    pub fn join(&self, rest: &str) -> (r: FilePath)
        ensures
            r@ == joined(self@, encode_utf8(rest@)),
    {
        self.join_bytes(rest.as_bytes())
    }

    fn join_bytes(&self, tail: &[u8]) -> (r: FilePath)
        ensures
            r@ == joined(self@, tail@),
    {
        if tail.len() > 0 && tail[0] == 47 {
            return FilePath { bytes: slice_to_vec(tail) };
        }
        let mut bytes: Vec<u8> = slice_to_vec(self.bytes.as_slice());
        if bytes.len() > 0 && bytes[bytes.len() - 1] != 47 {
            bytes.push(47);
        }
        let ghost base = bytes@;
        let mut i: usize = 0;
        while i < tail.len()
            invariant
                i <= tail.len(),
                bytes@ == base + tail@.take(i as int),
            decreases tail.len() - i,
        {
            bytes.push(tail[i]);
            assert(tail@.take(i + 1) =~= tail@.take(i as int).push(tail@[i as int]));
            assert(bytes@ =~= base + tail@.take(i + 1));
            i += 1;
        }
        assert(tail@.take(i as int) =~= tail@);
        assert(bytes@ =~= joined(self@, tail@));
        FilePath { bytes }
    }
}

/// The home directory's path in place of a first component `~`.
pub open spec fn expanded(path: Seq<u8>, home: Option<Seq<u8>>) -> Seq<u8> {
    let c = components(path);
    match home {
        Some(h) => if c.len() > 0 && c[0] == seq![126u8] {
            if c.len() == 1 {
                h
            } else {
                joined(h, tail_after(path, 1))
            }
        } else {
            path
        },
        None => path,
    }
}

/// A path with a first component `~` replaced by the home directory, where that
/// is known.
pub fn expand_tilde(path: &FilePath, home: Option<&FilePath>) -> (r: FilePath)
    ensures
        r@ == expanded(
            path@,
            match home {
                Some(h) => Some(h@),
                None => None,
            },
        ),
{
    let s = path.component_spans();
    proof {
        assert(span_views(s@).len() == s@.len());
        lemma_spans(path@);
    }
    match home {
        Some(h) => {
            if s.len() > 0 {
                let first = path.component(&s, 0);
                if first.len() == 1 && first[0] == 126 {
                    assert(first@ =~= seq![126u8]);
                    if s.len() == 1 {
                        return h.clone();
                    }
                    proof {
                        let n = s@.len() - 1;
                        assert(span_views(s@)[1] == spans(path@)[1]);
                        assert(span_views(s@)[n] == spans(path@)[n]);
                        if 1 < n {
                            assert(spans(path@)[1].1 <= spans(path@)[n].0);
                        }
                    }
                    let rest = slice_subrange(
                        path.bytes.as_slice(),
                        s[1].start,
                        s[s.len() - 1].end,
                    );
                    return h.join_bytes(rest);
                }
            }
            path.clone()
        },
        None => path.clone(),
    }
}

/// Spans moved `by` bytes to the right.
spec fn shifted(s: Seq<(int, int)>, by: int) -> Seq<(int, int)> {
    s.map_values(|x: (int, int)| (x.0 + by, x.1 + by))
}

proof fn lemma_piece_end_shift(a: Seq<u8>, b: Seq<u8>, i: int)
    requires
        0 <= i <= b.len(),
    ensures
        piece_end(a + b, a.len() + i) == a.len() + piece_end(b, i),
    decreases b.len() - i,
{
    if i < b.len() && b[i] != 47 {
        assert((a + b)[a.len() + i] == b[i]);
        lemma_piece_end_shift(a, b, i + 1);
    } else if i < b.len() {
        assert((a + b)[a.len() + i] == b[i]);
    }
}

proof fn lemma_body_spans_shift(a: Seq<u8>, b: Seq<u8>, i: int)
    requires
        0 <= i,
    ensures
        body_spans(a + b, a.len() + i) == shifted(body_spans(b, i), a.len() as int),
    decreases b.len() + 1 - i,
{
    if i < b.len() {
        lemma_piece_end(b, i);
        lemma_piece_end_shift(a, b, i);
        let j = piece_end(b, i);
        lemma_body_spans_shift(a, b, j + 1);
        assert((a + b)[a.len() + i] == b[i]);
    }
    assert(body_spans(a + b, a.len() + i) =~= shifted(body_spans(b, i), a.len() as int));
}

proof fn lemma_piece_end_before(a: Seq<u8>, b: Seq<u8>, i: int)
    requires
        a.len() > 0,
        a.last() == 47,
        0 <= i < a.len(),
    ensures
        piece_end(a + b, i) == piece_end(a, i),
        piece_end(a, i) < a.len(),
    decreases a.len() - i,
{
    assert((a + b)[i] == a[i]);
    if a[i] != 47 {
        lemma_piece_end_before(a, b, i + 1);
    }
}

proof fn lemma_body_spans_before(a: Seq<u8>, b: Seq<u8>, i: int)
    requires
        a.len() > 0,
        a.last() == 47,
        0 <= i <= a.len(),
    ensures
        body_spans(a + b, i) == body_spans(a, i) + shifted(body_spans(b, 0), a.len() as int),
    decreases a.len() - i,
{
    if i == a.len() {
        lemma_body_spans_shift(a, b, 0);
        assert(body_spans(a, i) =~= Seq::empty());
    } else {
        lemma_piece_end(a, i);
        lemma_piece_end_before(a, b, i);
        let j = piece_end(a, i);
        lemma_body_spans_before(a, b, j + 1);
        assert((a + b)[i] == a[i]);
    }
    assert(body_spans(a + b, i) =~= body_spans(a, i) + shifted(body_spans(b, 0), a.len() as int));
}

proof fn lemma_trailing_separator(a: Seq<u8>, i: int)
    requires
        0 <= i <= a.len(),
    ensures
        body_spans(a.push(47), i) == body_spans(a, i),
    decreases a.len() - i,
{
    let b = a.push(47);
    if i == a.len() {
        assert(b[i] == 47);
        assert(body_spans(b, i + 1) =~= Seq::empty());
    } else {
        lemma_piece_end(a, i);
        lemma_piece_end_push(a, i);
        let j = piece_end(a, i);
        if j == a.len() {
            assert(body_spans(b, j + 1) =~= Seq::empty());
            assert(body_spans(a, j + 1) =~= Seq::empty());
        } else {
            lemma_trailing_separator(a, j + 1);
        }
        assert(b[i] == a[i]);
    }
    assert(body_spans(b, i) =~= body_spans(a, i));
}

proof fn lemma_piece_end_push(a: Seq<u8>, i: int)
    requires
        0 <= i <= a.len(),
    ensures
        piece_end(a.push(47), i) == piece_end(a, i),
    decreases a.len() - i,
{
    if i < a.len() {
        assert(a.push(47)[i] == a[i]);
        if a[i] != 47 {
            lemma_piece_end_push(a, i + 1);
        }
    }
}

/// A relative path joined below a base has the components of the base and
/// then its own. (A leading dot of it is lost, so it has none here.)
pub proof fn join_appends_components(base: Seq<u8>, rest: Seq<u8>)
    requires
        base.len() > 0,
        !is_rooted(rest),
        !starts_at_dot(rest),
    ensures
        components(joined(base, rest)) == components(base) + components(rest),
        is_within(joined(base, rest), base),
{
    let a = with_separator(base);
    let b = a + rest;
    assert(a.last() == 47);
    assert(b[0] == a[0] && a[0] == base[0]);
    if a.len() > 1 {
        assert(b[1] == a[1]);
    }
    let from = if is_rooted(base) || starts_at_dot(base) {
        1int
    } else {
        0int
    };
    if base.last() != 47 {
        lemma_trailing_separator(base, from);
        if base.len() > 1 {
            assert(a[1] == base[1]);
        }
    }
    assert(spans(a) =~= spans(base));
    assert(is_rooted(b) == is_rooted(a));
    assert(starts_at_dot(b) == starts_at_dot(a));
    lemma_body_spans_before(a, rest, from);
    assert(spans(b) =~= spans(a) + shifted(spans(rest), a.len() as int));
    lemma_spans(base);
    lemma_spans(rest);
    let x = components(b);
    let y = components(base) + components(rest);
    assert(x.len() == y.len());
    assert forall|k: int| 0 <= k < x.len() implies x[k] == y[k] by {
        let n = spans(base).len() as int;
        if k < n {
            let s = spans(base)[k];
            assert(spans(b)[k] == s);
            assert(b.subrange(s.0, s.1) =~= base.subrange(s.0, s.1));
        } else {
            let s = spans(rest)[k - n];
            assert(spans(b)[k] == (s.0 + a.len(), s.1 + a.len()));
            assert(b.subrange(s.0 + a.len(), s.1 + a.len()) =~= rest.subrange(s.0, s.1));
        }
    }
    assert(x =~= y);
    assert(components(base) =~= components(b).subrange(0, components(base).len() as int));
}

/// A path that is UTF-8 survives being kept as text.
pub proof fn utf8_paths_survive_as_text(path: Seq<u8>)
    requires
        valid_utf8(path),
    ensures
        encode_utf8(lossy_utf8(path)) == path,
{
    decode_utf8_encode_utf8(path);
}

/// Exactly what is UTF-8 has a text, and it is the one that encodes to the bytes.
pub proof fn texts_encode_to_the_bytes(bytes: Seq<u8>, text: Seq<char>)
    ensures
        utf8_text(bytes) == Some(text) <==> encode_utf8(text) == bytes,
        lossy_utf8(encode_utf8(text)) == text,
{
    encode_utf8_valid_utf8(text);
    encode_utf8_decode_utf8(text);
    if valid_utf8(bytes) {
        decode_utf8_encode_utf8(bytes);
    }
}

/// The pieces of a path that no leading separator or dot comes before.
spec fn body_pieces(b: Seq<u8>) -> Seq<Seq<u8>> {
    body_spans(b, 0).map_values(|s: (int, int)| b.subrange(s.0, s.1))
}

/// What follows a separator adds its pieces.
proof fn lemma_prefixed(p: Seq<u8>, b: Seq<u8>)
    requires
        p.len() > 1,
        p.last() == 47,
    ensures
        components(p + b) == components(p) + body_pieces(b),
{
    let q = p + b;
    let from = if is_rooted(p) || starts_at_dot(p) {
        1int
    } else {
        0int
    };
    assert(q[0] == p[0] && q[1] == p[1]);
    lemma_body_spans_before(p, b, from);
    lemma_spans(p);
    lemma_body_spans(b, 0);
    let n = spans(p).len() as int;
    assert(spans(q) =~= spans(p) + shifted(body_spans(b, 0), p.len() as int));
    let x = components(q);
    let y = components(p) + body_pieces(b);
    assert forall|k: int| 0 <= k < x.len() implies x[k] == y[k] by {
        if k < n {
            let s = spans(p)[k];
            assert(spans(q)[k] == s);
            assert(q.subrange(s.0, s.1) =~= p.subrange(s.0, s.1));
        } else {
            let s = body_spans(b, 0)[k - n];
            assert(spans(q)[k] == (s.0 + p.len(), s.1 + p.len()));
            assert(q.subrange(s.0 + p.len(), s.1 + p.len()) =~= b.subrange(s.0, s.1));
        }
    }
    assert(x =~= y);
}

/// A separator at the end adds nothing.
proof fn lemma_closed(a: Seq<u8>)
    requires
        a.len() > 0,
    ensures
        components(a.push(47)) == components(a),
{
    let p = a.push(47);
    assert(p[0] == a[0]);
    if a.len() > 1 {
        assert(p[1] == a[1]);
    }
    lemma_trailing_separator(a, 0);
    lemma_trailing_separator(a, 1);
    lemma_spans(a);
    assert(spans(p) =~= spans(a));
    assert forall|k: int| 0 <= k < spans(a).len() implies components(p)[k] == components(a)[k] by {
        let s = spans(a)[k];
        assert(p.subrange(s.0, s.1) =~= a.subrange(s.0, s.1));
    }
    assert(components(p) =~= components(a));
}

/// A run of bytes without a separator is one component, unless it is empty or
/// one dot; a lone separator is the root, and a lone dot itself.
pub proof fn a_name_is_one_component(name: Seq<u8>)
    requires
        forall|i: int| 0 <= i < name.len() ==> #[trigger] name[i] != 47,
    ensures
        name.len() > 0 ==> components(name) == seq![name],
        name.len() == 0 ==> components(name) == Seq::<Seq<u8>>::empty(),
        components(seq![47u8]) == seq![seq![47u8]],
{
    let root = seq![47u8];
    assert(body_spans(root, 1) =~= Seq::empty());
    assert(root.subrange(0, 1) =~= root);
    assert(components(root) =~= seq![root]);
    if name.len() > 0 {
        lemma_piece_end(name, 0);
        assert(piece_end(name, 0) == name.len());
        assert(name.subrange(0, name.len() as int) =~= name);
        if starts_at_dot(name) {
            assert(body_spans(name, 1) =~= Seq::empty());
        } else {
            assert(body_spans(name, name.len() as int + 1) =~= Seq::empty());
        }
        assert(components(name) =~= seq![name]);
    } else {
        assert(components(name) =~= Seq::empty());
    }
}

/// More than one separator, a component of one dot past the start, and a
/// separator at the end add no component.
pub proof fn extra_separators_and_dots_add_nothing(a: Seq<u8>, b: Seq<u8>)
    requires
        a.len() > 0,
    ensures
        components(a.push(47)) == components(a),
        components(a.push(47).push(47) + b) == components(a.push(47) + b),
        components(a.push(47).push(46).push(47) + b) == components(a.push(47) + b),
{
    let p = a.push(47);
    let q = p.push(47);
    let r = p.push(46).push(47);
    lemma_closed(a);
    lemma_closed(p);
    lemma_prefixed(p, b);
    lemma_prefixed(q, b);
    lemma_prefixed(r, b);
    let dot = seq![46u8, 47u8];
    assert(r =~= p + dot);
    lemma_prefixed(p, dot);
    lemma_piece_end(dot, 0);
    assert(piece_end(dot, 0) == 1) by {
        reveal_with_fuel(piece_end, 3);
    }
    assert(body_spans(dot, 2) =~= Seq::empty());
    assert(body_spans(dot, 0) =~= Seq::empty());
    assert(body_pieces(dot) =~= Seq::empty());
    assert(components(r) =~= components(p));
}

/// A path lies at or below another exactly where it goes on from the other's
/// components.
pub proof fn lying_below_is_going_on(b: Seq<u8>, base: Seq<u8>, more: Seq<Seq<u8>>)
    ensures
        components(b) == components(base) + more ==> is_within(b, base),
        is_within(b, base) ==> components(b) == components(base) + components(b).skip(
            components(base).len() as int,
        ),
        is_within(b, b),
{
    let c = components(b);
    let d = components(base);
    if c == d + more {
        assert(c.subrange(0, d.len() as int) =~= d);
    }
    if is_within(b, base) {
        assert(c.subrange(0, d.len() as int) == d);
        assert(c =~= d + c.skip(d.len() as int));
    }
    assert(c.subrange(0, c.len() as int) =~= c);
}

/// The file name of a path is its last component, unless that is the root, a dot
/// or two.
pub proof fn the_file_name_is_the_last_component(
    b: Seq<u8>,
    front: Seq<Seq<u8>>,
    last: Seq<u8>,
)
    ensures
        components(b) == front.push(last) ==> file_name(b) == if last == seq![47u8] || last
            == seq![46u8] || last == seq![46u8, 46u8] {
            None
        } else {
            Some(last)
        },
        components(b).len() == 0 ==> file_name(b) is None,
{
    assert(front.push(last).last() == last);
}

proof fn lemma_last_dot(stem: Seq<u8>, ext: Seq<u8>)
    requires
        forall|i: int| 0 <= i < ext.len() ==> #[trigger] ext[i] != 46,
    ensures
        last_dot(stem.push(46) + ext) == stem.len(),
        last_dot(ext) == -1,
    decreases ext.len(),
{
    let name = stem.push(46) + ext;
    if ext.len() == 0 {
        assert(name =~= stem.push(46));
    } else {
        let less = ext.drop_last();
        assert(name.drop_last() =~= stem.push(46) + less);
        assert(name.last() == ext.last());
        lemma_last_dot(stem, less);
    }
}

/// The extension of a file name is what follows its last dot; a name that has no
/// dot past its start has none. The extension of a path is that of its file
/// name.
pub proof fn the_extension_follows_the_last_dot(b: Seq<u8>, stem: Seq<u8>, ext: Seq<u8>)
    requires
        forall|i: int| 0 <= i < ext.len() ==> #[trigger] ext[i] != 46,
    ensures
        stem.len() > 0 ==> name_extension(stem.push(46) + ext) == Some(ext),
        name_extension(ext) is None,
        name_extension(seq![46u8] + ext) is None,
        file_name(b) is None ==> extension(b) is None,
        file_name(b) is Some ==> extension(b) == name_extension(file_name(b)->0),
{
    lemma_last_dot(stem, ext);
    lemma_last_dot(Seq::empty(), ext);
    assert(Seq::<u8>::empty().push(46) + ext =~= seq![46u8] + ext);
    assert((stem.push(46) + ext).skip(stem.len() as int + 1) =~= ext);
}

/// The names of components are their texts, one after the other: a component
/// that is the root, a dot or two, or that is not UTF-8, has none.
pub proof fn names_are_the_texts_of_components(front: Seq<Seq<u8>>, last: Seq<u8>)
    ensures
        name_texts(Seq::empty()) == Seq::<Seq<char>>::empty(),
        name_texts(front.push(last)) == if last == seq![47u8] || last == seq![46u8] || last
            == seq![46u8, 46u8] || !valid_utf8(last) {
            name_texts(front)
        } else {
            name_texts(front).push(decode_utf8(last))
        },
{
    let all = front.push(last);
    assert(all.drop_last() =~= front);
    assert(name_texts(all) =~= if last == seq![47u8] || last == seq![46u8] || last == seq![
        46u8,
        46u8,
    ] || !valid_utf8(last) {
        name_texts(front)
    } else {
        name_texts(front).push(decode_utf8(last))
    });
}

/// Of two paths that part at a name, the one whose name has the smaller bytes
/// comes first; a path comes before those below it.
pub proof fn paths_are_ordered_where_they_part(
    a: Seq<u8>,
    b: Seq<u8>,
    same: Seq<Seq<u8>>,
    x: Seq<u8>,
    y: Seq<u8>,
    more: Seq<Seq<u8>>,
    rest: Seq<Seq<u8>>,
)
    requires
        is_name(x),
        is_name(y),
        x != y,
        components(a) == same.push(x) + more,
    ensures
        components(b) == same.push(y) + rest ==> path_before(a, b) == bytes_before(x, y),
        components(b) == same ==> path_before(b, a) && !path_before(a, b),
{
    let lt = |p: Seq<u8>, q: Seq<u8>| component_before(p, q);
    let c = components(a);
    let d = components(b);
    let k = same.len() as int;
    assert(c[k] == x);
    if d == same.push(y) + rest {
        assert(d[k] == y);
        assert(first_difference(c, d, k));
        lemma_lex_at(c, d, lt, k);
    }
    if d == same {
        assert(first_difference(d, c, k));
        assert(first_difference(c, d, k));
        lemma_lex_at(d, c, lt, k);
        lemma_lex_at(c, d, lt, k);
    }
}

proof fn lemma_body_piece(b: Seq<u8>, i: int, k: int)
    requires
        0 <= i,
        0 <= k < body_spans(b, i).len(),
    ensures
        ({
            let s = body_spans(b, i)[k];
            &&& i <= s.0 < s.1 <= b.len()
            &&& s.1 == piece_end(b, s.0)
            &&& !(s.1 == s.0 + 1 && b[s.0] == 46)
            &&& body_spans(b, s.0) == body_spans(b, i).skip(k)
        }),
    decreases b.len() + 1 - i,
{
    lemma_piece_end(b, i);
    let j = piece_end(b, i);
    let rest = body_spans(b, j + 1);
    let all = body_spans(b, i);
    if all.len() == rest.len() {
        assert(all =~= rest);
        lemma_body_piece(b, j + 1, k);
    } else {
        assert(all =~= seq![(i, j)] + rest);
        if k > 0 {
            assert(all[k] == rest[k - 1]);
            lemma_body_piece(b, j + 1, k - 1);
            assert(rest.skip(k - 1) =~= all.skip(k));
        } else {
            assert(all.skip(0) =~= all);
        }
    }
}

proof fn lemma_piece_end_take(b: Seq<u8>, i: int, e: int)
    requires
        0 <= i <= e <= b.len(),
        piece_end(b, i) <= e,
    ensures
        piece_end(b.take(e), i) == piece_end(b, i),
    decreases e - i,
{
    if i < e && b[i] != 47 {
        assert(b.take(e)[i] == b[i]);
        lemma_piece_end_take(b, i + 1, e);
    } else if i < e {
        assert(b.take(e)[i] == b[i]);
    } else {
        lemma_piece_end(b, i);
    }
}

proof fn lemma_body_spans_take(b: Seq<u8>, i: int, e: int)
    requires
        0 <= i,
        body_spans(b, i).len() > 0,
        e == body_spans(b, i).last().1,
    ensures
        body_spans(b.take(e), i) == body_spans(b, i),
    decreases b.len() + 1 - i,
{
    lemma_piece_end(b, i);
    lemma_body_spans(b, i);
    let j = piece_end(b, i);
    let rest = body_spans(b, j + 1);
    let all = body_spans(b, i);
    let c = b.take(e);
    lemma_body_piece(b, i, all.len() - 1);
    if rest.len() > 0 {
        assert(rest.last() == all.last());
        lemma_body_spans(b, j + 1);
        assert(j + 1 <= rest[rest.len() - 1].0);
        lemma_piece_end_take(b, i, e);
        lemma_body_spans_take(b, j + 1, e);
    } else {
        assert(all =~= seq![(i, j)]);
        lemma_piece_end_take(b, i, e);
        assert(body_spans(c, j + 1) =~= Seq::empty());
    }
    assert(c[i] == b[i]);
    assert(body_spans(c, i) =~= all);
}

proof fn lemma_starts_with_a_piece(b: Seq<u8>, a: int, e: int)
    requires
        0 <= a < piece_end(b, a) <= e <= b.len(),
        !(piece_end(b, a) == a + 1 && b[a] == 46),
    ensures
        !is_rooted(b.subrange(a, e)),
        !starts_at_dot(b.subrange(a, e)),
{
    let tail = b.subrange(a, e);
    lemma_piece_end(b, a);
    assert(tail[0] == b[a]);
    if starts_at_dot(tail) && tail.len() > 1 {
        assert(tail[1] == b[a + 1]);
        assert(piece_end(b, a + 1) == a + 1);
    }
}

/// The places of the components from one on, past the start.
proof fn lemma_spans_from(b: Seq<u8>, n: int)
    requires
        1 <= n < spans(b).len(),
    ensures
        ({
            let s = spans(b);
            let a = s[n].0;
            &&& 0 <= a < piece_end(b, a)
            &&& piece_end(b, a) == s[n].1
            &&& !(piece_end(b, a) == a + 1 && b[a] == 46)
            &&& body_spans(b, a) == s.skip(n)
        }),
{
    let s = spans(b);
    if is_rooted(b) || starts_at_dot(b) {
        let body = body_spans(b, 1);
        assert(s[n] == body[n - 1]);
        lemma_body_piece(b, 1, n - 1);
        assert(body.skip(n - 1) =~= s.skip(n));
    } else {
        lemma_body_piece(b, 0, n);
    }
}

/// The places of the components from one on, in a path and in its end.
proof fn lemma_end_spans(b: Seq<u8>, a: int, e: int)
    requires
        0 <= a,
        body_spans(b, a).len() > 0,
        e == body_spans(b, a).last().1,
    ensures
        a < e <= b.len(),
        shifted(body_spans(b.subrange(a, e), 0), a) == body_spans(b, a),
{
    lemma_body_piece(b, a, body_spans(b, a).len() - 1);
    lemma_body_spans_take(b, a, e);
    let c = b.take(e);
    let front = c.take(a);
    let tail = b.subrange(a, e);
    assert(c =~= front + tail);
    lemma_body_spans_shift(front, tail, 0);
    assert(front.len() == a);
}

/// What is left of a path after its first components has the others, and starts
/// neither with a separator nor with a dot.
pub proof fn what_is_left_has_the_other_components(b: Seq<u8>, n: int)
    requires
        1 <= n <= components(b).len(),
    ensures
        components(tail_after(b, n)) == components(b).skip(n),
        !is_rooted(tail_after(b, n)),
        !starts_at_dot(tail_after(b, n)),
{
    let s = spans(b);
    let tail = tail_after(b, n);
    if n == s.len() {
        assert(components(tail) =~= Seq::empty());
        assert(components(b).skip(n) =~= Seq::empty());
    } else {
        let a = s[n].0;
        let e = s.last().1;
        lemma_spans(b);
        lemma_spans_from(b, n);
        assert(s.skip(n).last() == s.last());
        lemma_end_spans(b, a, e);
        assert(s[n].1 <= e) by {
            if n < s.len() - 1 {
                assert(s[n].1 <= s[s.len() - 1].0);
            }
        }
        lemma_starts_with_a_piece(b, a, e);
        lemma_spans(tail);
        let x = components(tail);
        let y = components(b).skip(n);
        let t = spans(tail);
        assert(shifted(t, a) =~= s.skip(n));
        assert(x.len() == shifted(t, a).len());
        assert forall|k: int| 0 <= k < x.len() implies x[k] == y[k] by {
            assert(shifted(t, a)[k] == (t[k].0 + a, t[k].1 + a));
            assert(s.skip(n)[k] == s[n + k]);
            assert(tail.subrange(t[k].0, t[k].1) =~= b.subrange(s[n + k].0, s[n + k].1));
        }
        assert(x =~= y);
    }
}

/// A first component `~` stands for the home directory, where that is known: the
/// path then goes on from it with its own other components. No other path
/// changes.
pub proof fn a_tilde_stands_for_the_home(path: Seq<u8>, home: Seq<u8>)
    requires
        home.len() > 0,
    ensures
        expanded(path, None) == path,
        components(path).len() > 0 && components(path)[0] == seq![126u8] ==> components(
            expanded(path, Some(home)),
        ) == components(home) + components(path).skip(1),
        components(path).len() == 0 || components(path)[0] != seq![126u8] ==> expanded(
            path,
            Some(home),
        ) == path,
{
    let c = components(path);
    if c.len() > 0 && c[0] == seq![126u8] {
        what_is_left_has_the_other_components(path, 1);
        if c.len() == 1 {
            assert(components(home) + c.skip(1) =~= components(home));
        } else {
            join_appends_components(home, tail_after(path, 1));
        }
    }
}

/// A path that starts at the root of the file system is the same from anywhere.
pub proof fn rooted_paths_stay(base: Seq<u8>, rest: Seq<u8>)
    ensures
        joined(base, seq![47u8] + rest) == seq![47u8] + rest,
        base.len() == 0 ==> joined(base, rest) == rest,
{
    assert((seq![47u8] + rest)[0] == 47);
    if base.len() == 0 {
        assert(base + rest =~= rest);
    }
}

/// Of two components the root comes first, then a dot, then two dots, then any
/// name; of two names the one with the smaller bytes.
pub proof fn components_are_ordered_by_kind(a: Seq<u8>, b: Seq<u8>)
    ensures
        component_before(seq![47u8], seq![46u8]),
        component_before(seq![46u8], seq![46u8, 46u8]),
        a != seq![47u8] && a != seq![46u8] && a != seq![46u8, 46u8] ==> component_before(
            seq![46u8, 46u8],
            a,
        ),
        a != seq![47u8] && a != seq![46u8] && a != seq![46u8, 46u8] && b != seq![47u8] && b
            != seq![46u8] && b != seq![46u8, 46u8] ==> (component_before(a, b) <==> bytes_before(
            a,
            b,
        )),
        !component_before(a, a),
        component_before(a, b) ==> !component_before(b, a),
{
    lemma_component_before_strict_total();
    let lt = |x: Seq<u8>, y: Seq<u8>| component_before(x, y);
    assert(!lt(a, a));
    assert(lt(a, b) && lt(b, a) ==> lt(a, a));
    assert(seq![47u8][0] == 47 && seq![46u8][0] == 46);
    assert(seq![46u8].len() == 1 && seq![46u8, 46u8].len() == 2);
}

/// Two paths that part at a component are ordered as the components there are.
pub proof fn paths_are_ordered_by_the_component_where_they_part(
    a: Seq<u8>,
    b: Seq<u8>,
    k: int,
)
    requires
        0 <= k < components(a).len(),
        k < components(b).len(),
        components(a)[k] != components(b)[k],
        forall|i: int| 0 <= i < k ==> components(a)[i] == components(b)[i],
    ensures
        path_before(a, b) <==> component_before(components(a)[k], components(b)[k]),
{
    let lt = |x: Seq<u8>, y: Seq<u8>| component_before(x, y);
    assert(first_difference(components(a), components(b), k));
    lemma_lex_at(components(a), components(b), lt, k);
}

} // verus!
