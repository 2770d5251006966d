//! Orders and a stable sort: lexicographic comparison of sequences, and the
//! permutation that ranks a list of items.

use vstd::prelude::*;
use vstd::relations::*;
use vstd::seq_lib::*;
use vstd::set_lib::*;
use vstd::utf8::*;

verus! {

/// A strict order in which any two different values are comparable.
pub open spec fn strict_total<A>(lt: spec_fn(A, A) -> bool) -> bool {
    &&& forall|a: A| !#[trigger] lt(a, a)
    &&& forall|a: A, b: A, c: A| #[trigger] lt(a, b) && #[trigger] lt(b, c) ==> lt(a, c)
    &&& forall|a: A, b: A| a != b ==> #[trigger] lt(a, b) || lt(b, a)
}

/// `k` is the length of the longest common prefix of `a` and `b`.
pub open spec fn first_difference<A>(a: Seq<A>, b: Seq<A>, k: int) -> bool {
    &&& 0 <= k <= a.len()
    &&& k <= b.len()
    &&& forall|i: int| 0 <= i < k ==> a[i] == b[i]
    &&& k == a.len() || k == b.len() || a[k] != b[k]
}

/// Whether `a` precedes `b` lexicographically: at the first place where they
/// differ `a` holds the smaller element, or `a` is a proper prefix of `b`.
pub open spec fn lex_before<A>(a: Seq<A>, b: Seq<A>, lt: spec_fn(A, A) -> bool) -> bool {
    exists|k: int|
        #[trigger] first_difference(a, b, k) && if k < a.len() && k < b.len() {
            lt(a[k], b[k])
        } else {
            a.len() < b.len()
        }
}

proof fn lemma_first_difference_exists<A>(a: Seq<A>, b: Seq<A>, from: int) -> (k: int)
    requires
        0 <= from <= a.len(),
        from <= b.len(),
        forall|i: int| 0 <= i < from ==> a[i] == b[i],
    ensures
        first_difference(a, b, k),
    decreases a.len() - from,
{
    if from == a.len() || from == b.len() || a[from] != b[from] {
        from
    } else {
        lemma_first_difference_exists(a, b, from + 1)
    }
}

proof fn lemma_first_difference_unique<A>(a: Seq<A>, b: Seq<A>, j: int, k: int)
    requires
        first_difference(a, b, j),
        first_difference(a, b, k),
    ensures
        j == k,
{
    if j < k {
        assert(a[j] == b[j]);
    } else if k < j {
        assert(a[k] == b[k]);
    }
}

/// Any two sequences have a first difference.
pub proof fn lemma_first_difference<A>(a: Seq<A>, b: Seq<A>) -> (k: int)
    ensures
        first_difference(a, b, k),
{
    lemma_first_difference_exists(a, b, 0)
}

/// The first difference decides a lexicographic comparison.
pub proof fn lemma_lex_at<A>(a: Seq<A>, b: Seq<A>, lt: spec_fn(A, A) -> bool, k: int)
    requires
        first_difference(a, b, k),
    ensures
        lex_before(a, b, lt) == if k < a.len() && k < b.len() {
            lt(a[k], b[k])
        } else {
            a.len() < b.len()
        },
{
    if lex_before(a, b, lt) {
        let j = choose|j: int|
            #[trigger] first_difference(a, b, j) && if j < a.len() && j < b.len() {
                lt(a[j], b[j])
            } else {
                a.len() < b.len()
            };
        lemma_first_difference_unique(a, b, j, k);
    }
}

/// A strict total order on elements gives one on sequences.
pub proof fn lemma_lex_strict_total<A>(lt: spec_fn(A, A) -> bool)
    requires
        strict_total(lt),
    ensures
        strict_total(|a: Seq<A>, b: Seq<A>| lex_before(a, b, lt)),
{
    let lex = |a: Seq<A>, b: Seq<A>| lex_before(a, b, lt);
    assert forall|a: Seq<A>| !#[trigger] lex(a, a) by {
        let k = lemma_first_difference_exists(a, a, 0);
        lemma_lex_at(a, a, lt, k);
    }
    assert forall|a: Seq<A>, b: Seq<A>, c: Seq<A>| #[trigger] lex(a, b) && #[trigger] lex(b, c) implies lex(
        a,
        c,
    ) by {
        let j = lemma_first_difference_exists(a, b, 0);
        let k = lemma_first_difference_exists(b, c, 0);
        lemma_lex_at(a, b, lt, j);
        lemma_lex_at(b, c, lt, k);
        let m = lemma_first_difference_exists(a, c, 0);
        lemma_lex_at(a, c, lt, m);
        if j < k {
            assert(first_difference(a, c, j));
            lemma_first_difference_unique(a, c, j, m);
        } else if k < j {
            assert(first_difference(a, c, k));
            lemma_first_difference_unique(a, c, k, m);
        } else {
            if j < a.len() {
                assert(j < b.len() && k < c.len());
                assert(lt(a[j], b[j]) && lt(b[j], c[j]));
                assert(first_difference(a, c, j));
                lemma_first_difference_unique(a, c, j, m);
            } else {
                assert(first_difference(a, c, j));
                lemma_first_difference_unique(a, c, j, m);
            }
        }
    }
    assert forall|a: Seq<A>, b: Seq<A>| a != b implies #[trigger] lex(a, b) || lex(b, a) by {
        let k = lemma_first_difference_exists(a, b, 0);
        lemma_lex_at(a, b, lt, k);
        assert(first_difference(b, a, k));
        lemma_lex_at(b, a, lt, k);
        if k == a.len() && k == b.len() {
            assert(a =~= b);
        }
    }
}

/// Whether one byte string precedes another.
pub open spec fn bytes_before(a: Seq<u8>, b: Seq<u8>) -> bool {
    lex_before(a, b, |x: u8, y: u8| x < y)
}

/// Whether one text precedes another; texts are ordered by their UTF-8 bytes.
pub open spec fn text_before(a: Seq<char>, b: Seq<char>) -> bool {
    bytes_before(encode_utf8(a), encode_utf8(b))
}

/// Byte strings are strictly and totally ordered.
pub proof fn lemma_bytes_before_strict_total()
    ensures
        strict_total(|a: Seq<u8>, b: Seq<u8>| bytes_before(a, b)),
{
    let lt = |x: u8, y: u8| x < y;
    lemma_lex_strict_total(lt);
    let lex = |a: Seq<u8>, b: Seq<u8>| lex_before(a, b, lt);
    let before = |a: Seq<u8>, b: Seq<u8>| bytes_before(a, b);
    assert(before =~= lex);
}

/// Texts are strictly and totally ordered.
pub proof fn lemma_text_before_strict_total()
    ensures
        strict_total(|a: Seq<char>, b: Seq<char>| text_before(a, b)),
{
    lemma_bytes_before_strict_total();
    let before = |a: Seq<u8>, b: Seq<u8>| bytes_before(a, b);
    let text = |a: Seq<char>, b: Seq<char>| text_before(a, b);
    assert forall|a: Seq<char>| !#[trigger] text(a, a) by {
        assert(!before(encode_utf8(a), encode_utf8(a)));
    }
    assert forall|a: Seq<char>, b: Seq<char>, c: Seq<char>|
        #[trigger] text(a, b) && #[trigger] text(b, c) implies text(a, c) by {
        assert(before(encode_utf8(a), encode_utf8(b)) && before(encode_utf8(b), encode_utf8(c)));
    }
    assert forall|a: Seq<char>, b: Seq<char>| a != b implies #[trigger] text(a, b) || text(b, a) by {
        encode_utf8_decode_utf8(a);
        encode_utf8_decode_utf8(b);
        assert(encode_utf8(a) != encode_utf8(b));
        assert(before(encode_utf8(a), encode_utf8(b)) || before(encode_utf8(b), encode_utf8(a)));
    }
}

/// Whether byte string `a` precedes byte string `b`.
pub fn bytes_come_before(a: &[u8], b: &[u8]) -> (r: bool)
    ensures
        r == bytes_before(a@, b@),
{
    let mut i: usize = 0;
    while i < a.len() && i < b.len() && a[i] == b[i]
        invariant
            i <= a.len(),
            i <= b.len(),
            forall|k: int| 0 <= k < i ==> a@[k] == b@[k],
        decreases a.len() - i,
    {
        i += 1;
    }
    proof {
        assert(first_difference(a@, b@, i as int));
        lemma_lex_at(a@, b@, |x: u8, y: u8| x < y, i as int);
    }
    if i < a.len() && i < b.len() {
        a[i] < b[i]
    } else {
        a.len() < b.len()
    }
}

/// Whether text `a` precedes text `b`.
pub fn text_comes_before(a: &str, b: &str) -> (r: bool)
    ensures
        r == text_before(a@, b@),
{
    bytes_come_before(a.as_bytes(), b.as_bytes())
}

/// A type whose values can be ranked. `before` is a strict weak order: values
/// of which neither comes before the other tie.
pub trait Ranked: Sized {
    /// Whether this value ranks before the other.
    spec fn before(self, other: Self) -> bool;

    /// Nothing ranks before itself.
    proof fn before_irreflexive(a: Self)
        ensures
            !a.before(a),
    ;

    /// What ranks before a value ranks before all that it ranks before.
    proof fn before_transitive(a: Self, b: Self, c: Self)
        requires
            a.before(b),
            b.before(c),
        ensures
            a.before(c),
    ;

    /// Not ranking before carries over too.
    proof fn not_before_transitive(a: Self, b: Self, c: Self)
        requires
            !a.before(b),
            !b.before(c),
        ensures
            !a.before(c),
    ;
}

/// A type whose values can be ranked as the program runs.
pub trait Comparable: Ranked {
    /// Whether this value ranks before the other.
    fn comes_before(&self, other: &Self) -> (r: bool)
        ensures
            r == self.before(*other),
    ;
}

/// Whether the item at `i` precedes the item at `j` in a stable ranking: it
/// ranks before it, or they tie and it stands first.
pub open spec fn ranks<T: Ranked>(items: Seq<T>, i: int, j: int) -> bool {
    items[i].before(items[j]) || (!items[j].before(items[i]) && i < j)
}

/// Whether `p` lists the positions of `items`, each once, in stable rank order.
pub open spec fn is_order<T: Ranked>(items: Seq<T>, p: Seq<int>) -> bool {
    &&& p.len() == items.len()
    &&& forall|a: int| 0 <= a < p.len() ==> 0 <= #[trigger] p[a] < items.len()
    &&& forall|a: int, b: int| 0 <= a < b < p.len() ==> ranks(items, #[trigger] p[a], #[trigger] p[b])
}

/// Where in the ranked positions `p` the item at `x` belongs: after the last
/// one that it does not rank before.
pub open spec fn slot<T: Ranked>(items: Seq<T>, p: Seq<int>, x: int) -> int
    decreases p.len(),
{
    if p.len() == 0 {
        0
    } else if items[x].before(items[p.last()]) {
        slot(items, p.drop_last(), x)
    } else {
        p.len() as int
    }
}

/// The stable ranking of the first `n` items.
pub open spec fn order_of_first<T: Ranked>(items: Seq<T>, n: nat) -> Seq<int>
    decreases n,
{
    if n == 0 {
        Seq::empty()
    } else {
        let p = order_of_first(items, (n - 1) as nat);
        p.insert(slot(items, p, n - 1), n - 1)
    }
}

/// The positions of the items in stable rank order.
pub open spec fn order<T: Ranked>(items: Seq<T>) -> Seq<int> {
    order_of_first(items, items.len())
}

/// The items in stable rank order.
pub open spec fn ranked<T: Ranked>(items: Seq<T>) -> Seq<T> {
    order(items).map_values(|i: int| items[i])
}

proof fn lemma_ranks_strict_total<T: Ranked>(items: Seq<T>, i: int, j: int, k: int)
    ensures
        !ranks(items, i, i),
        ranks(items, i, j) && ranks(items, j, k) ==> ranks(items, i, k),
        i != j ==> ranks(items, i, j) || ranks(items, j, i),
        ranks(items, i, j) ==> !ranks(items, j, i),
{
    T::before_irreflexive(items[i]);
    if items[i].before(items[j]) && items[j].before(items[i]) {
        T::before_transitive(items[i], items[j], items[i]);
    }
    if ranks(items, i, j) && ranks(items, j, k) {
        if items[i].before(items[j]) && items[j].before(items[k]) {
            T::before_transitive(items[i], items[j], items[k]);
        } else if items[i].before(items[j]) {
            // j and k tie
            if !items[i].before(items[k]) {
                T::not_before_transitive(items[i], items[k], items[j]);
            }
        } else if items[j].before(items[k]) {
            if !items[i].before(items[k]) {
                T::not_before_transitive(items[j], items[i], items[k]);
            }
        } else {
            T::not_before_transitive(items[k], items[j], items[i]);
        }
    }
}

proof fn lemma_slot<T: Ranked>(items: Seq<T>, p: Seq<int>, x: int)
    requires
        forall|a: int| 0 <= a < p.len() ==> #[trigger] p[a] < x,
        forall|a: int, b: int| 0 <= a < b < p.len() ==> ranks(items, #[trigger] p[a], #[trigger] p[b]),
    ensures
        0 <= slot(items, p, x) <= p.len(),
        forall|a: int| 0 <= a < slot(items, p, x) ==> ranks(items, #[trigger] p[a], x),
        forall|a: int| slot(items, p, x) <= a < p.len() ==> ranks(items, x, #[trigger] p[a]),
    decreases p.len(),
{
    if p.len() > 0 {
        let q = p.drop_last();
        if items[x].before(items[p.last()]) {
            assert forall|a: int, b: int| 0 <= a < b < q.len() implies ranks(
                items,
                #[trigger] q[a],
                #[trigger] q[b],
            ) by {
                assert(q[a] == p[a] && q[b] == p[b]);
            }
            assert forall|a: int| 0 <= a < q.len() implies #[trigger] q[a] < x by {
                assert(q[a] == p[a]);
            }
            lemma_slot(items, q, x);
            let s = slot(items, p, x);
            assert forall|a: int| 0 <= a < s implies ranks(items, #[trigger] p[a], x) by {
                assert(p[a] == q[a]);
            }
            assert forall|a: int| s <= a < p.len() implies ranks(items, x, #[trigger] p[a]) by {
                if a < q.len() {
                    assert(p[a] == q[a]);
                }
            }
        } else {
            let last = p.len() - 1;
            assert forall|a: int| 0 <= a < p.len() implies ranks(items, #[trigger] p[a], x) by {
                assert(p[last] < x);
                if a < last {
                    assert(ranks(items, p[a], p[last]));
                    lemma_ranks_strict_total(items, p[a], p[last], x);
                }
            }
        }
    }
}

proof fn lemma_order_of_first<T: Ranked>(items: Seq<T>, n: nat)
    requires
        n <= items.len(),
    ensures
        order_of_first(items, n).len() == n,
        forall|a: int| 0 <= a < n ==> 0 <= #[trigger] order_of_first(items, n)[a] < n,
        forall|a: int, b: int|
            0 <= a < b < n ==> ranks(
                items,
                #[trigger] order_of_first(items, n)[a],
                #[trigger] order_of_first(items, n)[b],
            ),
    decreases n,
{
    if n > 0 {
        let m = (n - 1) as nat;
        lemma_order_of_first(items, m);
        let p = order_of_first(items, m);
        let x = n - 1;
        lemma_slot(items, p, x);
        let s = slot(items, p, x);
        let q = order_of_first(items, n);
        assert(q == p.insert(s, x));
        assert forall|a: int| 0 <= a < n implies 0 <= #[trigger] q[a] < n by {
            if a < s {
                assert(q[a] == p[a]);
            } else if a > s {
                assert(q[a] == p[a - 1]);
            }
        }
        assert forall|a: int, b: int| 0 <= a < b < n implies ranks(
            items,
            #[trigger] q[a],
            #[trigger] q[b],
        ) by {
            if b < s {
                assert(q[a] == p[a] && q[b] == p[b]);
            } else if b == s {
                assert(q[a] == p[a]);
            } else if a > s {
                assert(q[a] == p[a - 1] && q[b] == p[b - 1]);
            } else if a == s {
                assert(q[b] == p[b - 1]);
            } else {
                assert(q[a] == p[a] && q[b] == p[b - 1]);
            }
        }
    }
}

/// `order` lists every position once, in stable rank order.
pub proof fn lemma_order_is_order<T: Ranked>(items: Seq<T>)
    ensures
        is_order(items, order(items)),
{
    lemma_order_of_first(items, items.len());
}

proof fn lemma_order_contents<T: Ranked>(items: Seq<T>, p: Seq<int>)
    requires
        is_order(items, p),
    ensures
        p.no_duplicates(),
        p.to_set() == set_int_range(0, items.len() as int),
{
    assert forall|a: int, b: int| 0 <= a < p.len() && 0 <= b < p.len() && a != b implies p[a] != p[b] by {
        if a < b {
            lemma_ranks_strict_total(items, p[a], p[b], p[a]);
            assert(ranks(items, p[a], p[b]));
        } else {
            lemma_ranks_strict_total(items, p[b], p[a], p[b]);
            assert(ranks(items, p[b], p[a]));
        }
    }
    p.unique_seq_to_set();
    let all = set_int_range(0, items.len() as int);
    lemma_int_range(0, items.len() as int);
    assert(p.to_set().subset_of(all));
    lemma_subset_equality(p.to_set(), all);
}

/// There is only one stable ranking.
pub proof fn lemma_order_unique<T: Ranked>(items: Seq<T>, p: Seq<int>)
    requires
        is_order(items, p),
    ensures
        p == order(items),
{
    let q = order(items);
    lemma_order_is_order(items);
    lemma_order_contents(items, p);
    lemma_order_contents(items, q);
    let leq = |i: int, j: int| i == j || ranks(items, i, j);
    assert forall|i: int, j: int| #[trigger] leq(i, j) && #[trigger] leq(j, i) implies i == j by {
        lemma_ranks_strict_total(items, i, j, i);
    }
    assert forall|i: int, j: int, k: int| #[trigger] leq(i, j) && #[trigger] leq(j, k) implies leq(i, k) by {
        lemma_ranks_strict_total(items, i, j, k);
    }
    assert forall|i: int, j: int| #[trigger] leq(i, j) || leq(j, i) by {
        lemma_ranks_strict_total(items, i, j, i);
    }
    assert(total_ordering(leq));
    p.lemma_multiset_has_no_duplicates();
    q.lemma_multiset_has_no_duplicates();
    assert forall|v: int| #[trigger] p.to_multiset().count(v) == q.to_multiset().count(v) by {
        to_multiset_contains(p, v);
        to_multiset_contains(q, v);
        assert(p.contains(v) <==> p.to_set().contains(v));
        assert(q.contains(v) <==> q.to_set().contains(v));
    }
    assert(p.to_multiset() =~= q.to_multiset());
    assert(sorted_by(p, leq));
    assert(sorted_by(q, leq));
    lemma_sorted_unique(p, q, leq);
}

/// Whether `run` lists the positions from `lo` to `hi`, each once, in stable
/// rank order.
spec fn is_run<T: Ranked>(items: Seq<T>, run: Seq<usize>, lo: int, hi: int) -> bool {
    &&& run.len() == hi - lo
    &&& forall|a: int| 0 <= a < run.len() ==> lo <= #[trigger] run[a] < hi
    &&& forall|a: int, b: int|
        0 <= a < b < run.len() ==> ranks(items, #[trigger] run[a] as int, #[trigger] run[b] as int)
}

fn merge_runs<T: Comparable>(
    items: &Vec<T>,
    left: &Vec<usize>,
    right: &Vec<usize>,
    Ghost(lo): Ghost<int>,
    Ghost(mid): Ghost<int>,
    Ghost(hi): Ghost<int>,
) -> (r: Vec<usize>)
    requires
        0 <= lo <= mid <= hi <= items@.len(),
        is_run(items@, left@, lo, mid),
        is_run(items@, right@, mid, hi),
    ensures
        is_run(items@, r@, lo, hi),
{
    let mut out: Vec<usize> = Vec::new();
    let mut i: usize = 0;
    let mut j: usize = 0;
    while i < left.len() || j < right.len()
        invariant
            0 <= lo <= mid <= hi <= items@.len(),
            is_run(items@, left@, lo, mid),
            is_run(items@, right@, mid, hi),
            i <= left.len(),
            j <= right.len(),
            out@.len() == i + j,
            forall|a: int| 0 <= a < out@.len() ==> lo <= #[trigger] out@[a] < hi,
            forall|a: int, b: int|
                0 <= a < b < out@.len() ==> ranks(
                    items@,
                    #[trigger] out@[a] as int,
                    #[trigger] out@[b] as int,
                ),
            forall|a: int, b: int|
                0 <= a < out@.len() && i <= b < left@.len() ==> ranks(
                    items@,
                    #[trigger] out@[a] as int,
                    #[trigger] left@[b] as int,
                ),
            forall|a: int, b: int|
                0 <= a < out@.len() && j <= b < right@.len() ==> ranks(
                    items@,
                    #[trigger] out@[a] as int,
                    #[trigger] right@[b] as int,
                ),
        decreases left.len() - i + right.len() - j,
    {
        let from_left: bool = if i == left.len() {
            false
        } else if j == right.len() {
            true
        } else {
            !items[right[j]].comes_before(&items[left[i]])
        };
        if from_left {
            let x: usize = left[i];
            assert forall|b: int| j <= b < right@.len() implies ranks(
                items@,
                x as int,
                #[trigger] right@[b] as int,
            ) by {
                assert(ranks(items@, x as int, right@[j as int] as int));
                lemma_ranks_strict_total(
                    items@,
                    x as int,
                    right@[j as int] as int,
                    right@[b] as int,
                );
            }
            out.push(x);
            i += 1;
        } else {
            let x: usize = right[j];
            assert forall|b: int| i <= b < left@.len() implies ranks(
                items@,
                x as int,
                #[trigger] left@[b] as int,
            ) by {
                assert(ranks(items@, x as int, left@[i as int] as int));
                lemma_ranks_strict_total(items@, x as int, left@[i as int] as int, left@[b] as int);
            }
            out.push(x);
            j += 1;
        }
    }
    out
}

fn sort_run<T: Comparable>(items: &Vec<T>, lo: usize, hi: usize) -> (r: Vec<usize>)
    requires
        lo <= hi <= items@.len(),
    ensures
        is_run(items@, r@, lo as int, hi as int),
    decreases hi - lo,
{
    if hi - lo == 0 {
        Vec::new()
    } else if hi - lo == 1 {
        let mut one: Vec<usize> = Vec::new();
        one.push(lo);
        one
    } else {
        let mid: usize = lo + (hi - lo) / 2;
        let left = sort_run(items, lo, mid);
        let right = sort_run(items, mid, hi);
        merge_runs(items, &left, &right, Ghost(lo as int), Ghost(mid as int), Ghost(hi as int))
    }
}

/// The positions of the items in stable rank order.
pub fn rank_order<T: Comparable>(items: &Vec<T>) -> (r: Vec<usize>)
    ensures
        r@.map_values(|i: usize| i as int) == order(items@),
{
    let run = sort_run(items, 0, items.len());
    proof {
        let p = run@.map_values(|i: usize| i as int);
        assert(is_order(items@, p));
        lemma_order_unique(items@, p);
    }
    run
}

/// In a ranking nothing stands before what ranks before it.
pub proof fn ranking_is_sorted<T: Ranked>(items: Seq<T>, a: int, b: int)
    requires
        0 <= a < b < items.len(),
    ensures
        ranked(items).len() == items.len(),
        !ranked(items)[b].before(ranked(items)[a]),
{
    lemma_order_is_order(items);
    let p = order(items);
    assert(ranks(items, p[a], p[b]));
    lemma_ranks_strict_total(items, p[a], p[b], p[a]);
}

/// Items that tie keep their order.
pub proof fn ranking_is_stable<T: Ranked>(items: Seq<T>, a: int, b: int)
    requires
        0 <= a < b < items.len(),
        !ranked(items)[a].before(ranked(items)[b]),
    ensures
        order(items)[a] < order(items)[b],
{
    lemma_order_is_order(items);
    let p = order(items);
    assert(ranks(items, p[a], p[b]));
}

/// A ranking holds the items it ranks, each as often as before.
pub proof fn ranking_is_permutation<T: Ranked>(items: Seq<T>)
    ensures
        order(items).no_duplicates(),
        order(items).to_set() == set_int_range(0, items.len() as int),
        ranked(items).to_multiset() == items.to_multiset(),
{
    lemma_order_is_order(items);
    let p = order(items);
    lemma_order_contents(items, p);
    lemma_ranked_prefix_multiset(items, items.len());
    assert(items.take(items.len() as int) =~= items);
}

proof fn lemma_ranked_prefix_multiset<T: Ranked>(items: Seq<T>, n: nat)
    requires
        n <= items.len(),
    ensures
        order_of_first(items, n).map_values(|i: int| items[i]).to_multiset() == items.take(
            n as int,
        ).to_multiset(),
    decreases n,
{
    let pick = |i: int| items[i];
    if n == 0 {
        assert(order_of_first(items, n).map_values(pick) =~= items.take(0));
    } else {
        let m = (n - 1) as nat;
        lemma_ranked_prefix_multiset(items, m);
        lemma_order_of_first(items, m);
        let p = order_of_first(items, m);
        lemma_slot(items, p, m as int);
        let s = slot(items, p, m as int);
        assert(p.insert(s, m as int).map_values(pick) =~= p.map_values(pick).insert(
            s,
            items[m as int],
        ));
        to_multiset_insert(p.map_values(pick), s, items[m as int]);
        assert(items.take(n as int) =~= items.take(m as int).push(items[m as int]));
        to_multiset_build(items.take(m as int), items[m as int]);
    }
}

proof fn lemma_sorted_alike<T: Ranked>(x: Seq<T>, y: Seq<T>)
    requires
        x.to_multiset() == y.to_multiset(),
        forall|a: int, b: int| 0 <= a < b < x.len() ==> !(#[trigger] x[b]).before(#[trigger] x[a]),
        forall|a: int, b: int| 0 <= a < b < y.len() ==> !(#[trigger] y[b]).before(#[trigger] y[a]),
        forall|a: int, b: int|
            0 <= a < x.len() && 0 <= b < x.len() && !(#[trigger] x[a]).before(#[trigger] x[b])
                && !x[b].before(x[a]) ==> x[a] == x[b],
    ensures
        x == y,
    decreases x.len(),
{
    to_multiset_len(x);
    to_multiset_len(y);
    if x.len() == 0 {
        assert(x =~= y);
    } else {
        let n = x.len() - 1;
        let p = x.last();
        let q = y.last();
        assert(x[n] == p && y[n] == q);
        assert(x.contains(p) && y.contains(q));
        to_multiset_contains(x, p);
        to_multiset_contains(y, p);
        to_multiset_contains(x, q);
        to_multiset_contains(y, q);
        let i = choose|i: int| 0 <= i < x.len() && x[i] == q;
        let j = choose|j: int| 0 <= j < y.len() && y[j] == p;
        T::before_irreflexive(p);
        T::before_irreflexive(q);
        assert(!x[n].before(x[i])) by {
            if i < n {
                assert(!x[n].before(x[i]));
            }
        }
        assert(!y[n].before(y[j])) by {
            if j < n {
                assert(!y[n].before(y[j]));
            }
        }
        assert(x[n] == x[i]);
        assert(p == q);
        let front = x.drop_last();
        let rest = y.drop_last();
        assert(front.push(p) =~= x);
        assert(rest.push(q) =~= y);
        to_multiset_build(front, p);
        to_multiset_build(rest, q);
        assert(front.to_multiset() =~= x.to_multiset().remove(p));
        assert(rest.to_multiset() =~= y.to_multiset().remove(q));
        assert forall|a: int, b: int|
            0 <= a < front.len() && 0 <= b < front.len() && !(#[trigger] front[a]).before(
                #[trigger] front[b],
            ) && !front[b].before(front[a]) implies front[a] == front[b] by {
            assert(front[a] == x[a] && front[b] == x[b]);
        }
        assert forall|a: int, b: int| 0 <= a < b < front.len() implies !(#[trigger] front[b]).before(
            #[trigger] front[a],
        ) by {
            assert(!x[b].before(x[a]));
        }
        assert forall|a: int, b: int| 0 <= a < b < rest.len() implies !(#[trigger] rest[b]).before(
            #[trigger] rest[a],
        ) by {
            assert(!y[b].before(y[a]));
        }
        lemma_sorted_alike(front, rest);
    }
}

/// Where only equal items tie, a ranking does not depend on the order in which
/// the items came.
pub proof fn rankings_of_the_same_items_agree<T: Ranked>(a: Seq<T>, b: Seq<T>)
    requires
        a.to_multiset() == b.to_multiset(),
        forall|i: int, j: int|
            0 <= i < a.len() && 0 <= j < a.len() && !(#[trigger] a[i]).before(#[trigger] a[j])
                && !a[j].before(a[i]) ==> a[i] == a[j],
    ensures
        ranked(a) == ranked(b),
{
    let x = ranked(a);
    let y = ranked(b);
    ranking_is_permutation(a);
    ranking_is_permutation(b);
    lemma_order_is_order(a);
    lemma_order_is_order(b);
    assert forall|i: int, j: int| 0 <= i < j < x.len() implies !(#[trigger] x[j]).before(
        #[trigger] x[i],
    ) by {
        ranking_is_sorted(a, i, j);
    }
    assert forall|i: int, j: int| 0 <= i < j < y.len() implies !(#[trigger] y[j]).before(
        #[trigger] y[i],
    ) by {
        ranking_is_sorted(b, i, j);
    }
    lemma_sorted_alike(x, y);
}

/// Byte strings are compared at the first byte in which they differ: the smaller
/// byte comes first, and so does a string that the other goes on from.
pub proof fn the_first_different_byte_decides(
    same: Seq<u8>,
    x: u8,
    y: u8,
    a: Seq<u8>,
    b: Seq<u8>,
)
    requires
        x < y,
    ensures
        bytes_before(same.push(x) + a, same.push(y) + b),
        !bytes_before(same.push(y) + b, same.push(x) + a),
        bytes_before(same, same.push(x) + a),
        !bytes_before(same.push(x) + a, same),
        !bytes_before(same, same),
{
    let lt = |p: u8, q: u8| p < q;
    let p = same.push(x) + a;
    let q = same.push(y) + b;
    let k = same.len() as int;
    assert(first_difference(p, q, k));
    assert(first_difference(q, p, k));
    assert(first_difference(same, p, k));
    assert(first_difference(p, same, k));
    assert(first_difference(same, same, k));
    lemma_lex_at(p, q, lt, k);
    lemma_lex_at(q, p, lt, k);
    lemma_lex_at(same, p, lt, k);
    lemma_lex_at(p, same, lt, k);
    lemma_lex_at(same, same, lt, k);
}

/// Texts are compared by the bytes that encode them.
pub proof fn texts_are_compared_by_their_bytes(a: Seq<char>, b: Seq<char>)
    ensures
        text_before(a, b) == bytes_before(encode_utf8(a), encode_utf8(b)),
{
}

} // verus!
