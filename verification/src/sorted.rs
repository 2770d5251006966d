//! Sorted lists without repeats.

use crate::model::texts;
use crate::order::{lemma_text_before_strict_total, strict_total, text_before, text_comes_before};
use crate::text::same_text;
use vstd::prelude::*;

verus! {

/// Whether each element of a list precedes all that follow it.
pub open spec fn increasing<A>(s: Seq<A>, lt: spec_fn(A, A) -> bool) -> bool {
    forall|i: int, j: int| 0 <= i < j < s.len() ==> #[trigger] lt(s[i], s[j])
}

/// An increasing list with one more element, unless it is there.
pub open spec fn insert_sorted<A>(s: Seq<A>, x: A, lt: spec_fn(A, A) -> bool) -> Seq<A>
    decreases s.len(),
{
    if s.len() == 0 || lt(s.last(), x) {
        s.push(x)
    } else if s.last() == x {
        s
    } else {
        insert_sorted(s.drop_last(), x, lt).push(s.last())
    }
}

/// The elements of a list, each once, in order.
pub open spec fn sorted_set<A>(s: Seq<A>, lt: spec_fn(A, A) -> bool) -> Seq<A>
    decreases s.len(),
{
    if s.len() == 0 {
        Seq::empty()
    } else {
        insert_sorted(sorted_set(s.drop_last(), lt), s.last(), lt)
    }
}

/// What an insertion keeps and adds.
pub proof fn lemma_insert_sorted<A>(s: Seq<A>, x: A, lt: spec_fn(A, A) -> bool)
    requires
        strict_total(lt),
        increasing(s, lt),
    ensures
        increasing(insert_sorted(s, x, lt), lt),
        forall|y: A|
            #![trigger insert_sorted(s, x, lt).contains(y)]
            #![trigger s.contains(y)]
            insert_sorted(s, x, lt).contains(y) <==> s.contains(y) || y == x,
        insert_sorted(s, x, lt).len() == if s.contains(x) {
            s.len()
        } else {
            s.len() + 1
        },
    decreases s.len(),
{
    let r = insert_sorted(s, x, lt);
    if s.len() == 0 || lt(s.last(), x) {
        assert forall|y: A| r.contains(y) <==> s.contains(y) || y == x by {
            if s.contains(y) {
                let i = choose|i: int| 0 <= i < s.len() && s[i] == y;
                assert(r[i] == y);
            }
            assert(r[s.len() as int] == x);
        }
        assert forall|i: int, j: int| 0 <= i < j < r.len() implies #[trigger] lt(r[i], r[j]) by {
            if j == s.len() && i < s.len() - 1 {
                assert(lt(s[i], s[s.len() - 1]));
                assert(lt(s.last(), x));
            }
        }
        if s.contains(x) {
            let i = choose|i: int| 0 <= i < s.len() && s[i] == x;
            assert(lt(r[i], r[s.len() as int]));
            assert(!lt(x, x));
        }
    } else if s.last() == x {
        assert(s[s.len() - 1] == x);
    } else {
        let front = s.drop_last();
        assert(lt(x, s.last())) by {
            assert(lt(s.last(), x) || lt(x, s.last()));
        }
        assert(increasing(front, lt)) by {
            assert forall|i: int, j: int| 0 <= i < j < front.len() implies #[trigger] lt(
                front[i],
                front[j],
            ) by {
                assert(lt(s[i], s[j]));
            }
        }
        lemma_insert_sorted(front, x, lt);
        let m = insert_sorted(front, x, lt);
        assert forall|y: A| r.contains(y) <==> s.contains(y) || y == x by {
            if r.contains(y) {
                let i = choose|i: int| 0 <= i < r.len() && r[i] == y;
                if i < m.len() {
                    assert(m[i] == y);
                    assert(m.contains(y));
                    if front.contains(y) {
                        let k = choose|k: int| 0 <= k < front.len() && front[k] == y;
                        assert(s[k] == y);
                    }
                } else {
                    assert(s[s.len() - 1] == y);
                }
            }
            if s.contains(y) {
                let k = choose|k: int| 0 <= k < s.len() && s[k] == y;
                if k < front.len() {
                    assert(front[k] == y);
                    assert(m.contains(y));
                    let i = choose|i: int| 0 <= i < m.len() && m[i] == y;
                    assert(r[i] == y);
                } else {
                    assert(r[m.len() as int] == y);
                }
            }
            if y == x {
                assert(m.contains(x));
                let i = choose|i: int| 0 <= i < m.len() && m[i] == x;
                assert(r[i] == x);
            }
        }
        assert forall|i: int, j: int| 0 <= i < j < r.len() implies #[trigger] lt(r[i], r[j]) by {
            if j < m.len() {
                assert(lt(m[i], m[j]));
            } else {
                assert(m.contains(m[i]));
                if m[i] != x {
                    assert(front.contains(m[i]));
                    let k = choose|k: int| 0 <= k < front.len() && front[k] == m[i];
                    assert(lt(s[k], s[s.len() - 1]));
                }
            }
        }
        if front.contains(x) {
            let k = choose|k: int| 0 <= k < front.len() && front[k] == x;
            assert(s[k] == x);
        } else if s.contains(x) {
            let k = choose|k: int| 0 <= k < s.len() && s[k] == x;
            assert(front[k] == x);
        }
    }
}

/// The elements of a list, each once, in order: nothing is lost and nothing
/// added.
pub proof fn lemma_sorted_set<A>(s: Seq<A>, lt: spec_fn(A, A) -> bool)
    requires
        strict_total(lt),
    ensures
        increasing(sorted_set(s, lt), lt),
        forall|y: A|
            #![trigger sorted_set(s, lt).contains(y)]
            #![trigger s.contains(y)]
            sorted_set(s, lt).contains(y) <==> s.contains(y),
        sorted_set(s, lt).len() == 0 <==> s.len() == 0,
    decreases s.len(),
{
    if s.len() > 0 {
        let front = s.drop_last();
        lemma_sorted_set(front, lt);
        lemma_insert_sorted(sorted_set(front, lt), s.last(), lt);
        assert forall|y: A| sorted_set(s, lt).contains(y) <==> s.contains(y) by {
            if s.contains(y) {
                let k = choose|k: int| 0 <= k < s.len() && s[k] == y;
                if k < front.len() {
                    assert(front[k] == y);
                    assert(front.contains(y));
                }
            }
            if front.contains(y) {
                let k = choose|k: int| 0 <= k < front.len() && front[k] == y;
                assert(s[k] == y);
            }
            assert(s[s.len() - 1] == s.last());
            assert(sorted_set(front, lt).contains(y) <==> front.contains(y));
        }
        assert(sorted_set(s, lt).contains(s.last()));
    }
}

/// An insertion puts the element before those that follow it, and leaves the
/// list alone where the element before them is the same.
pub proof fn lemma_insert_at<A>(s: Seq<A>, x: A, lt: spec_fn(A, A) -> bool, k: int)
    requires
        strict_total(lt),
        0 <= k <= s.len(),
        forall|j: int| k <= j < s.len() ==> lt(x, #[trigger] s[j]),
        k > 0 ==> !lt(x, s[k - 1]),
    ensures
        insert_sorted(s, x, lt) == if k > 0 && s[k - 1] == x {
            s
        } else {
            s.insert(k, x)
        },
    decreases s.len(),
{
    if s.len() == k {
        if k > 0 && s[k - 1] != x {
            assert(lt(s[k - 1], x) || lt(x, s[k - 1]));
        }
        if k > 0 && s[k - 1] == x {
            assert(!lt(x, x));
        } else {
            assert(s.insert(k, x) =~= s.push(x));
        }
    } else {
        let front = s.drop_last();
        assert(lt(x, s[s.len() - 1]));
        assert(!lt(s.last(), x)) by {
            if lt(s.last(), x) {
                assert(lt(x, x));
            }
        }
        assert(s.last() != x) by {
            assert(!lt(x, x));
        }
        lemma_insert_at(front, x, lt, k);
        if k > 0 && s[k - 1] == x {
            assert(front.push(s.last()) =~= s);
        } else {
            assert(front.insert(k, x).push(s.last()) =~= s.insert(k, x));
        }
    }
}

/// The order of numbers.
pub open spec fn number_order() -> spec_fn(i64, i64) -> bool {
    |a: i64, b: i64| a < b
}

/// The order of texts.
pub open spec fn text_order() -> spec_fn(Seq<char>, Seq<char>) -> bool {
    |a: Seq<char>, b: Seq<char>| text_before(a, b)
}

/// Numbers and texts are strictly and totally ordered.
pub proof fn lemma_orders_strict_total()
    ensures
        strict_total(number_order()),
        strict_total(text_order()),
{
    lemma_text_before_strict_total();
    let before = |a: Seq<char>, b: Seq<char>| text_before(a, b);
    assert(text_order() =~= before);
    let lt = number_order();
    assert forall|a: i64, b: i64, c: i64| #[trigger] lt(a, b) && #[trigger] lt(b, c) implies lt(
        a,
        c,
    ) by {}
}

/// Puts a number into an increasing list, unless it is there.
pub fn insert_number(list: &mut Vec<i64>, number: i64)
    ensures
        final(list)@ == insert_sorted(old(list)@, number, number_order()),
{
    let ghost start = list@;
    let mut k: usize = list.len();
    while k > 0 && number < list[k - 1]
        invariant
            list@ == start,
            k <= list.len(),
            forall|j: int| k <= j < list.len() ==> number_order()(number, #[trigger] list@[j]),
        decreases k,
    {
        k -= 1;
    }
    proof {
        lemma_orders_strict_total();
        lemma_insert_at(start, number, number_order(), k as int);
    }
    if k == 0 || list[k - 1] != number {
        list.insert(k, number);
    }
}

/// Puts a text into an increasing list, unless it is there.
pub fn insert_text(list: &mut Vec<String>, text: &str)
    ensures
        texts(final(list)@) == insert_sorted(texts(old(list)@), text@, text_order()),
{
    let ghost start = list@;
    let mut k: usize = list.len();
    while k > 0 && text_comes_before(text, list[k - 1].as_str())
        invariant
            list@ == start,
            k <= list.len(),
            forall|j: int| k <= j < list.len() ==> text_order()(text@, #[trigger] texts(list@)[j]),
        decreases k,
    {
        k -= 1;
    }
    proof {
        lemma_orders_strict_total();
        lemma_insert_at(texts(start), text@, text_order(), k as int);
    }
    if k == 0 || !same_text(list[k - 1].as_str(), text) {
        let copy = text.to_owned();
        list.insert(k, copy);
        assert(texts(list@) =~= texts(start).insert(k as int, text@));
    }
}

/// The texts of a list, each once, in order.
pub fn sorted_texts(list: &Vec<String>) -> (r: Vec<String>)
    ensures
        texts(r@) == sorted_set(texts(list@), text_order()),
{
    let mut out: Vec<String> = Vec::new();
    assert(texts(out@) =~= sorted_set(texts(list@).take(0), text_order()));
    let mut i: usize = 0;
    while i < list.len()
        invariant
            i <= list.len(),
            texts(out@) == sorted_set(texts(list@).take(i as int), text_order()),
        decreases list.len() - i,
    {
        insert_text(&mut out, list[i].as_str());
        assert(texts(list@).take(i + 1).drop_last() =~= texts(list@).take(i as int));
        assert(texts(list@).take(i + 1).last() == list@[i as int]@);
        i += 1;
    }
    assert(texts(list@).take(i as int) =~= texts(list@));
    out
}

/// Whether an increasing list of numbers holds a number.
pub fn holds_number(list: &Vec<i64>, number: i64) -> (r: bool)
    requires
        increasing(list@, number_order()),
    ensures
        r == list@.contains(number),
{
    let ghost lt = number_order();
    let mut low: usize = 0;
    let mut high: usize = list.len();
    while low < high
        invariant
            low <= high <= list.len(),
            lt == number_order(),
            increasing(list@, lt),
            forall|j: int| 0 <= j < low ==> #[trigger] list@[j] < number,
            forall|j: int| high <= j < list.len() ==> #[trigger] list@[j] > number,
        decreases high - low,
    {
        let middle: usize = low + (high - low) / 2;
        let found: i64 = list[middle];
        if found == number {
            assert(list@[middle as int] == number);
            return true;
        }
        if found < number {
            assert forall|j: int| 0 <= j < middle + 1 implies #[trigger] list@[j] < number by {
                if j < middle {
                    assert(lt(list@[j], list@[middle as int]));
                }
            }
            low = middle + 1;
        } else {
            assert forall|j: int| middle <= j < list.len() implies #[trigger] list@[j] > number by {
                if j > middle {
                    assert(lt(list@[middle as int], list@[j]));
                }
            }
            high = middle;
        }
    }
    false
}

/// The numbers that two lists share, in the order of the first.
pub open spec fn shared(a: Seq<i64>, b: Seq<i64>) -> Seq<i64> {
    a.filter(|x: i64| b.contains(x))
}

/// The numbers that two increasing lists share.
pub fn shared_numbers(a: &Vec<i64>, b: &Vec<i64>) -> (r: Vec<i64>)
    requires
        increasing(b@, number_order()),
    ensures
        r@ == shared(a@, b@),
{
    let mut out: Vec<i64> = Vec::new();
    let ghost keep = |x: i64| b@.contains(x);
    assert(out@ =~= a@.take(0).filter(keep)) by {
        reveal(Seq::filter);
    }
    let mut i: usize = 0;
    while i < a.len()
        invariant
            i <= a.len(),
            keep == (|x: i64| b@.contains(x)),
            increasing(b@, number_order()),
            out@ == a@.take(i as int).filter(keep),
        decreases a.len() - i,
    {
        proof {
            reveal(Seq::filter);
            assert(a@.take(i + 1).drop_last() =~= a@.take(i as int));
        }
        if holds_number(b, a[i]) {
            out.push(a[i]);
        }
        i += 1;
    }
    assert(a@.take(i as int) =~= a@);
    out
}

/// What two lists share.
pub proof fn lemma_shared(a: Seq<i64>, b: Seq<i64>)
    requires
        increasing(a, number_order()),
    ensures
        increasing(shared(a, b), number_order()),
        forall|y: i64|
            #![trigger shared(a, b).contains(y)]
            shared(a, b).contains(y) <==> a.contains(y) && b.contains(y),
        shared(a, b).len() <= a.len(),
    decreases a.len(),
{
    let keep = |x: i64| b.contains(x);
    let lt = number_order();
    reveal(Seq::filter);
    if a.len() > 0 {
        let front = a.drop_last();
        assert(increasing(front, lt)) by {
            assert forall|i: int, j: int| 0 <= i < j < front.len() implies #[trigger] lt(
                front[i],
                front[j],
            ) by {
                assert(lt(a[i], a[j]));
            }
        }
        lemma_shared(front, b);
        let m = shared(front, b);
        let r = shared(a, b);
        assert(r == if keep(a.last()) {
            m.push(a.last())
        } else {
            m
        });
        assert forall|y: i64| #[trigger] r.contains(y) <==> a.contains(y) && b.contains(y) by {
            if r.contains(y) {
                let i = choose|i: int| 0 <= i < r.len() && r[i] == y;
                if i < m.len() {
                    assert(m[i] == y);
                    assert(m.contains(y));
                    let k = choose|k: int| 0 <= k < front.len() && front[k] == y;
                    assert(a[k] == y);
                } else {
                    assert(a[a.len() - 1] == y);
                }
            }
            if a.contains(y) && b.contains(y) {
                let k = choose|k: int| 0 <= k < a.len() && a[k] == y;
                if k < front.len() {
                    assert(front[k] == y);
                    assert(m.contains(y));
                    let i = choose|i: int| 0 <= i < m.len() && m[i] == y;
                    assert(r[i] == y);
                } else {
                    assert(r[m.len() as int] == y);
                }
            }
        }
        assert forall|i: int, j: int| 0 <= i < j < r.len() implies #[trigger] lt(r[i], r[j]) by {
            if j < m.len() {
                assert(lt(m[i], m[j]));
            } else {
                assert(m.contains(m[i]));
                assert(front.contains(m[i]));
                let k = choose|k: int| 0 <= k < front.len() && front[k] == m[i];
                assert(lt(a[k], a[a.len() - 1]));
            }
        }
    }
}

/// Increasing lists of the same elements are the same.
pub proof fn lemma_increasing_unique(a: Seq<i64>, b: Seq<i64>)
    requires
        increasing(a, number_order()),
        increasing(b, number_order()),
        forall|y: i64| #[trigger] a.contains(y) <==> b.contains(y),
    ensures
        a == b,
    decreases a.len(),
{
    let lt = number_order();
    if a.len() == 0 {
        if b.len() > 0 {
            assert(b.contains(b[0]));
            assert(a.contains(b[0]));
        }
        assert(a =~= b);
    } else {
        assert(a.contains(a.last()));
        assert(b.contains(a.last()));
        assert(b.contains(b.last()));
        assert(a.contains(b.last()));
        let i = choose|i: int| 0 <= i < a.len() && a[i] == b.last();
        let j = choose|j: int| 0 <= j < b.len() && b[j] == a.last();
        if i < a.len() - 1 {
            assert(lt(a[i], a[a.len() - 1]));
        }
        if j < b.len() - 1 {
            assert(lt(b[j], b[b.len() - 1]));
        }
        assert(a.last() == b.last());
        let x = a.drop_last();
        let y = b.drop_last();
        lemma_front_of_increasing(a);
        lemma_front_of_increasing(b);
        assert forall|n: i64| #[trigger] x.contains(n) <==> y.contains(n) by {
            assert(a.contains(n) <==> b.contains(n));
        }
        lemma_increasing_unique(x, y);
        assert(a =~= x.push(a.last()));
        assert(b =~= y.push(b.last()));
    }
}

/// An increasing list without its last element holds the others.
proof fn lemma_front_of_increasing(a: Seq<i64>)
    requires
        a.len() > 0,
        increasing(a, number_order()),
    ensures
        increasing(a.drop_last(), number_order()),
        forall|n: i64| #[trigger] a.drop_last().contains(n) <==> a.contains(n) && n != a.last(),
{
    let lt = number_order();
    let x = a.drop_last();
    assert forall|i: int, j: int| 0 <= i < j < x.len() implies #[trigger] lt(x[i], x[j]) by {
        assert(lt(a[i], a[j]));
    }
    assert forall|n: i64| #[trigger] x.contains(n) <==> a.contains(n) && n != a.last() by {
        if x.contains(n) {
            let i = choose|i: int| 0 <= i < x.len() && x[i] == n;
            assert(a[i] == n);
            assert(lt(a[i], a[a.len() - 1]));
        }
        if a.contains(n) && n != a.last() {
            let i = choose|i: int| 0 <= i < a.len() && a[i] == n;
            assert(x[i] == n);
        }
    }
}

/// An increasing list holds each element once.
pub proof fn lemma_increasing_has_no_duplicates(a: Seq<i64>)
    requires
        increasing(a, number_order()),
    ensures
        a.no_duplicates(),
{
    let lt = number_order();
    assert forall|i: int, j: int| 0 <= i < a.len() && 0 <= j < a.len() && i != j implies a[i]
        != a[j] by {
        if i < j {
            assert(lt(a[i], a[j]));
        } else {
            assert(lt(a[j], a[i]));
        }
    }
}

} // verus!
