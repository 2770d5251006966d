//! What the list of nodes of a snapshot says of the trees that were scanned.

use crate::order::{is_order, lemma_order_is_order, lemma_order_unique, lemma_text_before_strict_total, order, ranks, text_before, Ranked};
use crate::snapshot::{children_listing, entry_of, envelope_of, lemma_children_listing, lemma_listing, listing, node_id, nodes_are_numbered_and_parents_come_first, nodes_of, parent_among, root_id, roots_of, total_size, NodeView, ScanNode};
use crate::text::{decimal, decimal_is_injective};
use vstd::prelude::*;

verus! {

/// No two places have the same node id, and none the same root id.
pub proof fn lemma_ids_are_injective(a: nat, b: nat)
    ensures
        node_id(a) == node_id(b) ==> a == b,
        root_id(a) == root_id(b) ==> a == b,
{
    let x = decimal(a);
    let y = decimal(b);
    let n = "node-"@;
    let r = "root-"@;
    assert((n + x).skip(n.len() as int) =~= x);
    assert((n + y).skip(n.len() as int) =~= y);
    assert((r + x).skip(r.len() as int) =~= x);
    assert((r + y).skip(r.len() as int) =~= y);
    if x == y {
        decimal_is_injective(a, b);
    }
}

/// The nodes of a list whose parent has this id.
pub open spec fn with_parent(l: Seq<NodeView>, id: Seq<char>) -> Seq<NodeView> {
    l.filter(|n: NodeView| n.parent_id == Some(id))
}

proof fn lemma_with_parent_add(a: Seq<NodeView>, b: Seq<NodeView>, id: Seq<char>)
    ensures
        with_parent(a + b, id).len() == with_parent(a, id).len() + with_parent(b, id).len(),
{
    Seq::filter_distributes_over_add(a, b, |n: NodeView| n.parent_id == Some(id));
}

proof fn lemma_with_parent_one(n: NodeView, id: Seq<char>)
    ensures
        with_parent(seq![n], id).len() == if n.parent_id == Some(id) {
            1nat
        } else {
            0
        },
{
    let keep = |n: NodeView| n.parent_id == Some(id);
    reveal_with_fuel(Seq::filter, 2);
    assert(seq![n].drop_last() =~= Seq::empty());
}

/// Nodes whose parents are others have no parent of this id.
proof fn lemma_no_such_parent(l: Seq<NodeView>, lo: nat, hi: nat, k: nat)
    requires
        forall|i: int| 0 <= i < l.len() ==> parent_among(#[trigger] l[i], lo, hi),
        k < lo || k >= hi,
    ensures
        with_parent(l, node_id(k)).len() == 0,
    decreases l.len(),
{
    reveal(Seq::filter);
    if l.len() > 0 {
        let front = l.drop_last();
        assert forall|i: int| 0 <= i < front.len() implies parent_among(
            #[trigger] front[i],
            lo,
            hi,
        ) by {
            assert(front[i] == l[i]);
        }
        lemma_no_such_parent(front, lo, hi, k);
        assert(parent_among(l[l.len() - 1], lo, hi));
        let j = choose|j: nat|
            lo <= j < hi && l[l.len() - 1].parent_id == Some(#[trigger] node_id(j));
        lemma_ids_are_injective(j, k);
    }
}

/// Whether each node of a list that starts at the place `at` counts as many
/// children as the list has nodes with it as their parent.
spec fn counts_children(l: Seq<NodeView>, at: nat, all: Seq<NodeView>) -> bool {
    forall|i: int|
        0 <= i < l.len() ==> with_parent(all, node_id((at + i) as nat)).len()
            == (#[trigger] l[i]).child_count
}

/// Whether a parent, if there is one, stands before the place `at`.
spec fn stands_before(parent: Option<Seq<char>>, at: nat) -> bool {
    match parent {
        Some(id) => exists|j: nat| j < at && id == #[trigger] node_id(j),
        None => true,
    }
}

proof fn lemma_widen(l: Seq<NodeView>, lo: nat, first: nat, hi: nat)
    requires
        first + l.len() <= hi,
        forall|i: int|
            0 <= i < l.len() ==> parent_among(#[trigger] l[i], lo, (first + i) as nat),
    ensures
        forall|i: int| 0 <= i < l.len() ==> parent_among(#[trigger] l[i], lo, hi),
{
    assert forall|i: int| 0 <= i < l.len() implies parent_among(#[trigger] l[i], lo, hi) by {
        let j = choose|j: nat|
            lo <= j < (first + i) as nat && l[i].parent_id == Some(#[trigger] node_id(j));
        assert(lo <= j < hi && l[i].parent_id == Some(node_id(j)));
    }
}

proof fn lemma_listing_counts(
    node: ScanNode,
    root: Seq<char>,
    parent: Option<Seq<char>>,
    root_path: Seq<u8>,
    is_root: bool,
    at: nat,
)
    requires
        stands_before(parent, at),
    ensures
        ({
            let l = listing(node, root, parent, root_path, is_root, at);
            counts_children(l, at, l)
        }),
    decreases node, node.children@.len() + 1,
{
    let n = node.children@.len();
    let head = entry_of(node, root, parent, root_path, is_root, at);
    let below = children_listing(node, n, root, root_path, at);
    let l = listing(node, root, parent, root_path, is_root, at);
    lemma_children_counts(node, n, root, root_path, at);
    assert(l =~= seq![head] + below);
    assert(node.children.len() == n);
    assert forall|i: int| 0 <= i < l.len() implies with_parent(
        l,
        node_id((at + i) as nat),
    ).len() == (#[trigger] l[i]).child_count by {
        let id = node_id((at + i) as nat);
        lemma_with_parent_add(seq![head], below, id);
        lemma_with_parent_one(head, id);
        if parent is Some {
            let j = choose|j: nat| j < at && parent->0 == #[trigger] node_id(j);
            lemma_ids_are_injective(j, (at + i) as nat);
        }
        if i > 0 {
            assert(l[i] == below[i - 1]);
            assert((at + 1 + (i - 1)) as nat == (at + i) as nat);
        }
    }
}

proof fn lemma_children_counts(
    node: ScanNode,
    n: nat,
    root: Seq<char>,
    root_path: Seq<u8>,
    at: nat,
)
    requires
        n <= node.children@.len(),
    ensures
        ({
            let l = children_listing(node, n, root, root_path, at);
            &&& with_parent(l, node_id(at)).len() == n
            &&& counts_children(l, at + 1, l)
        }),
    decreases node, n,
{
    let l = children_listing(node, n, root, root_path, at);
    if n == 0 {
        reveal(Seq::filter);
    } else {
        let m = (n - 1) as nat;
        let before = children_listing(node, m, root, root_path, at);
        lemma_children_counts(node, m, root, root_path, at);
        lemma_children_listing(node, m, root, root_path, at);
        lemma_order_is_order(node.children@);
        let k = order(node.children@)[n - 1];
        assert(0 <= k < node.children@.len());
        let start = at + 1 + before.len();
        let parent = Some(node_id(at));
        let child = listing(node.children@[k], root, parent, root_path, false, start);
        assert(at < start && parent->0 == node_id(at));
        lemma_listing_counts(node.children@[k], root, parent, root_path, false, start);
        lemma_listing(node.children@[k], root, parent, root_path, false, start);
        assert(l =~= before + child);
        let rest = child.skip(1);
        let end = start + child.len();
        assert(child =~= seq![child[0]] + rest);
        assert forall|i: int| 0 <= i < rest.len() implies parent_among(
            #[trigger] rest[i],
            start,
            (start + 1 + i) as nat,
        ) by {
            assert(rest[i] == child[i + 1]);
        }
        lemma_widen(rest, start, start + 1, end);
        lemma_widen(before, at, at + 1, start);
        // the children so far, and one more
        lemma_with_parent_add(before, child, node_id(at));
        lemma_with_parent_add(seq![child[0]], rest, node_id(at));
        lemma_with_parent_one(child[0], node_id(at));
        lemma_no_such_parent(rest, start, end, at);
        assert forall|i: int| 0 <= i < l.len() implies with_parent(
            l,
            node_id((at + 1 + i) as nat),
        ).len() == (#[trigger] l[i]).child_count by {
            let p = (at + 1 + i) as nat;
            lemma_with_parent_add(before, child, node_id(p));
            if i < before.len() {
                assert(l[i] == before[i]);
                lemma_with_parent_add(seq![child[0]], rest, node_id(p));
                lemma_with_parent_one(child[0], node_id(p));
                lemma_ids_are_injective(at, p);
                lemma_no_such_parent(rest, start, end, p);
            } else {
                let c = i - before.len();
                assert(l[i] == child[c]);
                assert(p == (start + c) as nat);
                lemma_no_such_parent(before, at, start, p);
            }
        }
    }
}

proof fn lemma_nodes_counts(trees: Seq<ScanNode>, n: nat)
    requires
        n <= trees.len(),
    ensures
        counts_children(nodes_of(trees, n), 0, nodes_of(trees, n)),
        forall|i: int|
            0 <= i < nodes_of(trees, n).len() ==> (#[trigger] nodes_of(trees, n)[i]).parent_id
                is None || parent_among(nodes_of(trees, n)[i], 0, nodes_of(trees, n).len()),
    decreases n,
{
    if n > 0 {
        let m = (n - 1) as nat;
        let before = nodes_of(trees, m);
        let tree = trees[n - 1];
        let at = before.len();
        let part = listing(tree, root_id(m), None, tree.path@, true, at);
        let all = nodes_of(trees, n);
        lemma_nodes_counts(trees, m);
        lemma_listing_counts(tree, root_id(m), None, tree.path@, true, at);
        lemma_listing(tree, root_id(m), None, tree.path@, true, at);
        assert(all =~= before + part);
        let rest = part.skip(1);
        let end = at + part.len();
        assert(part =~= seq![part[0]] + rest);
        assert forall|i: int| 0 <= i < rest.len() implies parent_among(
            #[trigger] rest[i],
            at,
            (at + 1 + i) as nat,
        ) by {
            assert(rest[i] == part[i + 1]);
        }
        lemma_widen(rest, at, at + 1, end);
        assert forall|i: int| 0 <= i < all.len() implies (#[trigger] all[i]).parent_id is None
            || parent_among(all[i], 0, all.len()) by {
            if i < at {
                assert(all[i] == before[i]);
                if before[i].parent_id is Some {
                    let j = choose|j: nat|
                        0 <= j < at && before[i].parent_id == Some(#[trigger] node_id(j));
                    assert(0 <= j < all.len() && all[i].parent_id == Some(node_id(j)));
                }
            } else if i > at {
                let c = i - at;
                assert(all[i] == part[c]);
                assert(rest[c - 1] == part[c]);
                let j = choose|j: nat|
                    at <= j < end && rest[c - 1].parent_id == Some(#[trigger] node_id(j));
                assert(0 <= j < all.len() && all[i].parent_id == Some(node_id(j)));
            } else {
                assert(all[i] == part[0]);
            }
        }
        assert forall|i: int| 0 <= i < all.len() implies with_parent(
            all,
            node_id((0 + i) as nat),
        ).len() == (#[trigger] all[i]).child_count by {
            let p = i as nat;
            lemma_with_parent_add(before, part, node_id(p));
            if i < at {
                assert(all[i] == before[i]);
                assert(with_parent(before, node_id((0 + i) as nat)).len() == before[i].child_count);
                lemma_with_parent_add(seq![part[0]], rest, node_id(p));
                lemma_with_parent_one(part[0], node_id(p));
                lemma_no_such_parent(rest, at, end, p);
            } else {
                let c = i - at;
                assert(all[i] == part[c]);
                assert(p == (at + c) as nat);
                lemma_no_parent_past(before, at, p);
            }
        }
    }
}

/// Nodes without a parent, or with one at a place before `hi`, have none at or
/// past it.
proof fn lemma_no_parent_past(l: Seq<NodeView>, hi: nat, k: nat)
    requires
        forall|i: int|
            0 <= i < l.len() ==> (#[trigger] l[i]).parent_id is None || parent_among(l[i], 0, hi),
        k >= hi,
    ensures
        with_parent(l, node_id(k)).len() == 0,
    decreases l.len(),
{
    reveal(Seq::filter);
    if l.len() > 0 {
        let front = l.drop_last();
        assert forall|i: int| 0 <= i < front.len() implies (#[trigger] front[i]).parent_id is None
            || parent_among(front[i], 0, hi) by {
            assert(front[i] == l[i]);
        }
        lemma_no_parent_past(front, hi, k);
        let last = l[l.len() - 1];
        if last.parent_id is Some {
            let j = choose|j: nat| 0 <= j < hi && last.parent_id == Some(#[trigger] node_id(j));
            lemma_ids_are_injective(j, k);
        }
    }
}

/// Every node of a snapshot counts as many children as there are nodes with it
/// as their parent.
pub proof fn child_counts_are_right(trees: Seq<ScanNode>, i: int)
    requires
        0 <= i < nodes_of(trees, trees.len()).len(),
    ensures
        ({
            let nodes = nodes_of(trees, trees.len());
            with_parent(nodes, node_id(i as nat)).len() == nodes[i].child_count
        }),
{
    lemma_nodes_counts(trees, trees.len());
    let nodes = nodes_of(trees, trees.len());
    assert(with_parent(nodes, node_id((0 + i) as nat)).len() == nodes[i].child_count);
}

/// The place at which the nodes of a tree begin, and its nodes.
proof fn lemma_part(trees: Seq<ScanNode>, n: nat, r: nat)
    requires
        r < n <= trees.len(),
    ensures
        ({
            let at = nodes_of(trees, r).len();
            let part = listing(trees[r as int], root_id(r), None, trees[r as int].path@, true, at);
            &&& at + part.len() <= nodes_of(trees, n).len()
            &&& forall|i: int|
                0 <= i < part.len() ==> nodes_of(trees, n)[at + i] == #[trigger] part[i]
        }),
    decreases n,
{
    let at = nodes_of(trees, r).len();
    let part = listing(trees[r as int], root_id(r), None, trees[r as int].path@, true, at);
    if r < n - 1 {
        lemma_part(trees, (n - 1) as nat, r);
        let before = nodes_of(trees, (n - 1) as nat);
        assert forall|i: int| 0 <= i < part.len() implies nodes_of(trees, n)[at + i]
            == #[trigger] part[i] by {
            assert(before[at + i] == part[i]);
        }
    }
}

/// The tree that the node at a place belongs to.
proof fn lemma_tree_of(trees: Seq<ScanNode>, n: nat, i: int) -> (r: nat)
    requires
        n <= trees.len(),
        0 <= i < nodes_of(trees, n).len(),
    ensures
        r < n,
        ({
            let at = nodes_of(trees, r).len();
            let part = listing(trees[r as int], root_id(r), None, trees[r as int].path@, true, at);
            at <= i < at + part.len()
        }),
    decreases n,
{
    if n > 0 {
        let before = nodes_of(trees, (n - 1) as nat);
        if i < before.len() {
            lemma_tree_of(trees, (n - 1) as nat, i)
        } else {
            (n - 1) as nat
        }
    } else {
        0
    }
}

/// A node of a snapshot belongs to the root that its parent belongs to.
pub proof fn nodes_belong_to_the_root_of_their_parent(trees: Seq<ScanNode>, i: int, j: int)
    requires
        0 <= i < nodes_of(trees, trees.len()).len(),
        0 <= j < nodes_of(trees, trees.len()).len(),
        nodes_of(trees, trees.len())[i].parent_id == Some(nodes_of(trees, trees.len())[j].id),
    ensures
        nodes_of(trees, trees.len())[i].root_id == nodes_of(trees, trees.len())[j].root_id,
{
    let nodes = nodes_of(trees, trees.len());
    let r = lemma_tree_of(trees, trees.len(), i);
    lemma_part(trees, trees.len(), r);
    let tree = trees[r as int];
    let at = nodes_of(trees, r).len();
    let part = listing(tree, root_id(r), None, tree.path@, true, at);
    lemma_listing(tree, root_id(r), None, tree.path@, true, at);
    let c = i - at;
    assert(nodes[at + c] == part[c]);
    assert(c > 0);
    assert(parent_among(part[c], at, (at + c) as nat));
    let k = choose|k: nat|
        at <= k < (at + c) as nat && part[c].parent_id == Some(#[trigger] node_id(k));
    nodes_are_numbered_and_parents_come_first(trees, trees.len(), j);
    lemma_ids_are_injective(k, j as nat);
    assert(nodes[at + (j - at)] == part[j - at]);
}

/// Each root of a snapshot has exactly one root node, at the place where the
/// nodes of its tree begin, and every node belongs to one of the roots.
pub proof fn every_root_has_one_root_node(trees: Seq<ScanNode>, r: nat, i: int)
    requires
        r < trees.len(),
        0 <= i < nodes_of(trees, trees.len()).len(),
    ensures
        nodes_of(trees, r).len() < nodes_of(trees, trees.len()).len(),
        nodes_of(trees, trees.len())[i].kind is Root && nodes_of(trees, trees.len())[i].root_id
            == roots_of(trees, trees.len())[r as int].id <==> i == nodes_of(trees, r).len(),
        exists|q: int|
            0 <= q < trees.len() && nodes_of(trees, trees.len())[i].root_id == (#[trigger] roots_of(
                trees,
                trees.len(),
            )[q]).id,
{
    let nodes = nodes_of(trees, trees.len());
    let q = lemma_tree_of(trees, trees.len(), i);
    lemma_part(trees, trees.len(), q);
    lemma_part(trees, trees.len(), r);
    let tree = trees[q as int];
    let at = nodes_of(trees, q).len();
    let part = listing(tree, root_id(q), None, tree.path@, true, at);
    lemma_listing(tree, root_id(q), None, tree.path@, true, at);
    let own = trees[r as int];
    let start = nodes_of(trees, r).len();
    let mine = listing(own, root_id(r), None, own.path@, true, start);
    lemma_listing(own, root_id(r), None, own.path@, true, start);
    assert(nodes[start as int + 0] == mine[0]);
    assert(nodes[at + (i - at)] == part[i - at]);
    assert(nodes[i].root_id == root_id(q));
    lemma_ids_are_injective(q, r);
    assert(roots_of(trees, trees.len())[q as int].id == root_id(q));
}

/// Whether two scanned trees are the same but for the order of children: `p`
/// tells where in the second tree each child of the first is.
pub open spec fn same_tree(a: ScanNode, b: ScanNode) -> bool
    decreases a,
{
    &&& a.path@ == b.path@
    &&& a.name@ == b.name@
    &&& a.size == b.size
    &&& a.ignored == b.ignored
    &&& a.collapsed == b.collapsed
    &&& a.directory == b.directory
    &&& a.children@.len() == b.children@.len()
    &&& exists|p: Seq<int>|
        {
            &&& #[trigger] is_permutation(p, a.children@.len())
            &&& forall|i: int|
                0 <= i < a.children@.len() ==> same_tree(
                    #[trigger] a.children@[i],
                    b.children@[p[i]],
                )
        }
}

/// Whether a list holds each number below `n` once.
pub open spec fn is_permutation(p: Seq<int>, n: nat) -> bool {
    &&& p.len() == n
    &&& p.no_duplicates()
    &&& forall|i: int| 0 <= i < n ==> 0 <= #[trigger] p[i] < n
}

/// Whether no two children of any node of a tree have both one size and one
/// name.
pub open spec fn distinct_siblings(a: ScanNode) -> bool
    decreases a,
{
    &&& forall|i: int, j: int|
        0 <= i < j < a.children@.len() ==> (#[trigger] a.children@[i]).size != (
        #[trigger] a.children@[j]).size || a.children@[i].name@ != a.children@[j].name@
    &&& forall|i: int|
        0 <= i < a.children@.len() ==> distinct_siblings(#[trigger] a.children@[i])
}

proof fn lemma_same_order(a: ScanNode, b: ScanNode, p: Seq<int>)
    requires
        distinct_siblings(a),
        a.children@.len() == b.children@.len(),
        is_permutation(p, a.children@.len()),
        forall|i: int|
            0 <= i < a.children@.len() ==> same_tree(#[trigger] a.children@[i], b.children@[p[i]]),
    ensures
        order(b.children@) == order(a.children@).map_values(|i: int| p[i]),
{
    let x = a.children@;
    let y = b.children@;
    let o = order(x);
    let q = o.map_values(|i: int| p[i]);
    lemma_order_is_order(x);
    lemma_text_before_strict_total();
    let lt = |s: Seq<char>, t: Seq<char>| text_before(s, t);
    assert forall|s: int, t: int| 0 <= s < t < q.len() implies ranks(
        y,
        #[trigger] q[s],
        #[trigger] q[t],
    ) by {
        let i = o[s];
        let j = o[t];
        assert(ranks(x, i, j));
        assert(same_tree(x[i], y[p[i]]) && same_tree(x[j], y[p[j]]));
        if i == j {
            ScanNode::before_irreflexive(x[i]);
        }
        assert(x[i].before(x[j])) by {
            if !x[i].before(x[j]) {
                if x[i].size == x[j].size {
                    if x[i].name@ != x[j].name@ {
                        assert(lt(x[i].name@, x[j].name@) || lt(x[j].name@, x[i].name@));
                    }
                }
            }
        }
        assert(y[p[i]].before(y[p[j]]));
    }
    assert(is_order(y, q));
    lemma_order_unique(y, q);
}

proof fn lemma_same_listing(
    a: ScanNode,
    b: ScanNode,
    root: Seq<char>,
    parent: Option<Seq<char>>,
    root_path: Seq<u8>,
    is_root: bool,
    at: nat,
)
    requires
        same_tree(a, b),
        distinct_siblings(a),
    ensures
        listing(a, root, parent, root_path, is_root, at) == listing(
            b,
            root,
            parent,
            root_path,
            is_root,
            at,
        ),
    decreases a, a.children@.len() + 1,
{
    let n = a.children@.len();
    let p = choose|p: Seq<int>|
        {
            &&& #[trigger] is_permutation(p, n)
            &&& forall|i: int|
                0 <= i < n ==> same_tree(#[trigger] a.children@[i], b.children@[p[i]])
        };
    lemma_same_children(a, b, p, n, root, root_path, at);
    assert(entry_of(a, root, parent, root_path, is_root, at) == entry_of(
        b,
        root,
        parent,
        root_path,
        is_root,
        at,
    ));
}

proof fn lemma_same_children(
    a: ScanNode,
    b: ScanNode,
    p: Seq<int>,
    n: nat,
    root: Seq<char>,
    root_path: Seq<u8>,
    at: nat,
)
    requires
        n <= a.children@.len(),
        distinct_siblings(a),
        a.children@.len() == b.children@.len(),
        is_permutation(p, a.children@.len()),
        forall|i: int|
            0 <= i < a.children@.len() ==> same_tree(#[trigger] a.children@[i], b.children@[p[i]]),
    ensures
        children_listing(a, n, root, root_path, at) == children_listing(
            b,
            n,
            root,
            root_path,
            at,
        ),
    decreases a, n,
{
    if n > 0 {
        let m = (n - 1) as nat;
        lemma_same_children(a, b, p, m, root, root_path, at);
        lemma_same_order(a, b, p);
        lemma_order_is_order(a.children@);
        let before = children_listing(a, m, root, root_path, at);
        let i = order(a.children@)[n - 1];
        assert(0 <= i < a.children@.len());
        assert(order(b.children@)[n - 1] == p[i]);
        assert(same_tree(a.children@[i], b.children@[p[i]]));
        assert(distinct_siblings(a.children@[i]));
        lemma_same_listing(
            a.children@[i],
            b.children@[p[i]],
            root,
            Some(node_id(at)),
            root_path,
            false,
            at + 1 + before.len(),
        );
    }
}

/// The order in which a scan lists the children of a node does not matter: trees
/// that are the same but for it give the same snapshot, where no two children of
/// a node have both one size and one name.
pub proof fn the_order_of_children_does_not_matter(
    a: Seq<ScanNode>,
    b: Seq<ScanNode>,
    version: Seq<char>,
)
    requires
        a.len() == b.len(),
        forall|i: int| 0 <= i < a.len() ==> same_tree(#[trigger] a[i], b[i]),
        forall|i: int| 0 <= i < a.len() ==> distinct_siblings(#[trigger] a[i]),
    ensures
        envelope_of(a, version) == envelope_of(b, version),
{
    lemma_same_nodes(a, b, a.len());
    lemma_same_total(a, b);
    assert(roots_of(a, a.len()) =~= roots_of(b, b.len())) by {
        assert forall|i: int| 0 <= i < a.len() implies roots_of(a, a.len())[i] == roots_of(
            b,
            b.len(),
        )[i] by {
            assert(same_tree(a[i], b[i]));
        }
    }
}

proof fn lemma_same_nodes(a: Seq<ScanNode>, b: Seq<ScanNode>, n: nat)
    requires
        a.len() == b.len(),
        n <= a.len(),
        forall|i: int| 0 <= i < a.len() ==> same_tree(#[trigger] a[i], b[i]),
        forall|i: int| 0 <= i < a.len() ==> distinct_siblings(#[trigger] a[i]),
    ensures
        nodes_of(a, n) == nodes_of(b, n),
    decreases n,
{
    if n > 0 {
        let m = (n - 1) as nat;
        lemma_same_nodes(a, b, m);
        assert(same_tree(a[n - 1], b[n - 1]) && distinct_siblings(a[n - 1]));
        lemma_same_listing(
            a[n - 1],
            b[n - 1],
            root_id(m),
            None,
            a[n - 1].path@,
            true,
            nodes_of(a, m).len(),
        );
    }
}

proof fn lemma_same_total(a: Seq<ScanNode>, b: Seq<ScanNode>)
    requires
        a.len() == b.len(),
        forall|i: int| 0 <= i < a.len() ==> same_tree(#[trigger] a[i], b[i]),
    ensures
        total_size(a) == total_size(b),
    decreases a.len(),
{
    if a.len() > 0 {
        let x = a.drop_last();
        let y = b.drop_last();
        assert forall|i: int| 0 <= i < x.len() implies same_tree(#[trigger] x[i], y[i]) by {
            assert(same_tree(a[i], b[i]));
        }
        lemma_same_total(x, y);
        assert(same_tree(a[a.len() - 1], b[a.len() - 1]));
    }
}

} // verus!
