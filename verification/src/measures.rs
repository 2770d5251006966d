//! What the nodes of a snapshot tell of the files and directories that were
//! scanned, and what its summary adds up to.

use crate::nodes::lemma_ids_are_injective;
use crate::order::{lemma_order_is_order, order, ranked, ranking_is_permutation, text_before};
use crate::path::{components, is_within, lossy_utf8, spans, tail_after, what_is_left_has_the_other_components};
use crate::snapshot::{children_are_listed_largest_first, children_listing, empty_envelope, entry_of, envelope_of, flags_of, kind_of, lemma_children_listing, lemma_listing, listing, node_id, nodes_are_numbered_and_parents_come_first, nodes_of, parent_among, relative_text, root_id, roots_of, total_size, DecimalBytes, HardlinkPolicy, NodeFlag, NodeKind, NodeScanState, NodeView, PrivacyMode, ScanNode, SizePolicy, SnapshotStatus, SymlinkPolicy};
use crate::text::decimal;
use vstd::prelude::*;
use vstd::seq_lib::to_multiset_contains;

verus! {

/// The scanned nodes of a tree: the first, and then those of each child, the
/// largest first.
pub open spec fn scanned(node: ScanNode) -> Seq<ScanNode>
    decreases node, node.children@.len() + 1,
{
    seq![node] + scanned_below(node, node.children@.len())
}

/// The scanned nodes of the first `n` children of a node, the largest first.
pub open spec fn scanned_below(node: ScanNode, n: nat) -> Seq<ScanNode>
    decreases node, n,
{
    if n == 0 || n > node.children@.len() {
        Seq::empty()
    } else {
        let k = order(node.children@)[n - 1];
        proof {
            lemma_order_is_order(node.children@);
            assert(0 <= k < node.children@.len());
        }
        scanned_below(node, (n - 1) as nat) + scanned(node.children@[k])
    }
}

/// The scanned nodes of the first `n` trees.
pub open spec fn scanned_trees(trees: Seq<ScanNode>, n: nat) -> Seq<ScanNode>
    decreases n,
{
    if n == 0 {
        Seq::empty()
    } else {
        scanned_trees(trees, (n - 1) as nat) + scanned(trees[n - 1])
    }
}

/// Whether one scanned node was found in another.
pub open spec fn is_child(parent: ScanNode, child: ScanNode) -> bool {
    exists|k: int| 0 <= k < parent.children@.len() && #[trigger] parent.children@[k] == child
}

/// Whether a node tells of a scanned one: its name, its size under each measure,
/// how many children it has, and what was special about it.
pub open spec fn tells_of(n: NodeView, s: ScanNode) -> bool {
    &&& n.name == Some(s.name@)
    &&& n.logical_bytes == Some(DecimalBytes(s.size))
    &&& n.allocated_bytes == Some(DecimalBytes(s.size))
    &&& n.unique_allocated_bytes == Some(DecimalBytes(s.size))
    &&& n.child_count == s.children@.len() as u64
    &&& n.flags == flags_of(s)
    &&& n.scan_state == if s.collapsed {
        NodeScanState::NotTraversed
    } else {
        NodeScanState::Complete
    }
    &&& n.kind is Root || n.kind == kind_of(s, false)
    &&& n.mtime is None && n.file_identity is None && n.hardlink_group is None
    &&& n.error_refs == Seq::<Seq<char>>::empty()
}

proof fn lemma_tells(
    node: ScanNode,
    root: Seq<char>,
    parent: Option<Seq<char>>,
    root_path: Seq<u8>,
    is_root: bool,
    at: nat,
)
    ensures
        ({
            let l = listing(node, root, parent, root_path, is_root, at);
            let p = scanned(node);
            &&& l.len() == p.len()
            &&& forall|i: int|
                0 <= i < l.len() ==> tells_of(#[trigger] l[i], p[i]) && l[i].relative_path
                    == relative_text(p[i].path@, root_path)
        }),
    decreases node, node.children@.len() + 1,
{
    let n = node.children@.len();
    lemma_tells_below(node, n, root, root_path, at);
    let l = listing(node, root, parent, root_path, is_root, at);
    let p = scanned(node);
    let below = children_listing(node, n, root, root_path, at);
    let under = scanned_below(node, n);
    assert forall|i: int| 0 <= i < l.len() implies tells_of(#[trigger] l[i], p[i])
        && l[i].relative_path == relative_text(p[i].path@, root_path) by {
        if i > 0 {
            assert(l[i] == below[i - 1] && p[i] == under[i - 1]);
        }
    }
}

proof fn lemma_tells_below(
    node: ScanNode,
    n: nat,
    root: Seq<char>,
    root_path: Seq<u8>,
    at: nat,
)
    ensures
        ({
            let l = children_listing(node, n, root, root_path, at);
            let p = scanned_below(node, n);
            &&& l.len() == p.len()
            &&& forall|i: int|
                0 <= i < l.len() ==> tells_of(#[trigger] l[i], p[i]) && l[i].relative_path
                    == relative_text(p[i].path@, root_path)
        }),
    decreases node, n,
{
    if n > 0 && n <= node.children@.len() {
        let m = (n - 1) as nat;
        lemma_tells_below(node, m, root, root_path, at);
        lemma_order_is_order(node.children@);
        let k = order(node.children@)[n - 1];
        assert(0 <= k < node.children@.len());
        let before = children_listing(node, m, root, root_path, at);
        let start = at + 1 + before.len();
        lemma_tells(node.children@[k], root, Some(node_id(at)), root_path, false, start);
        let child = listing(
            node.children@[k],
            root,
            Some(node_id(at)),
            root_path,
            false,
            start,
        );
        let l = children_listing(node, n, root, root_path, at);
        let p = scanned_below(node, n);
        assert(l =~= before + child);
        assert(p =~= scanned_below(node, m) + scanned(node.children@[k]));
        assert forall|i: int| 0 <= i < l.len() implies tells_of(#[trigger] l[i], p[i])
            && l[i].relative_path == relative_text(p[i].path@, root_path) by {
            if i < before.len() {
                assert(l[i] == before[i]);
            } else {
                assert(l[i] == child[i - before.len()]);
            }
        }
    }
}

proof fn lemma_tells_trees(trees: Seq<ScanNode>, n: nat)
    requires
        n <= trees.len(),
    ensures
        nodes_of(trees, n).len() == scanned_trees(trees, n).len(),
        forall|i: int|
            0 <= i < nodes_of(trees, n).len() ==> tells_of(
                #[trigger] nodes_of(trees, n)[i],
                scanned_trees(trees, n)[i],
            ),
    decreases n,
{
    if n > 0 {
        let m = (n - 1) as nat;
        lemma_tells_trees(trees, m);
        let tree = trees[n - 1];
        let before = nodes_of(trees, m);
        lemma_tells(tree, root_id(m), None, tree.path@, true, before.len());
        let part = listing(tree, root_id(m), None, tree.path@, true, before.len());
        assert forall|i: int| 0 <= i < nodes_of(trees, n).len() implies tells_of(
            #[trigger] nodes_of(trees, n)[i],
            scanned_trees(trees, n)[i],
        ) by {
            if i < before.len() {
                assert(nodes_of(trees, n)[i] == before[i]);
            } else {
                assert(nodes_of(trees, n)[i] == part[i - before.len()]);
            }
        }
    }
}

/// Every node of a snapshot has the name of the scanned node that it stands for,
/// its size as its logical, its allocated and its unique allocated bytes, and the
/// number of its children. It is flagged as ignored and as collapsed where the
/// scan says so, and is a directory where the file system said so, or could not
/// say and it has children.
pub proof fn nodes_tell_of_what_was_scanned(trees: Seq<ScanNode>, i: int)
    requires
        0 <= i < nodes_of(trees, trees.len()).len(),
    ensures
        nodes_of(trees, trees.len()).len() == scanned_trees(trees, trees.len()).len(),
        ({
            let n = nodes_of(trees, trees.len())[i];
            let s = scanned_trees(trees, trees.len())[i];
            &&& n.name == Some(s.name@)
            &&& n.logical_bytes == Some(DecimalBytes(s.size))
            &&& n.allocated_bytes == Some(DecimalBytes(s.size))
            &&& n.unique_allocated_bytes == Some(DecimalBytes(s.size))
            &&& n.child_count == s.children@.len() as u64
            &&& n.flags.contains(NodeFlag::Ignored) == s.ignored
            &&& n.flags.contains(NodeFlag::Collapsed) == s.collapsed
            &&& forall|k: int|
                0 <= k < n.flags.len() ==> #[trigger] n.flags[k] == NodeFlag::Ignored || n.flags[k]
                    == NodeFlag::Collapsed
            &&& n.flags.len() == (if s.ignored {
                1nat
            } else {
                0nat
            }) + (if s.collapsed {
                1nat
            } else {
                0nat
            })
            &&& s.ignored ==> n.flags[0] == NodeFlag::Ignored
            &&& n.scan_state == if s.collapsed {
                NodeScanState::NotTraversed
            } else {
                NodeScanState::Complete
            }
            &&& !(n.kind is Root) ==> n.kind == if s.directory == Some(true) || (s.directory
                is None && s.children@.len() > 0) {
                NodeKind::Directory
            } else {
                NodeKind::File
            }
            &&& n.mtime is None && n.file_identity is None && n.hardlink_group is None
            &&& n.error_refs.len() == 0
        }),
{
    lemma_tells_trees(trees, trees.len());
    let n = nodes_of(trees, trees.len())[i];
    let s = scanned_trees(trees, trees.len())[i];
    assert(tells_of(n, s));
    let f = flags_of(s);
    if s.ignored {
        assert(f[0] == NodeFlag::Ignored);
    }
    if s.collapsed {
        assert(f[f.len() - 1] == NodeFlag::Collapsed);
    }
}

/// The parent of the node at a place of a list that starts at `at`: the node
/// before the list, whose children these are, or an earlier one of the list.
spec fn linked(l: Seq<NodeView>, p: Seq<ScanNode>, at: nat, i: int) -> bool {
    exists|j: int|
        0 <= j < i && l[i].parent_id == Some(#[trigger] node_id((at + j) as nat)) && is_child(
            p[j],
            p[i],
        )
}

proof fn lemma_linked(
    node: ScanNode,
    root: Seq<char>,
    parent: Option<Seq<char>>,
    root_path: Seq<u8>,
    is_root: bool,
    at: nat,
)
    ensures
        ({
            let l = listing(node, root, parent, root_path, is_root, at);
            let p = scanned(node);
            &&& l.len() == p.len()
            &&& forall|i: int| 0 < i < l.len() ==> #[trigger] linked(l, p, at, i)
        }),
    decreases node, node.children@.len() + 1,
{
    let n = node.children@.len();
    lemma_linked_below(node, n, root, root_path, at);
    let l = listing(node, root, parent, root_path, is_root, at);
    let p = scanned(node);
    let first = entry_of(node, root, parent, root_path, is_root, at);
    assert(l =~= seq![first] + children_listing(node, n, root, root_path, at));
    assert forall|i: int| 0 < i < l.len() implies #[trigger] linked(l, p, at, i) by {
        let a = seq![first] + children_listing(node, n, root, root_path, at);
        let b = seq![node] + scanned_below(node, n);
        lemma_linked_under(node, n, root, root_path, at, first, i);
        assert(a == l && b == p);
    }
}

/// The children of a node, with the node put before them, are linked.
proof fn lemma_linked_under(
    node: ScanNode,
    n: nat,
    root: Seq<char>,
    root_path: Seq<u8>,
    at: nat,
    first: NodeView,
    i: int,
)
    requires
        0 < i <= children_listing(node, n, root, root_path, at).len(),
        linked_below(node, n, root, root_path, at),
    ensures
        linked(
            seq![first] + children_listing(node, n, root, root_path, at),
            seq![node] + scanned_below(node, n),
            at,
            i,
        ),
{
    let c = children_listing(node, n, root, root_path, at);
    let d = scanned_below(node, n);
    let l = seq![first] + c;
    let p = seq![node] + d;
    assert(l[i] == c[i - 1] && p[i] == d[i - 1]);
    let j = choose|j: int|
        -1 <= j < i - 1 && c[i - 1].parent_id == Some(#[trigger] node_id((at + 1 + j) as nat))
            && is_child(
            if j < 0 {
                node
            } else {
                d[j]
            },
            d[i - 1],
        );
    assert(link_at(node, c, d, at, i - 1));
    assert(p[j + 1] == if j < 0 {
        node
    } else {
        d[j]
    });
    assert((at + (j + 1)) as nat == (at + 1 + j) as nat);
    assert(l[i].parent_id == Some(node_id((at + (j + 1)) as nat)));
}

/// The parent of the node at a place below another.
spec fn link_at(
    node: ScanNode,
    c: Seq<NodeView>,
    d: Seq<ScanNode>,
    at: nat,
    i: int,
) -> bool {
    exists|j: int|
        -1 <= j < i && c[i].parent_id == Some(#[trigger] node_id((at + 1 + j) as nat)) && is_child(
            if j < 0 {
                node
            } else {
                d[j]
            },
            d[i],
        )
}

spec fn linked_below(
    node: ScanNode,
    n: nat,
    root: Seq<char>,
    root_path: Seq<u8>,
    at: nat,
) -> bool {
    let c = children_listing(node, n, root, root_path, at);
    let d = scanned_below(node, n);
    &&& c.len() == d.len()
    &&& forall|i: int| 0 <= i < c.len() ==> #[trigger] link_at(node, c, d, at, i)
}

proof fn lemma_linked_below(
    node: ScanNode,
    n: nat,
    root: Seq<char>,
    root_path: Seq<u8>,
    at: nat,
)
    ensures
        linked_below(node, n, root, root_path, at),
    decreases node, n,
{
    if n > 0 && n <= node.children@.len() {
        let m = (n - 1) as nat;
        lemma_linked_below(node, m, root, root_path, at);
        lemma_order_is_order(node.children@);
        let k = order(node.children@)[n - 1];
        assert(0 <= k < node.children@.len());
        let own = node.children@[k];
        let before = children_listing(node, m, root, root_path, at);
        let start = at + 1 + before.len();
        lemma_linked(own, root, Some(node_id(at)), root_path, false, start);
        let child = listing(own, root, Some(node_id(at)), root_path, false, start);
        lemma_listing(own, root, Some(node_id(at)), root_path, false, start);
        let c = children_listing(node, n, root, root_path, at);
        let d = scanned_below(node, n);
        let e = scanned_below(node, m);
        let q = scanned(own);
        assert(c =~= before + child);
        assert(d =~= e + q);
        assert(q[0] == own);
        assert forall|i: int| 0 <= i < c.len() implies #[trigger] link_at(node, c, d, at, i) by {
            if i < before.len() {
                assert(link_at(node, before, e, at, i));
                let j = choose|j: int|
                    -1 <= j < i && before[i].parent_id == Some(
                        #[trigger] node_id((at + 1 + j) as nat),
                    ) && is_child(
                        if j < 0 {
                            node
                        } else {
                            e[j]
                        },
                        e[i],
                    );
                assert(c[i] == before[i] && d[i] == e[i]);
                assert(j >= 0 ==> d[j] == e[j]);
                assert(c[i].parent_id == Some(node_id((at + 1 + j) as nat)));
            } else {
                let x = i - before.len();
                assert(c[i] == child[x] && d[i] == q[x]);
                if x == 0 {
                    assert(node.children@[k] == d[i]);
                    assert(is_child(node, d[i]));
                    assert((at + 1 + -1) as nat == at);
                    assert(c[i].parent_id == Some(node_id((at + 1 + -1) as nat)));
                } else {
                    assert(linked(child, q, start, x));
                    let y = choose|y: int|
                        0 <= y < x && child[x].parent_id == Some(
                            #[trigger] node_id((start + y) as nat),
                        ) && is_child(q[y], q[x]);
                    let j = before.len() + y;
                    assert(d[j] == q[y]);
                    assert((at + 1 + j) as nat == (start + y) as nat);
                    assert(c[i].parent_id == Some(node_id((at + 1 + j) as nat)));
                }
            }
        }
    }
}

/// The scanned node that a node of a snapshot stands for was found in the one
/// that its parent stands for.
pub proof fn parents_tell_of_where_it_was_found(trees: Seq<ScanNode>, n: nat, i: int, j: int)
    requires
        n <= trees.len(),
        0 <= i < nodes_of(trees, n).len(),
        0 <= j < nodes_of(trees, n).len(),
        nodes_of(trees, n)[i].parent_id == Some(node_id(j as nat)),
    ensures
        scanned_trees(trees, n).len() == nodes_of(trees, n).len(),
        is_child(scanned_trees(trees, n)[j], scanned_trees(trees, n)[i]),
    decreases n,
{
    lemma_tells_trees(trees, n);
    if n > 0 {
        let m = (n - 1) as nat;
        let tree = trees[n - 1];
        let before = nodes_of(trees, m);
        let at = before.len();
        lemma_tells_trees(trees, m);
        lemma_linked(tree, root_id(m), None, tree.path@, true, at);
        let part = listing(tree, root_id(m), None, tree.path@, true, at);
        lemma_listing(tree, root_id(m), None, tree.path@, true, at);
        let p = scanned(tree);
        if i < before.len() {
            assert(nodes_of(trees, n)[i] == before[i]);
            nodes_are_numbered_and_parents_come_first(trees, m, i);
            let k = choose|k: nat|
                0 <= k < i && before[i].parent_id == Some(#[trigger] node_id(k));
            lemma_ids_are_injective(k, j as nat);
            parents_tell_of_where_it_was_found(trees, m, i, j);
        } else {
            let x = i - before.len();
            assert(nodes_of(trees, n)[i] == part[x]);
            assert(x > 0);
            assert(linked(part, p, at, x));
            let y = choose|y: int|
                0 <= y < x && part[x].parent_id == Some(#[trigger] node_id((at + y) as nat))
                    && is_child(p[y], p[x]);
            lemma_ids_are_injective((at + y) as nat, j as nat);
            assert(scanned_trees(trees, n)[j] == p[y]);
            assert(scanned_trees(trees, n)[i] == p[x]);
        }
    }
}

/// Whether the scanned node at a place is one of the first `n` children, the
/// largest first.
spec fn is_direct(node: ScanNode, n: nat, d: Seq<ScanNode>, i: int) -> bool {
    exists|a: int| 0 <= a < n && d[i] == node.children@[#[trigger] order(node.children@)[a]]
}

proof fn lemma_not_the_parent(
    own: ScanNode,
    root: Seq<char>,
    root_path: Seq<u8>,
    at: nat,
    start: nat,
    x: int,
)
    requires
        at < start,
        0 < x < listing(own, root, Some(node_id(at)), root_path, false, start).len(),
    ensures
        ({
            let n = listing(own, root, Some(node_id(at)), root_path, false, start)[x];
            exists|k: nat| start <= k && n.parent_id == Some(#[trigger] node_id(k))
        }),
        forall|k: nat|
            k < start ==> listing(own, root, Some(node_id(at)), root_path, false, start)[x].parent_id
                != Some(#[trigger] node_id(k)),
{
    let child = listing(own, root, Some(node_id(at)), root_path, false, start);
    lemma_listing(own, root, Some(node_id(at)), root_path, false, start);
    assert(parent_among(child[x], start, (start + x) as nat));
    let y = choose|y: nat|
        start <= y < (start + x) as nat && child[x].parent_id == Some(#[trigger] node_id(y));
    assert forall|k: nat| k < start implies child[x].parent_id != Some(#[trigger] node_id(k)) by {
        lemma_ids_are_injective(y, k);
    }
}

proof fn lemma_direct(
    node: ScanNode,
    n: nat,
    root: Seq<char>,
    root_path: Seq<u8>,
    at: nat,
)
    ensures
        ({
            let c = children_listing(node, n, root, root_path, at);
            let d = scanned_below(node, n);
            forall|i: int|
                0 <= i < c.len() && (#[trigger] c[i]).parent_id == Some(node_id(at)) ==> is_direct(
                    node,
                    n,
                    d,
                    i,
                )
        }),
    decreases n,
{
    if n > 0 && n <= node.children@.len() {
        let m = (n - 1) as nat;
        lemma_direct(node, m, root, root_path, at);
        lemma_order_is_order(node.children@);
        lemma_tells_below(node, m, root, root_path, at);
        let k = order(node.children@)[n - 1];
        assert(0 <= k < node.children@.len());
        let own = node.children@[k];
        let before = children_listing(node, m, root, root_path, at);
        let start = at + 1 + before.len();
        let child = listing(own, root, Some(node_id(at)), root_path, false, start);
        let c = children_listing(node, n, root, root_path, at);
        let d = scanned_below(node, n);
        let e = scanned_below(node, m);
        lemma_tells(own, root, Some(node_id(at)), root_path, false, start);
        assert(c =~= before + child);
        assert(d =~= e + scanned(own));
        assert forall|i: int|
            0 <= i < c.len() && (#[trigger] c[i]).parent_id == Some(node_id(at)) implies is_direct(
            node,
            n,
            d,
            i,
        ) by {
            if i < before.len() {
                assert(c[i] == before[i]);
                assert(is_direct(node, m, e, i));
                let a = choose|a: int|
                    0 <= a < m && e[i] == node.children@[#[trigger] order(node.children@)[a]];
                assert(d[i] == node.children@[order(node.children@)[a]]);
            } else {
                let x = i - before.len();
                assert(c[i] == child[x]);
                if x > 0 {
                    lemma_not_the_parent(own, root, root_path, at, start, x);
                } else {
                    assert(d[i] == own);
                    assert(d[i] == node.children@[order(node.children@)[n - 1]]);
                }
            }
        }
    }
}

/// Whether of two nodes with one parent the later does not rank first.
spec fn siblings_ranked(c: Seq<NodeView>, d: Seq<ScanNode>) -> bool {
    forall|i: int, j: int|
        0 <= i < j < c.len() && (#[trigger] c[i]).parent_id is Some && c[i].parent_id == (
        #[trigger] c[j]).parent_id ==> d[i].size >= d[j].size && (d[i].size == d[j].size
            ==> !text_before(d[j].name@, d[i].name@))
}

proof fn lemma_siblings(
    node: ScanNode,
    root: Seq<char>,
    parent: Option<Seq<char>>,
    root_path: Seq<u8>,
    is_root: bool,
    at: nat,
)
    requires
        parent is None || exists|k: nat| k < at && parent == Some(#[trigger] node_id(k)),
    ensures
        siblings_ranked(
            listing(node, root, parent, root_path, is_root, at),
            scanned(node),
        ),
    decreases node, node.children@.len() + 1,
{
    let n = node.children@.len();
    lemma_siblings_below(node, n, root, root_path, at);
    lemma_listing(node, root, parent, root_path, is_root, at);
    lemma_tells(node, root, parent, root_path, is_root, at);
    lemma_tells_below(node, n, root, root_path, at);
    let l = listing(node, root, parent, root_path, is_root, at);
    let p = scanned(node);
    let c = children_listing(node, n, root, root_path, at);
    let d = scanned_below(node, n);
    assert forall|i: int, j: int|
        0 <= i < j < l.len() && (#[trigger] l[i]).parent_id is Some && l[i].parent_id == (
        #[trigger] l[j]).parent_id implies p[i].size >= p[j].size && (p[i].size == p[j].size
        ==> !text_before(p[j].name@, p[i].name@)) by {
        assert(l[j] == c[j - 1] && p[j] == d[j - 1]);
        if i == 0 {
            let k = choose|k: nat| k < at && parent == Some(#[trigger] node_id(k));
            assert(parent_among(l[j], at, (at + j) as nat));
            let y = choose|y: nat|
                at <= y < (at + j) as nat && l[j].parent_id == Some(#[trigger] node_id(y));
            lemma_ids_are_injective(k, y);
        } else {
            assert(l[i] == c[i - 1] && p[i] == d[i - 1]);
        }
    }
}

proof fn lemma_siblings_below(
    node: ScanNode,
    n: nat,
    root: Seq<char>,
    root_path: Seq<u8>,
    at: nat,
)
    ensures
        siblings_ranked(children_listing(node, n, root, root_path, at), scanned_below(node, n)),
    decreases node, n,
{
    if n > 0 && n <= node.children@.len() {
        let m = (n - 1) as nat;
        lemma_siblings_below(node, m, root, root_path, at);
        lemma_order_is_order(node.children@);
        lemma_tells_below(node, m, root, root_path, at);
        let o = order(node.children@);
        let k = o[n - 1];
        assert(0 <= k < node.children@.len());
        let own = node.children@[k];
        let before = children_listing(node, m, root, root_path, at);
        let start = at + 1 + before.len();
        let child = listing(own, root, Some(node_id(at)), root_path, false, start);
        let c = children_listing(node, n, root, root_path, at);
        let d = scanned_below(node, n);
        let e = scanned_below(node, m);
        let q = scanned(own);
        lemma_tells(own, root, Some(node_id(at)), root_path, false, start);
        lemma_siblings(own, root, Some(node_id(at)), root_path, false, start);
        lemma_children_listing(node, m, root, root_path, at);
        lemma_direct(node, m, root, root_path, at);
        assert(c =~= before + child);
        assert(d =~= e + q);
        assert forall|i: int, j: int|
            0 <= i < j < c.len() && (#[trigger] c[i]).parent_id is Some && c[i].parent_id == (
            #[trigger] c[j]).parent_id implies d[i].size >= d[j].size && (d[i].size == d[j].size
            ==> !text_before(d[j].name@, d[i].name@)) by {
            if j < before.len() {
                assert(c[i] == before[i] && c[j] == before[j]);
                assert(d[i] == e[i] && d[j] == e[j]);
            } else {
                let y = j - before.len();
                assert(c[j] == child[y] && d[j] == q[y]);
                if i >= before.len() {
                    assert(c[i] == child[i - before.len()] && d[i] == q[i - before.len()]);
                } else {
                    assert(c[i] == before[i] && d[i] == e[i]);
                    assert(parent_among(before[i], at, (at + 1 + i) as nat));
                    let z = choose|z: nat|
                        at <= z < (at + 1 + i) as nat && before[i].parent_id == Some(
                            #[trigger] node_id(z),
                        );
                    if y > 0 {
                        lemma_not_the_parent(own, root, root_path, at, start, y);
                        assert(child[y].parent_id != Some(node_id(z)));
                    } else {
                        assert(d[j] == own);
                        assert(is_direct(node, m, e, i));
                        let a = choose|a: int|
                            0 <= a < m && e[i] == node.children@[#[trigger] o[a]];
                        children_are_listed_largest_first(node, a, n - 1);
                    }
                }
            }
        }
    }
}

/// Of two nodes of a snapshot with one parent, the one listed first stands for
/// the larger, and of two of one size for the one whose name comes first.
pub proof fn siblings_come_largest_first(trees: Seq<ScanNode>, n: nat, i: int, j: int)
    requires
        n <= trees.len(),
        0 <= i < j < nodes_of(trees, n).len(),
        nodes_of(trees, n)[i].parent_id is Some,
        nodes_of(trees, n)[i].parent_id == nodes_of(trees, n)[j].parent_id,
    ensures
        scanned_trees(trees, n).len() == nodes_of(trees, n).len(),
        ({
            let a = scanned_trees(trees, n)[i];
            let b = scanned_trees(trees, n)[j];
            a.size >= b.size && (a.size == b.size ==> !text_before(b.name@, a.name@))
        }),
    decreases n,
{
    lemma_tells_trees(trees, n);
    if n > 0 {
        let m = (n - 1) as nat;
        let tree = trees[n - 1];
        let before = nodes_of(trees, m);
        let at = before.len();
        lemma_tells_trees(trees, m);
        lemma_siblings(tree, root_id(m), None, tree.path@, true, at);
        lemma_tells(tree, root_id(m), None, tree.path@, true, at);
        let part = listing(tree, root_id(m), None, tree.path@, true, at);
        lemma_listing(tree, root_id(m), None, tree.path@, true, at);
        let all = nodes_of(trees, n);
        if j < at {
            assert(all[i] == before[i] && all[j] == before[j]);
            siblings_come_largest_first(trees, m, i, j);
        } else {
            let y = j - at;
            assert(all[j] == part[y]);
            if i < at {
                assert(all[i] == before[i]);
                nodes_are_numbered_and_parents_come_first(trees, m, i);
                let z = choose|z: nat|
                    0 <= z < i && before[i].parent_id == Some(#[trigger] node_id(z));
                assert(y > 0);
                assert(parent_among(part[y], at, (at + y) as nat));
                let w = choose|w: nat|
                    at <= w < (at + y) as nat && part[y].parent_id == Some(#[trigger] node_id(w));
                lemma_ids_are_injective(z, w);
            } else {
                assert(all[i] == part[i - at]);
            }
        }
    }
}

/// The sum of a measure over the root nodes of a list.
pub open spec fn root_sum(
    nodes: Seq<NodeView>,
    measure: spec_fn(NodeView) -> Option<DecimalBytes>,
) -> nat
    decreases nodes.len(),
{
    if nodes.len() == 0 {
        0
    } else {
        let n = nodes.last();
        root_sum(nodes.drop_last(), measure) + if n.kind is Root {
            match measure(n) {
                Some(bytes) => bytes.0 as nat,
                None => 0,
            }
        } else {
            0
        }
    }
}

proof fn lemma_root_sum_add(
    a: Seq<NodeView>,
    b: Seq<NodeView>,
    measure: spec_fn(NodeView) -> Option<DecimalBytes>,
)
    ensures
        root_sum(a + b, measure) == root_sum(a, measure) + root_sum(b, measure),
    decreases b.len(),
{
    if b.len() == 0 {
        assert(a + b =~= a);
    } else {
        assert((a + b).drop_last() =~= a + b.drop_last());
        lemma_root_sum_add(a, b.drop_last(), measure);
    }
}

proof fn lemma_root_sum_of_a_tree(
    l: Seq<NodeView>,
    measure: spec_fn(NodeView) -> Option<DecimalBytes>,
    size: u64,
)
    requires
        l.len() > 0,
        l[0].kind is Root,
        measure(l[0]) == Some(DecimalBytes(size)),
        forall|i: int| 0 < i < l.len() ==> !((#[trigger] l[i]).kind is Root),
    ensures
        root_sum(l, measure) == size,
    decreases l.len(),
{
    let front = l.drop_last();
    if l.len() == 1 {
        assert(root_sum(front, measure) == 0);
    } else {
        assert(!(l[l.len() - 1].kind is Root));
        lemma_root_sum_of_a_tree(front, measure, size);
    }
}

proof fn lemma_root_sum(
    trees: Seq<ScanNode>,
    n: nat,
    measure: spec_fn(NodeView) -> Option<DecimalBytes>,
)
    requires
        n <= trees.len(),
        forall|v: NodeView, s: ScanNode| #[trigger]
            tells_of(v, s) ==> measure(v) == Some(DecimalBytes(s.size)),
    ensures
        root_sum(nodes_of(trees, n), measure) == total_size(trees.take(n as int)),
    decreases n,
{
    if n == 0 {
        assert(trees.take(0) =~= Seq::empty());
    } else {
        let m = (n - 1) as nat;
        let tree = trees[n - 1];
        let before = nodes_of(trees, m);
        let at = before.len();
        lemma_root_sum(trees, m, measure);
        lemma_listing(tree, root_id(m), None, tree.path@, true, at);
        lemma_tells(tree, root_id(m), None, tree.path@, true, at);
        let part = listing(tree, root_id(m), None, tree.path@, true, at);
        assert(tells_of(part[0], scanned(tree)[0]));
        lemma_root_sum_of_a_tree(part, measure, tree.size);
        lemma_root_sum_add(before, part, measure);
        assert(trees.take(n as int).drop_last() =~= trees.take(m as int));
    }
}

/// The summary of a snapshot counts its nodes, and each of its totals is the sum
/// of that measure over the root nodes.
pub proof fn the_summary_adds_up(trees: Seq<ScanNode>, version: Seq<char>)
    requires
        total_size(trees) <= u64::MAX,
    ensures
        ({
            let e = envelope_of(trees, version);
            let logical = root_sum(e.nodes, |n: NodeView| n.logical_bytes);
            let allocated = root_sum(e.nodes, |n: NodeView| n.allocated_bytes);
            let unique = root_sum(e.nodes, |n: NodeView| n.unique_allocated_bytes);
            &&& logical <= u64::MAX && allocated <= u64::MAX && unique <= u64::MAX
            &&& e.summary.logical_bytes == Some(DecimalBytes(logical as u64))
            &&& e.summary.allocated_bytes == Some(DecimalBytes(allocated as u64))
            &&& e.summary.unique_allocated_bytes == Some(DecimalBytes(unique as u64))
            &&& e.summary.node_count == e.nodes.len() as u64
        }),
{
    lemma_root_sum(trees, trees.len(), |n: NodeView| n.logical_bytes);
    lemma_root_sum(trees, trees.len(), |n: NodeView| n.allocated_bytes);
    lemma_root_sum(trees, trees.len(), |n: NodeView| n.unique_allocated_bytes);
    assert(trees.take(trees.len() as int) =~= trees);
}

/// The sizes of trees add up one by one.
pub proof fn sizes_add_up(trees: Seq<ScanNode>, tree: ScanNode)
    ensures
        total_size(trees.push(tree)) == total_size(trees) + tree.size,
        total_size(Seq::empty()) == 0,
{
    assert(trees.push(tree).drop_last() =~= trees);
}

/// A snapshot of trees is complete and tells all names, has one root for each
/// tree, in their order, numbers its roots and nodes from zero, and says who
/// wrote it and in which format.
pub proof fn a_snapshot_says_what_it_is(trees: Seq<ScanNode>, version: Seq<char>, i: int)
    requires
        0 <= i < trees.len(),
    ensures
        ({
            let e = envelope_of(trees, version);
            &&& e.format == "space-lens.filesystem-snapshot"@
            &&& e.schema_version == "1.0"@
            &&& e.producer_name == "space-lens"@
            &&& e.producer_version == version
            &&& e.scan.id == "phase0-fixture"@
            &&& e.scan.status == SnapshotStatus::Complete
            &&& e.scan.privacy_mode == PrivacyMode::Full
            &&& e.scan.size_policy == SizePolicy::AllocatedPreferred
            &&& e.scan.hardlink_policy == HardlinkPolicy::CountOncePerScan
            &&& e.scan.symlink_policy == SymlinkPolicy::DoNotFollow
            &&& e.scan.started_at is None && e.scan.completed_at is None
            &&& e.errors.len() == 0
            &&& e.roots.len() == trees.len()
            &&& e.roots[i].id == "root-"@ + decimal(i as nat)
            &&& e.roots[i].label == trees[i].name@
            &&& e.roots[i].relative_path == Some("."@)
            &&& forall|k: int|
                0 <= k < e.nodes.len() ==> (#[trigger] e.nodes[k]).id == "node-"@ + decimal(
                    k as nat,
                )
        }),
{
    let e = envelope_of(trees, version);
    assert forall|k: int| 0 <= k < e.nodes.len() implies (#[trigger] e.nodes[k]).id == "node-"@
        + decimal(k as nat) by {
        nodes_are_numbered_and_parents_come_first(trees, trees.len(), k);
    }
}

/// A new snapshot is of nothing: partial, with names redacted, without roots,
/// nodes, errors or totals.
pub proof fn a_new_snapshot_is_of_nothing(version: Seq<char>)
    ensures
        ({
            let e = empty_envelope(version);
            &&& e.format == "space-lens.filesystem-snapshot"@
            &&& e.schema_version == "1.0"@
            &&& e.producer_name == "space-lens"@
            &&& e.producer_version == version
            &&& e.scan.id == "phase0-fixture"@
            &&& e.scan.status == SnapshotStatus::Partial
            &&& e.scan.privacy_mode == PrivacyMode::NamesRedacted
            &&& e.roots.len() == 0 && e.nodes.len() == 0 && e.errors.len() == 0
            &&& e.summary.node_count == 0
            &&& e.summary.logical_bytes is None
            &&& e.summary.allocated_bytes is None
            &&& e.summary.unique_allocated_bytes is None
        }),
{
}

/// The relative path of a node is the text of what leads to it from its root: it
/// has the components of the node's path that come after those of the root. That
/// of the root itself is a dot, and what does not lie below the root has none.
pub proof fn relative_paths_lead_from_the_root(path: Seq<u8>, root: Seq<u8>)
    requires
        components(root).len() > 0,
    ensures
        !is_within(path, root) ==> relative_text(path, root) is None,
        components(path) == components(root) ==> relative_text(path, root) == Some("."@),
        is_within(path, root) && components(path) != components(root) ==> exists|rest: Seq<u8>|
            #[trigger] lossy_utf8(rest) == relative_text(path, root)->0 && components(rest)
                == components(path).skip(components(root).len() as int) && rest.len() > 0,
        is_within(path, root) ==> relative_text(path, root) is Some,
{
    let c = components(path);
    let d = components(root);
    let n = d.len() as int;
    if is_within(path, root) {
        assert(c.subrange(0, n) == d);
        what_is_left_has_the_other_components(path, n);
        let rest = tail_after(path, n);
        if c.len() == d.len() {
            assert(c =~= d);
        } else {
            assert(components(rest).len() > 0);
            if rest.len() == 0 {
                assert(components(rest) =~= Seq::empty());
            }
            assert(lossy_utf8(rest) == relative_text(path, root)->0);
        }
    }
    if c == d {
        assert(c.subrange(0, n) =~= d);
        assert(spans(path).len() == n);
    }
}

/// The relative path of a node of a snapshot leads from the root of its tree.
pub proof fn nodes_are_reached_from_their_root(trees: Seq<ScanNode>, n: nat, i: int) -> (q: nat)
    requires
        n <= trees.len(),
        0 <= i < nodes_of(trees, n).len(),
    ensures
        q < n,
        scanned_trees(trees, n).len() == nodes_of(trees, n).len(),
        nodes_of(trees, n)[i].root_id == roots_of(trees, trees.len())[q as int].id,
        nodes_of(trees, n)[i].relative_path == relative_text(
            scanned_trees(trees, n)[i].path@,
            trees[q as int].path@,
        ),
    decreases n,
{
    lemma_tells_trees(trees, n);
    let m = (n - 1) as nat;
    let tree = trees[n - 1];
    let before = nodes_of(trees, m);
    let at = before.len();
    lemma_tells_trees(trees, m);
    lemma_tells(tree, root_id(m), None, tree.path@, true, at);
    lemma_listing(tree, root_id(m), None, tree.path@, true, at);
    let part = listing(tree, root_id(m), None, tree.path@, true, at);
    if i < at {
        assert(nodes_of(trees, n)[i] == before[i]);
        nodes_are_reached_from_their_root(trees, m, i)
    } else {
        assert(nodes_of(trees, n)[i] == part[i - at]);
        m
    }
}

proof fn lemma_scanned_children(node: ScanNode, n: nat, a: int, s: ScanNode)
    requires
        0 <= a < n <= node.children@.len(),
        scanned(node.children@[order(node.children@)[a]]).contains(s),
    ensures
        scanned_below(node, n).contains(s),
    decreases n,
{
    lemma_order_is_order(node.children@);
    let m = (n - 1) as nat;
    let before = scanned_below(node, m);
    let last = scanned(node.children@[order(node.children@)[n - 1]]);
    let all = scanned_below(node, n);
    assert(all =~= before + last);
    if a < m {
        lemma_scanned_children(node, m, a, s);
        let i = choose|i: int| 0 <= i < before.len() && before[i] == s;
        assert(all[i] == s);
    } else {
        let i = choose|i: int| 0 <= i < last.len() && last[i] == s;
        assert(all[before.len() + i] == s);
    }
}

proof fn lemma_scanned_child(node: ScanNode, child: ScanNode)
    requires
        is_child(node, child),
    ensures
        scanned_below(node, node.children@.len()).contains(child),
{
    let children = node.children@;
    lemma_order_is_order(children);
    ranking_is_permutation(children);
    let k = choose|k: int| 0 <= k < children.len() && #[trigger] children[k] == child;
    to_multiset_contains(children, child);
    to_multiset_contains(ranked(children), child);
    assert(children.contains(child));
    let a = choose|a: int| 0 <= a < ranked(children).len() && ranked(children)[a] == child;
    let own = scanned(children[order(children)[a]]);
    assert(own[0] == child);
    assert(own.contains(child));
    lemma_scanned_children(node, children.len(), a, child);
}

proof fn lemma_scanned_is_closed(node: ScanNode, s: ScanNode, child: ScanNode)
    requires
        scanned(node).contains(s),
        is_child(s, child),
    ensures
        scanned(node).contains(child),
    decreases node, node.children@.len() + 1,
{
    let all = scanned(node);
    let below = scanned_below(node, node.children@.len());
    let i = choose|i: int| 0 <= i < all.len() && all[i] == s;
    if i == 0 {
        lemma_scanned_child(node, child);
    } else {
        assert(below[i - 1] == s);
        lemma_scanned_below_is_closed(node, node.children@.len(), s, child);
    }
    let j = choose|j: int| 0 <= j < below.len() && below[j] == child;
    assert(all[j + 1] == child);
}

proof fn lemma_scanned_below_is_closed(node: ScanNode, n: nat, s: ScanNode, child: ScanNode)
    requires
        n <= node.children@.len(),
        scanned_below(node, n).contains(s),
        is_child(s, child),
    ensures
        scanned_below(node, n).contains(child),
    decreases node, n,
{
    if n > 0 {
        lemma_order_is_order(node.children@);
        let m = (n - 1) as nat;
        let before = scanned_below(node, m);
        let k = order(node.children@)[n - 1];
        assert(0 <= k < node.children@.len());
        let last = scanned(node.children@[k]);
        let all = scanned_below(node, n);
        assert(all =~= before + last);
        let i = choose|i: int| 0 <= i < all.len() && all[i] == s;
        if i < before.len() {
            assert(before[i] == s);
            lemma_scanned_below_is_closed(node, m, s, child);
            let j = choose|j: int| 0 <= j < before.len() && before[j] == child;
            assert(all[j] == child);
        } else {
            assert(last[i - before.len()] == s);
            lemma_scanned_is_closed(node.children@[k], s, child);
            let j = choose|j: int| 0 <= j < last.len() && last[j] == child;
            assert(all[before.len() + j] == child);
        }
    }
}

/// Every tree that was scanned is among the nodes that a snapshot tells of, and
/// so is every child of one that is: nothing that was scanned is left out.
pub proof fn all_that_was_scanned_is_told(
    trees: Seq<ScanNode>,
    n: nat,
    r: int,
    s: ScanNode,
    child: ScanNode,
)
    requires
        n <= trees.len(),
    ensures
        0 <= r < n ==> scanned_trees(trees, n).contains(trees[r]),
        scanned_trees(trees, n).contains(s) && is_child(s, child) ==> scanned_trees(
            trees,
            n,
        ).contains(child),
    decreases n,
{
    if n > 0 {
        let m = (n - 1) as nat;
        let before = scanned_trees(trees, m);
        let last = scanned(trees[n - 1]);
        let all = scanned_trees(trees, n);
        all_that_was_scanned_is_told(trees, m, r, s, child);
        if 0 <= r < m {
            let i = choose|i: int| 0 <= i < before.len() && before[i] == trees[r];
            assert(all[i] == trees[r]);
        } else if r == m {
            assert(last[0] == trees[r]);
            assert(all[before.len() as int] == trees[r]);
        }
        if all.contains(s) && is_child(s, child) {
            let i = choose|i: int| 0 <= i < all.len() && all[i] == s;
            if i < before.len() {
                assert(before[i] == s);
                let j = choose|j: int| 0 <= j < before.len() && before[j] == child;
                assert(all[j] == child);
            } else {
                assert(last[i - before.len()] == s);
                lemma_scanned_is_closed(trees[n - 1], s, child);
                let j = choose|j: int| 0 <= j < last.len() && last[j] == child;
                assert(all[before.len() + j] == child);
            }
        }
    }
}

} // verus!
