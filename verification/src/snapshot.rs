//! The snapshot of a disk scan: its envelope, its nodes, and how a scanned tree
//! becomes a list of nodes.

use crate::model::texts;
use crate::order::{lemma_order_is_order, lemma_text_before_strict_total, order, order_of_first, rank_order, ranking_is_sorted, slot, text_before, text_comes_before, Comparable, Ranked};
use crate::path::{components, is_within, lossy_utf8, tail_after, text_view, FilePath};
use crate::text::{decimal, decimal_is_injective, decimal_round_trips, decimal_text, parse_decimal, parse_decimal_text};
use vstd::prelude::*;

verus! {

/// The format name of a snapshot.
pub const SNAPSHOT_FORMAT: &'static str = "space-lens.filesystem-snapshot";

/// The schema version of a snapshot.
pub const SNAPSHOT_SCHEMA_VERSION: &'static str = "1.0";

/// A byte count that is written as a decimal string.
#[derive(Clone, Copy, Debug, Eq, PartialEq, Ord, PartialOrd)]
pub struct DecimalBytes(pub u64);

impl DecimalBytes {
    /// The count as a decimal string.
    pub fn encode(&self) -> (r: String)
        ensures
            r@ == decimal(self.0 as nat),
    {
        decimal_text(self.0)
    }

    /// The count that a decimal string stands for, if it stands for one.
    pub fn decode(text: &str) -> (r: Option<DecimalBytes>)
        ensures
            r == match parse_decimal(text@) {
                Some(n) => Some(DecimalBytes(n)),
                None => None,
            },
    {
        match parse_decimal_text(text) {
            Some(n) => Some(DecimalBytes(n)),
            None => None,
        }
    }
}

/// A byte count survives being written and read: also one that no 64-bit
/// floating-point number holds.
pub proof fn decimal_bytes_round_trip(bytes: DecimalBytes)
    ensures
        parse_decimal(decimal(bytes.0 as nat)) == Some(bytes.0),
{
    decimal_round_trips(bytes.0);
}

/// What wrote a snapshot.
#[derive(Clone, Debug, Eq, PartialEq)]
pub struct Producer {
    pub name: String,
    pub version: String,
}

/// How far a scan came.
#[derive(Clone, Copy, Debug, Eq, PartialEq, Structural)]
pub enum SnapshotStatus {
    Complete,
    Partial,
    Cancelled,
}

/// Which size of a file counts.
#[derive(Clone, Copy, Debug, Eq, PartialEq, Structural)]
pub enum SizePolicy {
    AllocatedPreferred,
    LogicalOnly,
}

/// How often a hard-linked file counts.
#[derive(Clone, Copy, Debug, Eq, PartialEq, Structural)]
pub enum HardlinkPolicy {
    CountOncePerScan,
    CountPerPath,
}

/// Whether symbolic links are followed.
#[derive(Clone, Copy, Debug, Eq, PartialEq, Structural)]
pub enum SymlinkPolicy {
    DoNotFollow,
    FollowWithinRoot,
}

/// How much a snapshot tells of names.
#[derive(Clone, Copy, Debug, Eq, PartialEq, Structural)]
pub enum PrivacyMode {
    Full,
    NamesRedacted,
    AggregateOnly,
}

/// The circumstances of a scan.
#[derive(Clone, Debug, Eq, PartialEq)]
pub struct ScanMetadata {
    pub id: String,
    pub started_at: Option<String>,
    pub completed_at: Option<String>,
    pub status: SnapshotStatus,
    pub size_policy: SizePolicy,
    pub hardlink_policy: HardlinkPolicy,
    pub symlink_policy: SymlinkPolicy,
    pub privacy_mode: PrivacyMode,
}

/// What a [`ScanMetadata`] says.
pub struct ScanView {
    pub id: Seq<char>,
    pub started_at: Option<Seq<char>>,
    pub completed_at: Option<Seq<char>>,
    pub status: SnapshotStatus,
    pub size_policy: SizePolicy,
    pub hardlink_policy: HardlinkPolicy,
    pub symlink_policy: SymlinkPolicy,
    pub privacy_mode: PrivacyMode,
}

impl View for ScanMetadata {
    type V = ScanView;

    open spec fn view(&self) -> ScanView {
        ScanView {
            id: self.id@,
            started_at: text_view(self.started_at),
            completed_at: text_view(self.completed_at),
            status: self.status,
            size_policy: self.size_policy,
            hardlink_policy: self.hardlink_policy,
            symlink_policy: self.symlink_policy,
            privacy_mode: self.privacy_mode,
        }
    }
}

/// The circumstances that hold unless a scan says otherwise.
pub open spec fn default_scan() -> ScanView {
    ScanView {
        id: "phase0-fixture"@,
        started_at: None,
        completed_at: None,
        status: SnapshotStatus::Partial,
        size_policy: SizePolicy::AllocatedPreferred,
        hardlink_policy: HardlinkPolicy::CountOncePerScan,
        symlink_policy: SymlinkPolicy::DoNotFollow,
        privacy_mode: PrivacyMode::NamesRedacted,
    }
}

impl Default for ScanMetadata {
    fn default() -> (r: Self)
        ensures
            r@ == default_scan(),
    {
        ScanMetadata {
            id: "phase0-fixture".to_owned(),
            started_at: None,
            completed_at: None,
            status: SnapshotStatus::Partial,
            size_policy: SizePolicy::AllocatedPreferred,
            hardlink_policy: HardlinkPolicy::CountOncePerScan,
            symlink_policy: SymlinkPolicy::DoNotFollow,
            privacy_mode: PrivacyMode::NamesRedacted,
        }
    }
}

/// A scanned directory tree.
#[derive(Clone, Debug, Eq, PartialEq)]
pub struct SnapshotRoot {
    pub id: String,
    pub label: String,
    pub relative_path: Option<String>,
}

/// What a [`SnapshotRoot`] says.
pub struct SnapshotRootView {
    pub id: Seq<char>,
    pub label: Seq<char>,
    pub relative_path: Option<Seq<char>>,
}

impl View for SnapshotRoot {
    type V = SnapshotRootView;

    open spec fn view(&self) -> SnapshotRootView {
        SnapshotRootView {
            id: self.id@,
            label: self.label@,
            relative_path: text_view(self.relative_path),
        }
    }
}

/// What a node is.
#[derive(Clone, Copy, Debug, Eq, PartialEq, Structural)]
pub enum NodeKind {
    Root,
    Directory,
    File,
    Symlink,
    Other,
}

/// What is special about a node.
#[derive(Clone, Copy, Debug, Eq, PartialEq, Structural)]
pub enum NodeFlag {
    Ignored,
    ExcludedByPolicy,
    Collapsed,
    MountBoundary,
    Package,
    CloudOnly,
    HardlinkAlreadyAccounted,
}

/// How far the scan of a node came.
#[derive(Clone, Copy, Debug, Eq, PartialEq, Structural)]
pub enum NodeScanState {
    Complete,
    NotTraversed,
    PermissionDenied,
    Incomplete,
    ChangedDuringScan,
}

/// One file or directory of a snapshot.
#[derive(Clone, Debug, Eq, PartialEq)]
pub struct SnapshotNode {
    pub id: String,
    pub parent_id: Option<String>,
    pub root_id: String,
    pub name: Option<String>,
    pub relative_path: Option<String>,
    pub kind: NodeKind,
    pub logical_bytes: Option<DecimalBytes>,
    pub allocated_bytes: Option<DecimalBytes>,
    pub unique_allocated_bytes: Option<DecimalBytes>,
    pub child_count: u64,
    pub mtime: Option<String>,
    pub file_identity: Option<String>,
    pub hardlink_group: Option<String>,
    pub flags: Vec<NodeFlag>,
    pub scan_state: NodeScanState,
    pub error_refs: Vec<String>,
}

/// What a [`SnapshotNode`] says.
#[verifier::ext_equal]
pub struct NodeView {
    pub id: Seq<char>,
    pub parent_id: Option<Seq<char>>,
    pub root_id: Seq<char>,
    pub name: Option<Seq<char>>,
    pub relative_path: Option<Seq<char>>,
    pub kind: NodeKind,
    pub logical_bytes: Option<DecimalBytes>,
    pub allocated_bytes: Option<DecimalBytes>,
    pub unique_allocated_bytes: Option<DecimalBytes>,
    pub child_count: u64,
    pub mtime: Option<Seq<char>>,
    pub file_identity: Option<Seq<char>>,
    pub hardlink_group: Option<Seq<char>>,
    pub flags: Seq<NodeFlag>,
    pub scan_state: NodeScanState,
    pub error_refs: Seq<Seq<char>>,
}

impl View for SnapshotNode {
    type V = NodeView;

    open spec fn view(&self) -> NodeView {
        NodeView {
            id: self.id@,
            parent_id: text_view(self.parent_id),
            root_id: self.root_id@,
            name: text_view(self.name),
            relative_path: text_view(self.relative_path),
            kind: self.kind,
            logical_bytes: self.logical_bytes,
            allocated_bytes: self.allocated_bytes,
            unique_allocated_bytes: self.unique_allocated_bytes,
            child_count: self.child_count,
            mtime: text_view(self.mtime),
            file_identity: text_view(self.file_identity),
            hardlink_group: text_view(self.hardlink_group),
            flags: self.flags@,
            scan_state: self.scan_state,
            error_refs: texts(self.error_refs@),
        }
    }
}

/// What can be done about an error.
#[derive(Clone, Copy, Debug, Eq, PartialEq, Structural)]
pub enum ErrorRecoverability {
    Retry,
    UserAction,
    Skip,
    Fatal,
}

/// An error that a scan met.
#[derive(Clone, Debug, Eq, PartialEq)]
pub struct SnapshotError {
    pub id: String,
    pub domain: String,
    pub code: String,
    pub path: Option<String>,
    pub recoverability: ErrorRecoverability,
    pub message: String,
}

/// The totals of a snapshot.
#[derive(Clone, Debug, Eq, PartialEq)]
pub struct SnapshotSummary {
    pub node_count: u64,
    pub logical_bytes: Option<DecimalBytes>,
    pub allocated_bytes: Option<DecimalBytes>,
    pub unique_allocated_bytes: Option<DecimalBytes>,
}

/// The totals of nothing.
pub open spec fn empty_summary() -> SnapshotSummary {
    SnapshotSummary {
        node_count: 0,
        logical_bytes: None,
        allocated_bytes: None,
        unique_allocated_bytes: None,
    }
}

impl Default for SnapshotSummary {
    fn default() -> (r: Self)
        ensures
            r == empty_summary(),
    {
        SnapshotSummary {
            node_count: 0,
            logical_bytes: None,
            allocated_bytes: None,
            unique_allocated_bytes: None,
        }
    }
}

/// A whole snapshot.
#[derive(Clone, Debug, Eq, PartialEq)]
pub struct SnapshotEnvelope {
    pub format: String,
    pub schema_version: String,
    pub producer: Producer,
    pub scan: ScanMetadata,
    pub roots: Vec<SnapshotRoot>,
    pub nodes: Vec<SnapshotNode>,
    pub errors: Vec<SnapshotError>,
    pub summary: SnapshotSummary,
}

/// What the nodes of a snapshot say.
pub open spec fn node_views(nodes: Seq<SnapshotNode>) -> Seq<NodeView> {
    nodes.map_values(|n: SnapshotNode| n@)
}

/// What the roots of a snapshot say.
pub open spec fn snapshot_root_views(roots: Seq<SnapshotRoot>) -> Seq<SnapshotRootView> {
    roots.map_values(|r: SnapshotRoot| r@)
}

/// What a [`SnapshotEnvelope`] says.
#[verifier::ext_equal]
pub struct EnvelopeView {
    pub format: Seq<char>,
    pub schema_version: Seq<char>,
    pub producer_name: Seq<char>,
    pub producer_version: Seq<char>,
    pub scan: ScanView,
    pub roots: Seq<SnapshotRootView>,
    pub nodes: Seq<NodeView>,
    pub errors: Seq<SnapshotError>,
    pub summary: SnapshotSummary,
}

impl View for SnapshotEnvelope {
    type V = EnvelopeView;

    open spec fn view(&self) -> EnvelopeView {
        EnvelopeView {
            format: self.format@,
            schema_version: self.schema_version@,
            producer_name: self.producer.name@,
            producer_version: self.producer.version@,
            scan: self.scan@,
            roots: snapshot_root_views(self.roots@),
            nodes: node_views(self.nodes@),
            errors: self.errors@,
            summary: self.summary,
        }
    }
}

/// A snapshot of nothing, by this version of the producer.
pub open spec fn empty_envelope(version: Seq<char>) -> EnvelopeView {
    EnvelopeView {
        format: SNAPSHOT_FORMAT@,
        schema_version: SNAPSHOT_SCHEMA_VERSION@,
        producer_name: "space-lens"@,
        producer_version: version,
        scan: default_scan(),
        roots: Seq::empty(),
        nodes: Seq::empty(),
        errors: Seq::empty(),
        summary: empty_summary(),
    }
}

impl SnapshotEnvelope {
    /// A snapshot of nothing.
    pub fn new(producer_version: &str) -> (r: Self)
        ensures
            r@ == empty_envelope(producer_version@),
    {
        let r = SnapshotEnvelope {
            format: SNAPSHOT_FORMAT.to_owned(),
            schema_version: SNAPSHOT_SCHEMA_VERSION.to_owned(),
            producer: Producer { name: "space-lens".to_owned(), version: producer_version.to_owned() },
            scan: ScanMetadata::default(),
            roots: Vec::new(),
            nodes: Vec::new(),
            errors: Vec::new(),
            summary: SnapshotSummary::default(),
        };
        assert(r@ =~= empty_envelope(producer_version@));
        r
    }
}

/// A scanned file or directory with what was found in it. `directory` is what
/// the file system said of the entry itself, if it could be asked.
#[derive(Debug, Eq, PartialEq)]
pub struct ScanNode {
    pub path: FilePath,
    pub name: String,
    pub size: u64,
    pub children: Vec<ScanNode>,
    pub ignored: bool,
    pub collapsed: bool,
    pub directory: Option<bool>,
}

/// Larger nodes come first; of two nodes of one size, the one whose name comes
/// first.
impl Ranked for ScanNode {
    open spec fn before(self, other: Self) -> bool {
        self.size > other.size || (self.size == other.size && text_before(self.name@, other.name@))
    }

    proof fn before_irreflexive(a: Self) {
        lemma_text_before_strict_total();
        let lt = |x: Seq<char>, y: Seq<char>| text_before(x, y);
        assert(!lt(a.name@, a.name@));
    }

    proof fn before_transitive(a: Self, b: Self, c: Self) {
        lemma_text_before_strict_total();
        let lt = |x: Seq<char>, y: Seq<char>| text_before(x, y);
        if a.size == b.size && b.size == c.size {
            assert(lt(a.name@, b.name@) && lt(b.name@, c.name@));
        }
    }

    proof fn not_before_transitive(a: Self, b: Self, c: Self) {
        lemma_text_before_strict_total();
        let lt = |x: Seq<char>, y: Seq<char>| text_before(x, y);
        if a.size == b.size && b.size == c.size {
            assert(!lt(a.name@, b.name@) && !lt(b.name@, c.name@));
            if lt(a.name@, c.name@) {
                if a.name@ != b.name@ {
                    assert(lt(a.name@, b.name@) || lt(b.name@, a.name@));
                    assert(lt(b.name@, a.name@) && lt(a.name@, c.name@));
                    assert(lt(b.name@, c.name@));
                }
            }
        }
    }

}

impl Comparable for ScanNode {
    fn comes_before(&self, other: &Self) -> (r: bool) {
        self.size > other.size || (self.size == other.size && text_comes_before(
            self.name.as_str(),
            other.name.as_str(),
        ))
    }
}

/// The id of the node at a place in the list.
pub open spec fn node_id(at: nat) -> Seq<char> {
    "node-"@ + decimal(at)
}

/// The id of the root at a place in the list.
pub open spec fn root_id(at: nat) -> Seq<char> {
    "root-"@ + decimal(at)
}

/// The path of a node as seen from the root it was found under: `.` for the
/// root itself, and none where it does not lie below it.
pub open spec fn relative_text(path: Seq<u8>, root: Seq<u8>) -> Option<Seq<char>> {
    if is_within(path, root) {
        let rest = tail_after(path, components(root).len() as int);
        if rest.len() == 0 {
            Some("."@)
        } else {
            Some(lossy_utf8(rest))
        }
    } else {
        None
    }
}

/// What a scanned node is: what the file system said, and where it could not
/// say, a directory if it has children.
pub open spec fn kind_of(node: ScanNode, is_root: bool) -> NodeKind {
    let directory = match node.directory {
        Some(known) => known,
        None => node.children@.len() > 0,
    };
    if is_root {
        NodeKind::Root
    } else if directory {
        NodeKind::Directory
    } else {
        NodeKind::File
    }
}

/// The flags of a scanned node.
pub open spec fn flags_of(node: ScanNode) -> Seq<NodeFlag> {
    let f0 = Seq::<NodeFlag>::empty();
    let f1 = if node.ignored {
        f0.push(NodeFlag::Ignored)
    } else {
        f0
    };
    if node.collapsed {
        f1.push(NodeFlag::Collapsed)
    } else {
        f1
    }
}

/// The snapshot node of a scanned node, at a place in the list.
pub open spec fn entry_of(
    node: ScanNode,
    root: Seq<char>,
    parent: Option<Seq<char>>,
    root_path: Seq<u8>,
    is_root: bool,
    at: nat,
) -> NodeView {
    NodeView {
        id: node_id(at),
        parent_id: parent,
        root_id: root,
        name: Some(node.name@),
        relative_path: relative_text(node.path@, root_path),
        kind: kind_of(node, is_root),
        logical_bytes: Some(DecimalBytes(node.size)),
        allocated_bytes: Some(DecimalBytes(node.size)),
        unique_allocated_bytes: Some(DecimalBytes(node.size)),
        child_count: node.children@.len() as u64,
        mtime: None,
        file_identity: None,
        hardlink_group: None,
        flags: flags_of(node),
        scan_state: if node.collapsed {
            NodeScanState::NotTraversed
        } else {
            NodeScanState::Complete
        },
        error_refs: Seq::empty(),
    }
}

/// The snapshot nodes of a scanned tree whose first node gets the place `at`:
/// each node, and then its children, ranked, each with all that is below it.
pub open spec fn listing(
    node: ScanNode,
    root: Seq<char>,
    parent: Option<Seq<char>>,
    root_path: Seq<u8>,
    is_root: bool,
    at: nat,
) -> Seq<NodeView>
    decreases node, node.children@.len() + 1,
{
    seq![entry_of(node, root, parent, root_path, is_root, at)] + children_listing(
        node,
        node.children@.len(),
        root,
        root_path,
        at,
    )
}

/// The snapshot nodes of the first `n` children of a scanned node at the place
/// `at`, in rank order.
pub open spec fn children_listing(
    node: ScanNode,
    n: nat,
    root: Seq<char>,
    root_path: Seq<u8>,
    at: nat,
) -> Seq<NodeView>
    decreases node, n,
{
    if n == 0 || n > node.children@.len() {
        Seq::empty()
    } else {
        let before = children_listing(node, (n - 1) as nat, root, root_path, at);
        let k = order(node.children@)[n - 1];
        proof {
            lemma_order_is_order(node.children@);
            assert(0 <= k < node.children@.len());
        }
        before + listing(
            node.children@[k],
            root,
            Some(node_id(at)),
            root_path,
            false,
            at + 1 + before.len(),
        )
    }
}

fn numbered(prefix: &str, n: usize) -> (r: String)
    ensures
        r@ == prefix@ + decimal(n as nat),
{
    let mut out = prefix.to_owned();
    let digits = decimal_text(n as u64);
    out.append(digits.as_str());
    out
}

fn relative_path_of(path: &FilePath, root_path: &FilePath) -> (r: Option<String>)
    ensures
        text_view(r) == relative_text(path@, root_path@),
{
    match path.strip_prefix(root_path) {
        Some(rest) => if rest.is_empty() {
            Some(".".to_owned())
        } else {
            Some(rest.to_lossy())
        },
        None => None,
    }
}

fn snapshot_node(
    node: &ScanNode,
    root: &str,
    parent: Option<String>,
    root_path: &FilePath,
    is_root: bool,
    at: usize,
) -> (r: SnapshotNode)
    ensures
        r@ == entry_of(*node, root@, text_view(parent), root_path@, is_root, at as nat),
{
    let directory: bool = match node.directory {
        Some(known) => known,
        None => node.children.len() > 0,
    };
    let kind = if is_root {
        NodeKind::Root
    } else if directory {
        NodeKind::Directory
    } else {
        NodeKind::File
    };
    let mut flags: Vec<NodeFlag> = Vec::new();
    if node.ignored {
        flags.push(NodeFlag::Ignored);
    }
    if node.collapsed {
        flags.push(NodeFlag::Collapsed);
    }
    let error_refs: Vec<String> = Vec::new();
    assert(texts(error_refs@) =~= Seq::empty());
    SnapshotNode {
        id: numbered("node-", at),
        parent_id: parent,
        root_id: root.to_owned(),
        name: Some(node.name.clone()),
        relative_path: relative_path_of(&node.path, root_path),
        kind,
        logical_bytes: Some(DecimalBytes(node.size)),
        allocated_bytes: Some(DecimalBytes(node.size)),
        unique_allocated_bytes: Some(DecimalBytes(node.size)),
        child_count: node.children.len() as u64,
        mtime: None,
        file_identity: None,
        hardlink_group: None,
        flags,
        scan_state: if node.collapsed {
            NodeScanState::NotTraversed
        } else {
            NodeScanState::Complete
        },
        error_refs,
    }
}

fn append_scan_node(
    nodes: &mut Vec<SnapshotNode>,
    node: &ScanNode,
    root: &str,
    parent: Option<String>,
    root_path: &FilePath,
    is_root: bool,
)
    ensures
        node_views(final(nodes)@) == node_views(old(nodes)@) + listing(
            *node,
            root@,
            text_view(parent),
            root_path@,
            is_root,
            old(nodes)@.len(),
        ),
    decreases node,
{
    let at: usize = nodes.len();
    let ghost start = node_views(nodes@);
    let entry = snapshot_node(node, root, parent, root_path, is_root, at);
    let ghost first = entry@;
    nodes.push(entry);
    assert(node_views(nodes@) =~= start.push(first));
    let children = &node.children;
    let ranking = rank_order(children);
    let ghost o = order(children@);
    proof {
        lemma_order_is_order(children@);
        assert(ranking@.map_values(|i: usize| i as int).len() == ranking@.len());
    }
    let mut n: usize = 0;
    assert(node_views(nodes@) =~= start.push(first) + children_listing(
        *node,
        0,
        root@,
        root_path@,
        at as nat,
    ));
    while n < ranking.len()
        invariant
            n <= ranking.len(),
            ranking@.len() == children@.len(),
            children == node.children,
            o == order(children@),
            ranking@.map_values(|i: usize| i as int) == o,
            o.len() == children@.len(),
            forall|a: int| 0 <= a < o.len() ==> 0 <= #[trigger] o[a] < children@.len(),
            start.len() == at,
            node_views(nodes@) == start.push(first) + children_listing(
                *node,
                n as nat,
                root@,
                root_path@,
                at as nat,
            ),
        decreases ranking.len() - n,
    {
        assert(ranking@.map_values(|i: usize| i as int)[n as int] == ranking@[n as int] as int);
        let k: usize = ranking[n];
        assert(o[n as int] == k);
        let ghost before = children_listing(*node, n as nat, root@, root_path@, at as nat);
        assert(node_views(nodes@).len() == nodes@.len());
        assert(nodes@.len() == at + 1 + before.len());
        let ghost child = listing(
            children@[k as int],
            root@,
            Some(node_id(at as nat)),
            root_path@,
            false,
            nodes@.len(),
        );
        append_scan_node(
            nodes,
            &children[k],
            root,
            Some(numbered("node-", at)),
            root_path,
            false,
        );
        assert(node_views(nodes@) =~= start.push(first) + (before + child));
        assert(before + child == children_listing(
            *node,
            (n + 1) as nat,
            root@,
            root_path@,
            at as nat,
        ));
        n += 1;
    }
    assert(node_views(nodes@) =~= start + listing(
        *node,
        root@,
        text_view(parent),
        root_path@,
        is_root,
        at as nat,
    ));
}

/// The sum of the sizes of scanned trees.
pub open spec fn total_size(nodes: Seq<ScanNode>) -> nat
    decreases nodes.len(),
{
    if nodes.len() == 0 {
        0
    } else {
        total_size(nodes.drop_last()) + nodes.last().size as nat
    }
}

proof fn lemma_total_size_grows(nodes: Seq<ScanNode>, n: int)
    requires
        0 <= n <= nodes.len(),
    ensures
        total_size(nodes.take(n)) <= total_size(nodes),
    decreases nodes.len() - n,
{
    if n == nodes.len() {
        assert(nodes.take(n) =~= nodes);
    } else {
        lemma_total_size_grows(nodes, n + 1);
        assert(nodes.take(n + 1).drop_last() =~= nodes.take(n));
    }
}

/// The roots of a snapshot of the first `n` scanned trees.
pub open spec fn roots_of(trees: Seq<ScanNode>, n: nat) -> Seq<SnapshotRootView> {
    Seq::new(
        n,
        |i: int|
            SnapshotRootView {
                id: root_id(i as nat),
                label: trees[i].name@,
                relative_path: Some("."@),
            },
    )
}

/// The nodes of a snapshot of the first `n` scanned trees.
pub open spec fn nodes_of(trees: Seq<ScanNode>, n: nat) -> Seq<NodeView>
    decreases n,
{
    if n == 0 {
        Seq::empty()
    } else {
        let before = nodes_of(trees, (n - 1) as nat);
        let tree = trees[n - 1];
        before + listing(tree, root_id((n - 1) as nat), None, tree.path@, true, before.len())
    }
}

/// The snapshot of scanned trees.
pub open spec fn envelope_of(trees: Seq<ScanNode>, version: Seq<char>) -> EnvelopeView {
    let nodes = nodes_of(trees, trees.len());
    let total = Some(DecimalBytes(total_size(trees) as u64));
    EnvelopeView {
        scan: ScanView {
            status: SnapshotStatus::Complete,
            privacy_mode: PrivacyMode::Full,
            ..default_scan()
        },
        roots: roots_of(trees, trees.len()),
        nodes,
        summary: SnapshotSummary {
            node_count: nodes.len() as u64,
            logical_bytes: total,
            allocated_bytes: total,
            unique_allocated_bytes: total,
        },
        ..empty_envelope(version)
    }
}

impl SnapshotEnvelope {
    /// The snapshot of scanned trees. Their sizes must not add up to more than
    /// 64 bits hold.
    pub fn from_scan_nodes(nodes: &[ScanNode], producer_version: &str) -> (r: Self)
        requires
            total_size(nodes@) <= u64::MAX,
        ensures
            r@ == envelope_of(nodes@, producer_version@),
    {
        let mut snapshot = SnapshotEnvelope::new(producer_version);
        snapshot.scan.status = SnapshotStatus::Complete;
        snapshot.scan.privacy_mode = PrivacyMode::Full;
        let mut roots: Vec<SnapshotRoot> = Vec::new();
        let mut listed: Vec<SnapshotNode> = Vec::new();
        let mut total: u64 = 0;
        let mut i: usize = 0;
        assert(snapshot_root_views(roots@) =~= roots_of(nodes@, 0));
        assert(node_views(listed@) =~= nodes_of(nodes@, 0));
        assert(nodes@.take(0) =~= Seq::empty());
        while i < nodes.len()
            invariant
                i <= nodes.len(),
                total_size(nodes@) <= u64::MAX,
                snapshot_root_views(roots@) == roots_of(nodes@, i as nat),
                node_views(listed@) == nodes_of(nodes@, i as nat),
                total == total_size(nodes@.take(i as int)),
            decreases nodes.len() - i,
        {
            let node = &nodes[i];
            let id = numbered("root-", i);
            let ghost before = roots@;
            assert(node_views(listed@).len() == listed@.len());
            append_scan_node(&mut listed, node, id.as_str(), None, &node.path, true);
            let root = SnapshotRoot {
                id,
                label: node.name.clone(),
                relative_path: Some(".".to_owned()),
            };
            let ghost pushed = root@;
            roots.push(root);
            assert(snapshot_root_views(roots@) =~= snapshot_root_views(before).push(pushed));
            assert(snapshot_root_views(roots@) =~= roots_of(nodes@, (i + 1) as nat));
            proof {
                assert(nodes@.take(i + 1).drop_last() =~= nodes@.take(i as int));
                lemma_total_size_grows(nodes@, i + 1);
            }
            total += node.size;
            i += 1;
        }
        assert(nodes@.take(i as int) =~= nodes@);
        assert(node_views(listed@).len() == listed@.len());
        snapshot.roots = roots;
        snapshot.summary = SnapshotSummary {
            node_count: listed.len() as u64,
            logical_bytes: Some(DecimalBytes(total)),
            allocated_bytes: Some(DecimalBytes(total)),
            unique_allocated_bytes: Some(DecimalBytes(total)),
        };
        snapshot.nodes = listed;
        assert(snapshot@ =~= envelope_of(nodes@, producer_version@));
        snapshot
    }
}

/// Whether a node's parent is one of the nodes at the places from `lo` up to
/// and without `hi`.
pub open spec fn parent_among(node: NodeView, lo: nat, hi: nat) -> bool {
    exists|j: nat| lo <= j < hi && node.parent_id == Some(#[trigger] node_id(j))
}

/// Whether nodes that start at the place `at` are numbered by their places,
/// belong to the root, and are marked collapsed exactly where the scan did not
/// go into them.
pub open spec fn numbered_from(l: Seq<NodeView>, root: Seq<char>, at: nat) -> bool {
    forall|i: int|
        0 <= i < l.len() ==> {
            let n = #[trigger] l[i];
            &&& n.id == node_id((at + i) as nat)
            &&& n.root_id == root
            &&& n.scan_state is NotTraversed <==> n.flags.contains(NodeFlag::Collapsed)
        }
}

proof fn lemma_flags(node: ScanNode)
    ensures
        flags_of(node).contains(NodeFlag::Collapsed) <==> node.collapsed,
        flags_of(node).contains(NodeFlag::Ignored) <==> node.ignored,
{
    let f = flags_of(node);
    if node.collapsed {
        assert(f[f.len() - 1] == NodeFlag::Collapsed);
    }
    if node.ignored {
        assert(f[0] == NodeFlag::Ignored);
    }
}

/// What holds of the nodes of one tree.
pub proof fn lemma_listing(
    node: ScanNode,
    root: Seq<char>,
    parent: Option<Seq<char>>,
    root_path: Seq<u8>,
    is_root: bool,
    at: nat,
)
    ensures
        ({
            let l = listing(node, root, parent, root_path, is_root, at);
            &&& l.len() > 0
            &&& l[0] == entry_of(node, root, parent, root_path, is_root, at)
            &&& numbered_from(l, root, at)
            &&& forall|i: int|
                0 < i < l.len() ==> parent_among(#[trigger] l[i], at, (at + i) as nat) && !(
                l[i].kind is Root)
        }),
    decreases node, node.children@.len() + 1,
{
    let below = children_listing(node, node.children@.len(), root, root_path, at);
    lemma_children_listing(node, node.children@.len(), root, root_path, at);
    let l = listing(node, root, parent, root_path, is_root, at);
    lemma_flags(node);
    assert forall|i: int| 0 <= i < l.len() implies {
        let n = #[trigger] l[i];
        &&& n.id == node_id((at + i) as nat)
        &&& n.root_id == root
        &&& n.scan_state is NotTraversed <==> n.flags.contains(NodeFlag::Collapsed)
    } by {
        if i > 0 {
            assert(l[i] == below[i - 1]);
        }
    }
    assert forall|i: int| 0 < i < l.len() implies parent_among(
        #[trigger] l[i],
        at,
        (at + i) as nat,
    ) && !(l[i].kind is Root) by {
        assert(l[i] == below[i - 1]);
    }
}

/// What holds of the nodes below one.
pub proof fn lemma_children_listing(
    node: ScanNode,
    n: nat,
    root: Seq<char>,
    root_path: Seq<u8>,
    at: nat,
)
    ensures
        ({
            let l = children_listing(node, n, root, root_path, at);
            &&& numbered_from(l, root, at + 1)
            &&& forall|i: int|
                0 <= i < l.len() ==> parent_among(#[trigger] l[i], at, (at + 1 + i) as nat) && !(
                l[i].kind is Root)
        }),
    decreases node, n,
{
    if n > 0 && n <= node.children@.len() {
        let m = (n - 1) as nat;
        let before = children_listing(node, m, root, root_path, at);
        lemma_children_listing(node, m, root, root_path, at);
        lemma_order_is_order(node.children@);
        let k = order(node.children@)[n - 1];
        assert(0 <= k < node.children@.len());
        let start = at + 1 + before.len();
        let child = listing(
            node.children@[k],
            root,
            Some(node_id(at)),
            root_path,
            false,
            start,
        );
        lemma_listing(node.children@[k], root, Some(node_id(at)), root_path, false, start);
        let l = children_listing(node, n, root, root_path, at);
        assert(l =~= before + child);
        assert forall|i: int| 0 <= i < l.len() implies {
            let n = #[trigger] l[i];
            &&& n.id == node_id((at + 1 + i) as nat)
            &&& n.root_id == root
            &&& n.scan_state is NotTraversed <==> n.flags.contains(NodeFlag::Collapsed)
        } by {
            if i < before.len() {
                assert(l[i] == before[i]);
            } else {
                assert(l[i] == child[i - before.len()]);
            }
        }
        assert forall|i: int| 0 <= i < l.len() implies parent_among(
            #[trigger] l[i],
            at,
            (at + 1 + i) as nat,
        ) && !(l[i].kind is Root) by {
            if i < before.len() {
                assert(l[i] == before[i]);
            } else {
                let c = i - before.len();
                assert(l[i] == child[c]);
                if c == 0 {
                    assert(l[i].parent_id == Some(node_id(at)));
                } else {
                    assert(parent_among(child[c], start, (start + c) as nat));
                    let j = choose|j: nat|
                        start <= j < (start + c) as nat && child[c].parent_id == Some(
                            #[trigger] node_id(j),
                        );
                    assert(at <= j < at + 1 + i && l[i].parent_id == Some(node_id(j)));
                }
            }
        }
    }
}

/// Every node of a snapshot carries its place in the list as its id; a node
/// without a parent is the root node of its tree, and the parent of any other
/// stands before it in the list, so that the list can be read in one pass.
pub proof fn nodes_are_numbered_and_parents_come_first(trees: Seq<ScanNode>, n: nat, i: int)
    requires
        n <= trees.len(),
        0 <= i < nodes_of(trees, n).len(),
    ensures
        nodes_of(trees, n)[i].id == node_id(i as nat),
        nodes_of(trees, n)[i].kind is Root <==> nodes_of(trees, n)[i].parent_id is None,
        nodes_of(trees, n)[i].parent_id is Some ==> parent_among(
            nodes_of(trees, n)[i],
            0,
            i as nat,
        ),
        nodes_of(trees, n)[i].scan_state is NotTraversed <==> nodes_of(trees, n)[i].flags.contains(
            NodeFlag::Collapsed,
        ),
    decreases n,
{
    if n > 0 {
        let m = (n - 1) as nat;
        let before = nodes_of(trees, m);
        let tree = trees[n - 1];
        let part = listing(tree, root_id(m), None, tree.path@, true, before.len());
        lemma_listing(tree, root_id(m), None, tree.path@, true, before.len());
        if i < before.len() {
            nodes_are_numbered_and_parents_come_first(trees, m, i);
        } else {
            let c = i - before.len();
            assert(nodes_of(trees, n)[i] == part[c]);
            if c > 0 {
                assert(parent_among(part[c], before.len(), (before.len() + c) as nat));
                let j = choose|j: nat|
                    before.len() <= j < (before.len() + c) as nat && part[c].parent_id == Some(
                        #[trigger] node_id(j),
                    );
                assert(0 <= j < i && part[c].parent_id == Some(node_id(j)));
            }
        }
    }
}

/// No two nodes of a snapshot have the same id.
pub proof fn node_ids_are_distinct(trees: Seq<ScanNode>, i: int, j: int)
    requires
        0 <= i < nodes_of(trees, trees.len()).len(),
        0 <= j < nodes_of(trees, trees.len()).len(),
        nodes_of(trees, trees.len())[i].id == nodes_of(trees, trees.len())[j].id,
    ensures
        i == j,
{
    nodes_are_numbered_and_parents_come_first(trees, trees.len(), i);
    nodes_are_numbered_and_parents_come_first(trees, trees.len(), j);
    let p = "node-"@;
    let a = decimal(i as nat);
    let b = decimal(j as nat);
    assert((p + a).skip(p.len() as int) =~= a);
    assert((p + b).skip(p.len() as int) =~= b);
    decimal_is_injective(i as nat, j as nat);
}

/// The number of nodes of a scanned tree.
pub open spec fn tree_size(node: ScanNode) -> nat
    decreases node, node.children@.len() + 1,
{
    1 + children_size(node, node.children@.len())
}

/// The number of nodes in the first `n` children of a scanned node.
pub open spec fn children_size(node: ScanNode, n: nat) -> nat
    decreases node, n,
{
    if n == 0 || n > node.children@.len() {
        0
    } else {
        children_size(node, (n - 1) as nat) + tree_size(node.children@[n - 1])
    }
}

/// The sum of `f` over the listed positions.
spec fn sum_over(p: Seq<int>, f: spec_fn(int) -> nat) -> nat
    decreases p.len(),
{
    if p.len() == 0 {
        0
    } else {
        sum_over(p.drop_last(), f) + f(p.last())
    }
}

proof fn lemma_sum_over_insert(p: Seq<int>, s: int, x: int, f: spec_fn(int) -> nat)
    requires
        0 <= s <= p.len(),
    ensures
        sum_over(p.insert(s, x), f) == sum_over(p, f) + f(x),
    decreases p.len(),
{
    let q = p.insert(s, x);
    if s == p.len() {
        assert(q.drop_last() =~= p);
    } else {
        assert(q.drop_last() =~= p.drop_last().insert(s, x));
        lemma_sum_over_insert(p.drop_last(), s, x, f);
    }
}

proof fn lemma_sum_over_order(items: Seq<ScanNode>, n: nat, f: spec_fn(int) -> nat)
    requires
        n <= items.len(),
    ensures
        sum_over(order_of_first(items, n), f) == sum_over(Seq::new(n, |i: int| i), f),
    decreases n,
{
    let natural = Seq::new(n, |i: int| i);
    if n == 0 {
        assert(natural =~= Seq::empty());
    } else {
        let m = (n - 1) as nat;
        lemma_sum_over_order(items, m, f);
        let p = order_of_first(items, m);
        lemma_slot_in_range(items, p, n - 1);
        lemma_sum_over_insert(p, slot(items, p, n - 1), n - 1, f);
        assert(natural.drop_last() =~= Seq::new(m, |i: int| i));
    }
}

proof fn lemma_slot_in_range(items: Seq<ScanNode>, p: Seq<int>, x: int)
    ensures
        0 <= slot(items, p, x) <= p.len(),
    decreases p.len(),
{
    if p.len() > 0 {
        lemma_slot_in_range(items, p.drop_last(), x);
    }
}

proof fn lemma_listing_len(
    node: ScanNode,
    root: Seq<char>,
    parent: Option<Seq<char>>,
    root_path: Seq<u8>,
    is_root: bool,
    at: nat,
)
    ensures
        listing(node, root, parent, root_path, is_root, at).len() == tree_size(node),
    decreases node, node.children@.len() + 1,
{
    let n = node.children@.len();
    let f = |i: int| tree_size(node.children@[i]);
    lemma_children_listing_len(node, n, root, root_path, at);
    lemma_sum_over_order(node.children@, n, f);
    lemma_children_size(node, n);
    lemma_order_is_order(node.children@);
    assert(order(node.children@).take(n as int) =~= order(node.children@));
}

proof fn lemma_children_size(node: ScanNode, n: nat)
    requires
        n <= node.children@.len(),
    ensures
        children_size(node, n) == sum_over(
            Seq::new(n, |i: int| i),
            |i: int| tree_size(node.children@[i]),
        ),
    decreases n,
{
    let natural = Seq::new(n, |i: int| i);
    if n > 0 {
        lemma_children_size(node, (n - 1) as nat);
        assert(natural.drop_last() =~= Seq::new((n - 1) as nat, |i: int| i));
    }
}

proof fn lemma_children_listing_len(
    node: ScanNode,
    n: nat,
    root: Seq<char>,
    root_path: Seq<u8>,
    at: nat,
)
    requires
        n <= node.children@.len(),
    ensures
        children_listing(node, n, root, root_path, at).len() == sum_over(
            order(node.children@).take(n as int),
            |i: int| tree_size(node.children@[i]),
        ),
    decreases node, n,
{
    let o = order(node.children@);
    if n > 0 {
        let m = (n - 1) as nat;
        lemma_children_listing_len(node, m, root, root_path, at);
        lemma_order_is_order(node.children@);
        let k = o[n - 1];
        assert(0 <= k < node.children@.len());
        let before = children_listing(node, m, root, root_path, at);
        lemma_listing_len(
            node.children@[k],
            root,
            Some(node_id(at)),
            root_path,
            false,
            at + 1 + before.len(),
        );
        assert(o.take(n as int).drop_last() =~= o.take(m as int));
    }
}

/// The number of nodes in the first `n` scanned trees.
pub open spec fn trees_size(trees: Seq<ScanNode>, n: nat) -> nat
    decreases n,
{
    if n == 0 {
        0
    } else {
        trees_size(trees, (n - 1) as nat) + tree_size(trees[n - 1])
    }
}

/// A snapshot lists every scanned node once: it has as many nodes as the trees
/// have.
pub proof fn snapshot_lists_every_node(trees: Seq<ScanNode>, n: nat)
    requires
        n <= trees.len(),
    ensures
        nodes_of(trees, n).len() == trees_size(trees, n),
    decreases n,
{
    if n > 0 {
        let m = (n - 1) as nat;
        snapshot_lists_every_node(trees, m);
        let tree = trees[n - 1];
        lemma_listing_len(tree, root_id(m), None, tree.path@, true, nodes_of(trees, m).len());
    }
}

/// Of two children of a node, the one listed first is not the smaller.
pub proof fn children_are_listed_largest_first(node: ScanNode, a: int, b: int)
    requires
        0 <= a < b < node.children@.len(),
    ensures
        ({
            let o = order(node.children@);
            &&& node.children@[o[a]].size >= node.children@[o[b]].size
            &&& node.children@[o[a]].size == node.children@[o[b]].size ==> !text_before(
                node.children@[o[b]].name@,
                node.children@[o[a]].name@,
            )
        }),
{
    ranking_is_sorted(node.children@, a, b);
    lemma_order_is_order(node.children@);
}

/// Whether a platform feature can be used.
#[derive(Clone, Copy, Debug, Eq, PartialEq, Structural)]
pub enum CapabilityState {
    Available,
    Unavailable,
    PermissionRequired,
}

/// What the platform can do.
#[derive(Clone, Debug, Eq, PartialEq)]
pub struct PlatformCapabilities {
    pub filesystem_scan: CapabilityState,
    pub trash_cleanup: CapabilityState,
    pub i_cloud_local_copy_eviction: CapabilityState,
    pub finder_integration: CapabilityState,
}

impl PlatformCapabilities {
    /// What the platform can do, given whether it is macOS: the Apple features
    /// are there only then, scanning and the trash everywhere.
    pub fn for_current_platform(macos: bool) -> (r: Self)
        ensures
            r == (PlatformCapabilities {
                filesystem_scan: CapabilityState::Available,
                trash_cleanup: CapabilityState::Available,
                i_cloud_local_copy_eviction: if macos {
                    CapabilityState::Available
                } else {
                    CapabilityState::Unavailable
                },
                finder_integration: if macos {
                    CapabilityState::Available
                } else {
                    CapabilityState::Unavailable
                },
            }),
    {
        let apple = if macos {
            CapabilityState::Available
        } else {
            CapabilityState::Unavailable
        };
        PlatformCapabilities {
            filesystem_scan: CapabilityState::Available,
            trash_cleanup: CapabilityState::Available,
            i_cloud_local_copy_eviction: apple,
            finder_integration: apple,
        }
    }
}

} // verus!
