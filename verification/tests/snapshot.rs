//! Snapshots of scanned trees.

use kuntu::path::FilePath;
use kuntu::snapshot::{
    CapabilityState, DecimalBytes, HardlinkPolicy, NodeFlag, NodeKind, NodeScanState,
    PlatformCapabilities, PrivacyMode, ScanMetadata, ScanNode, SizePolicy, SnapshotEnvelope,
    SnapshotNode, SnapshotRoot, SnapshotStatus, SnapshotSummary, SymlinkPolicy,
};

fn node(path: &str, size: u64, children: Vec<ScanNode>) -> ScanNode {
    let name = path.rsplit('/').next().unwrap().to_string();
    ScanNode {
        path: FilePath::from_text(path),
        name,
        size,
        children,
        ignored: false,
        collapsed: false,
        directory: None,
    }
}

#[test]
fn round_trips_schema_fixture_with_decimal_bytes() {
    let mut snapshot = SnapshotEnvelope::new("0.3.0-phase0");
    snapshot.roots.push(SnapshotRoot {
        id: "root-1".into(),
        label: "Synthetic Volume".into(),
        relative_path: Some(".".into()),
    });
    snapshot.nodes.push(SnapshotNode {
        id: "node-1".into(),
        parent_id: None,
        root_id: "root-1".into(),
        name: Some("Synthetic Volume".into()),
        relative_path: Some(".".into()),
        kind: NodeKind::Root,
        logical_bytes: Some(DecimalBytes(9_007_199_254_740_993)),
        allocated_bytes: Some(DecimalBytes(8_000)),
        unique_allocated_bytes: Some(DecimalBytes(8_000)),
        child_count: 0,
        mtime: None,
        file_identity: None,
        hardlink_group: None,
        flags: vec![],
        scan_state: NodeScanState::Complete,
        error_refs: vec![],
    });

    let written = |bytes: Option<DecimalBytes>| serde_json::Value::String(bytes.unwrap().encode());
    let mut fields = serde_json::Map::new();
    fields.insert("logicalBytes".into(), written(snapshot.nodes[0].logical_bytes));
    fields.insert("allocatedBytes".into(), written(snapshot.nodes[0].allocated_bytes));
    fields.insert(
        "uniqueAllocatedBytes".into(),
        written(snapshot.nodes[0].unique_allocated_bytes),
    );
    let encoded =
        serde_json::to_string_pretty(&serde_json::Value::Object(fields)).expect("encode");
    assert!(encoded.contains("\"logicalBytes\": \"9007199254740993\""));

    let read: serde_json::Value = serde_json::from_str(&encoded).expect("decode");
    let mut decoded = snapshot.clone();
    decoded.nodes[0].logical_bytes =
        DecimalBytes::decode(read["logicalBytes"].as_str().unwrap());
    decoded.nodes[0].allocated_bytes =
        DecimalBytes::decode(read["allocatedBytes"].as_str().unwrap());
    decoded.nodes[0].unique_allocated_bytes =
        DecimalBytes::decode(read["uniqueAllocatedBytes"].as_str().unwrap());
    assert_eq!(decoded, snapshot);
}

#[test]
fn capabilities_hide_apple_only_features_off_macos() {
    let capabilities = PlatformCapabilities::for_current_platform(true);
    assert_eq!(capabilities.i_cloud_local_copy_eviction, CapabilityState::Available);
    assert_eq!(capabilities.finder_integration, CapabilityState::Available);

    let capabilities = PlatformCapabilities::for_current_platform(false);
    assert_eq!(capabilities.i_cloud_local_copy_eviction, CapabilityState::Unavailable);
    assert_eq!(capabilities.finder_integration, CapabilityState::Unavailable);
    assert_eq!(capabilities.filesystem_scan, CapabilityState::Available);
    assert_eq!(capabilities.trash_cleanup, CapabilityState::Available);
}

#[test]
fn byte_counts_are_read_as_they_are_written() {
    for n in [0, 7, 10, 100, 9_007_199_254_740_993, u64::MAX] {
        assert_eq!(DecimalBytes(n).encode(), n.to_string());
        assert_eq!(DecimalBytes::decode(&n.to_string()), Some(DecimalBytes(n)));
    }
    assert_eq!(DecimalBytes::decode("+12"), Some(DecimalBytes(12)));
    assert_eq!(DecimalBytes::decode("007"), Some(DecimalBytes(7)));
    for bad in ["", "+", "-1", "1 ", " 1", "++1", "0x1", "1.0", "18446744073709551616", "\u{661}"] {
        assert_eq!(DecimalBytes::decode(bad), None, "{bad:?}");
        assert!(bad.parse::<u64>().is_err());
    }
}

#[test]
fn a_new_envelope_is_an_empty_partial_one() {
    let snapshot = SnapshotEnvelope::new("1.2.3");
    assert_eq!(snapshot.format, "space-lens.filesystem-snapshot");
    assert_eq!(snapshot.schema_version, "1.0");
    assert_eq!(snapshot.producer.name, "space-lens");
    assert_eq!(snapshot.producer.version, "1.2.3");
    assert_eq!(snapshot.scan, ScanMetadata::default());
    assert_eq!(snapshot.scan.id, "phase0-fixture");
    assert_eq!(snapshot.scan.started_at, None);
    assert_eq!(snapshot.scan.completed_at, None);
    assert_eq!(snapshot.scan.status, SnapshotStatus::Partial);
    assert_eq!(snapshot.scan.size_policy, SizePolicy::AllocatedPreferred);
    assert_eq!(snapshot.scan.hardlink_policy, HardlinkPolicy::CountOncePerScan);
    assert_eq!(snapshot.scan.symlink_policy, SymlinkPolicy::DoNotFollow);
    assert_eq!(snapshot.scan.privacy_mode, PrivacyMode::NamesRedacted);
    assert!(snapshot.roots.is_empty());
    assert!(snapshot.nodes.is_empty());
    assert!(snapshot.errors.is_empty());
    assert_eq!(snapshot.summary, SnapshotSummary::default());
    assert_eq!(snapshot.summary.node_count, 0);
    assert_eq!(snapshot.summary.logical_bytes, None);
}

#[test]
fn trees_are_listed_parents_first_and_the_largest_child_first() {
    let mut collapsed = node("/v/b", 70, vec![]);
    collapsed.collapsed = true;
    collapsed.directory = Some(true);
    let mut ignored = node("/v/a/x", 10, vec![]);
    ignored.ignored = true;
    let mut link = node("/v/a/y", 10, vec![node("/v/a/y/z", 1, vec![])]);
    link.directory = Some(false);
    let first = node(
        "/v",
        100,
        vec![node("/v/c", 5, vec![]), node("/v/a", 20, vec![link, ignored]), collapsed],
    );
    let second = node("/w", 7, vec![]);
    let snapshot = SnapshotEnvelope::from_scan_nodes(&[first, second], "0.1");

    assert_eq!(snapshot.scan.status, SnapshotStatus::Complete);
    assert_eq!(snapshot.scan.privacy_mode, PrivacyMode::Full);
    let roots: Vec<_> =
        snapshot.roots.iter().map(|r| (r.id.as_str(), r.label.as_str(), r.relative_path.as_deref())).collect();
    assert_eq!(roots, vec![("root-0", "v", Some(".")), ("root-1", "w", Some("."))]);

    let listed: Vec<_> = snapshot
        .nodes
        .iter()
        .map(|n| {
            (
                n.id.as_str(),
                n.parent_id.as_deref().unwrap_or("-"),
                n.root_id.as_str(),
                n.relative_path.as_deref().unwrap_or("-"),
                n.kind,
                n.child_count,
            )
        })
        .collect();
    assert_eq!(
        listed,
        vec![
            ("node-0", "-", "root-0", ".", NodeKind::Root, 3),
            ("node-1", "node-0", "root-0", "b", NodeKind::Directory, 0),
            ("node-2", "node-0", "root-0", "a", NodeKind::Directory, 2),
            ("node-3", "node-2", "root-0", "a/x", NodeKind::File, 0),
            ("node-4", "node-2", "root-0", "a/y", NodeKind::File, 1),
            ("node-5", "node-4", "root-0", "a/y/z", NodeKind::File, 0),
            ("node-6", "node-0", "root-0", "c", NodeKind::File, 0),
            ("node-7", "-", "root-1", ".", NodeKind::Root, 0),
        ]
    );
    assert_eq!(snapshot.nodes[1].flags, vec![NodeFlag::Collapsed]);
    assert_eq!(snapshot.nodes[1].scan_state, NodeScanState::NotTraversed);
    assert_eq!(snapshot.nodes[3].flags, vec![NodeFlag::Ignored]);
    assert_eq!(snapshot.nodes[3].scan_state, NodeScanState::Complete);
    assert_eq!(snapshot.nodes[2].logical_bytes, Some(DecimalBytes(20)));
    assert_eq!(snapshot.summary.node_count, 8);
    assert_eq!(snapshot.summary.logical_bytes, Some(DecimalBytes(107)));
    assert_eq!(snapshot.summary.unique_allocated_bytes, Some(DecimalBytes(107)));
}

#[test]
fn a_node_outside_its_root_has_no_relative_path() {
    let stray = node("/elsewhere/x", 1, vec![]);
    let odd = ScanNode {
        path: FilePath::from_bytes(b"/v/\xff".to_vec()),
        name: "odd".into(),
        size: 0,
        children: vec![],
        ignored: true,
        collapsed: true,
        directory: None,
    };
    let snapshot = SnapshotEnvelope::from_scan_nodes(&[node("/v", 1, vec![stray, odd])], "0.1");
    assert_eq!(snapshot.nodes[1].relative_path, None);
    assert_eq!(snapshot.nodes[2].relative_path.as_deref(), Some("\u{fffd}"));
    assert_eq!(snapshot.nodes[2].flags, vec![NodeFlag::Ignored, NodeFlag::Collapsed]);
}

#[test]
fn children_of_one_size_come_by_name() {
    let tree = node(
        "/v",
        3,
        vec![node("/v/b", 1, vec![]), node("/v/a", 1, vec![]), node("/v/\u{e9}", 1, vec![])],
    );
    let snapshot = SnapshotEnvelope::from_scan_nodes(&[tree], "0.1");
    let names: Vec<_> = snapshot.nodes.iter().map(|n| n.name.clone().unwrap()).collect();
    assert_eq!(names, vec!["v", "a", "b", "\u{e9}"]);
}

#[test]
fn the_order_of_children_does_not_change_a_snapshot() {
    let leaves = |names: [&str; 3]| -> Vec<ScanNode> {
        names.iter().map(|n| node(&format!("/v/a/{n}"), n.len() as u64, vec![])).collect()
    };
    let one = node(
        "/v",
        9,
        vec![node("/v/b", 6, vec![]), node("/v/a", 6, leaves(["x", "yy", "z"]))],
    );
    let other = node(
        "/v",
        9,
        vec![node("/v/a", 6, leaves(["z", "x", "yy"])), node("/v/b", 6, vec![])],
    );
    let one = SnapshotEnvelope::from_scan_nodes(&[one], "0.1");
    let other = SnapshotEnvelope::from_scan_nodes(&[other], "0.1");
    assert_eq!(one.nodes, other.nodes);
    assert_eq!(one.summary, other.summary);

    let names: Vec<_> = one.nodes.iter().map(|n| n.name.clone().unwrap()).collect();
    assert_eq!(names, vec!["v", "a", "yy", "x", "z", "b"]);
    for parent in &one.nodes {
        let children: Vec<_> =
            one.nodes.iter().filter(|n| n.parent_id.as_ref() == Some(&parent.id)).collect();
        assert_eq!(children.len() as u64, parent.child_count as u64);
        assert!(children.iter().all(|n| n.root_id == parent.root_id));
    }
}
