use treesize::builder::build_tree;
use treesize::model::{NodeKind, Tree, TreeNode};
use treesize::scanner::{
    finish_scan, process_entry, safe_point_decision, EntryEvent, ScanMsg, Scanner, WalkDecision,
    WalkTotals,
};
use std::sync::atomic::{AtomicBool, Ordering};
use std::sync::Arc;

fn find_by_name<'a>(tree: &'a Tree, name: &str) -> &'a TreeNode {
    tree.nodes
        .iter()
        .find(|n| n.name == name)
        .expect("node should exist")
}

#[test]
fn empty_file_list_yields_single_root() {
    let tree = build_tree("/root", Vec::new());
    assert_eq!(tree.nodes.len(), 1);
    let root = &tree.nodes[tree.root.0 as usize];
    assert_eq!(root.size, 0);
    assert_eq!(root.file_count, 0);
    assert_eq!(root.path, "/root");
    assert!(matches!(root.kind, NodeKind::Dir));
    assert!(root.parent.is_none());
}

#[test]
fn two_files_aggregate_up_to_the_root() {
    let files = vec![
        ("/root/a.txt".to_string(), 100u64),
        ("/root/sub/b.txt".to_string(), 50u64),
    ];
    let tree = build_tree("/root", files);

    let root = &tree.nodes[tree.root.0 as usize];
    assert_eq!(root.size, 150);
    assert_eq!(root.file_count, 2);

    let sub = find_by_name(&tree, "sub");
    assert!(matches!(sub.kind, NodeKind::Dir));
    assert_eq!(sub.size, 50);
    assert_eq!(sub.file_count, 1);

    let a = find_by_name(&tree, "a.txt");
    assert!(matches!(a.kind, NodeKind::File));
    assert_eq!(a.size, 100);
    assert!(a.children.is_empty());

    let b = find_by_name(&tree, "b.txt");
    assert!(matches!(b.kind, NodeKind::File));
    assert_eq!(b.size, 50);
    assert_eq!(b.parent, Some(sub.id));
}

#[test]
fn directories_are_created_once_and_linked() {
    let files = vec![
        ("/r/x/one".to_string(), 1u64),
        ("/r/x/two".to_string(), 2u64),
        ("/r/x/y/three".to_string(), 4u64),
    ];
    let tree = build_tree("/r", files);
    let dirs: Vec<_> = tree
        .nodes
        .iter()
        .filter(|n| matches!(n.kind, NodeKind::Dir) && n.name == "x")
        .collect();
    assert_eq!(dirs.len(), 1);
    let x = dirs[0];
    assert_eq!(x.size, 7);
    assert_eq!(x.file_count, 3);
    let y = find_by_name(&tree, "y");
    assert_eq!(y.size, 4);
    assert_eq!(y.file_count, 1);
    assert_eq!(y.parent, Some(x.id));
    // Node ids record creation order: every child id exceeds its parent's.
    for n in &tree.nodes {
        if let Some(p) = n.parent {
            assert!(p.0 < n.id.0);
        }
    }
}

#[test]
fn paths_outside_the_root_are_ignored() {
    let files = vec![
        ("/root/a".to_string(), 10u64),
        ("/elsewhere/b".to_string(), 99u64),
    ];
    let tree = build_tree("/root", files);
    let root = &tree.nodes[tree.root.0 as usize];
    assert_eq!(root.size, 10);
    assert_eq!(root.file_count, 1);
    assert!(tree.nodes.iter().all(|n| n.name != "b"));
}

#[test]
fn empty_root_takes_absolute_paths() {
    let tree = build_tree("", vec![("/a.txt".to_string(), 7u64)]);
    let root = &tree.nodes[tree.root.0 as usize];
    assert_eq!(root.size, 7);
    let a = find_by_name(&tree, "a.txt");
    assert_eq!(a.path, "/a.txt");
}

#[test]
fn safe_point_prefers_cancel_over_pause() {
    assert_eq!(safe_point_decision(true, true), WalkDecision::Quit);
    assert_eq!(safe_point_decision(true, false), WalkDecision::Quit);
    assert_eq!(safe_point_decision(false, true), WalkDecision::SleepAndRecheck);
    assert_eq!(safe_point_decision(false, false), WalkDecision::Proceed);
}

#[test]
fn measured_file_raises_all_totals_and_emits_two_messages() {
    let mut totals = WalkTotals::default();
    let mut collected: Vec<(String, u64)> = Vec::new();
    let msgs = process_entry(
        &mut totals,
        &mut collected,
        EntryEvent::FileMeasured { path: "/r/a".to_string(), size: 42 },
    );
    assert_eq!(totals.scanned, 1);
    assert_eq!(totals.discovered, 1);
    assert_eq!(totals.bytes, 42);
    assert_eq!(collected, vec![("/r/a".to_string(), 42u64)]);
    assert_eq!(msgs.len(), 2);
    match &msgs[0] {
        ScanMsg::Progress { scanned, discovered, bytes } => {
            assert_eq!((*scanned, *discovered, *bytes), (1, 1, 42));
        }
        other => panic!("expected Progress, got {:?}", other),
    }
    match &msgs[1] {
        ScanMsg::File { path, bytes } => {
            assert_eq!(path, "/r/a");
            assert_eq!(*bytes, 42);
        }
        other => panic!("expected File, got {:?}", other),
    }
}

#[test]
fn unreadable_file_still_counts_as_scanned() {
    let mut totals = WalkTotals { scanned: 3, discovered: 3, bytes: 100 };
    let mut collected: Vec<(String, u64)> = Vec::new();
    let msgs = process_entry(
        &mut totals,
        &mut collected,
        EntryEvent::FileUnreadable { path: "/r/locked".to_string() },
    );
    assert_eq!(totals.scanned, 4);
    assert_eq!(totals.discovered, 4);
    assert_eq!(totals.bytes, 100);
    assert!(collected.is_empty());
    assert_eq!(msgs.len(), 1);
}

#[test]
fn traversal_error_changes_nothing_but_reports() {
    let mut totals = WalkTotals { scanned: 5, discovered: 6, bytes: 7 };
    let mut collected: Vec<(String, u64)> = vec![("/r/a".to_string(), 1)];
    let msgs = process_entry(
        &mut totals,
        &mut collected,
        EntryEvent::TraversalError { description: "permission denied".to_string() },
    );
    assert_eq!((totals.scanned, totals.discovered, totals.bytes), (5, 6, 7));
    assert_eq!(collected.len(), 1);
    match &msgs[0] {
        ScanMsg::Error(e) => assert_eq!(e, "permission denied"),
        other => panic!("expected Error, got {:?}", other),
    }
}

#[test]
fn cancelled_scan_still_delivers_a_tree() {
    // A cancel issued mid-scan leaves a partial file list; the terminal
    // message still carries a valid tree built from what was collected.
    let collected = vec![("/root/kept.txt".to_string(), 8u64)];
    let msg = finish_scan("/root", collected);
    match msg {
        ScanMsg::Done(tree) => {
            assert_eq!(tree.nodes[tree.root.0 as usize].size, 8);
            assert_eq!(tree.nodes[tree.root.0 as usize].file_count, 1);
        }
        other => panic!("expected Done, got {:?}", other),
    }
}

#[test]
fn scanner_reads_the_shared_flags() {
    let cancel = Arc::new(AtomicBool::new(false));
    let paused = Arc::new(AtomicBool::new(false));
    let scanner = Scanner::new(cancel.clone(), paused.clone());
    assert!(!scanner.is_cancelled());
    assert!(!scanner.is_paused());
    cancel.store(true, Ordering::Relaxed);
    paused.store(true, Ordering::Relaxed);
    assert!(scanner.is_cancelled());
    assert!(scanner.is_paused());
}
