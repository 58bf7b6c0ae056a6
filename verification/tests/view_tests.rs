use treesize::builder::build_tree;
use treesize::export::{build_rows, compute_dir_counts};
use treesize::human::{format_gb, human_bytes};
use treesize::model::{NodeId, NodeKind};
use treesize::search::{fuzzy_score, should_rebuild_filter, SearchFilter};
use treesize::text::str_is_blank;
use treesize::sorter::{sort_node_ids, SortKey};
use treesize::text::truncate_middle;
use treesize::treemap::{squarify, Rect};
use treesize::{DirStats, Progress, Tree};

#[test]
fn search_marks_direct_and_subtree_matches() {
    let files = vec![
        ("/root/music/song.mp3".to_string(), 10u64),
        ("/root/docs/report.txt".to_string(), 20u64),
    ];
    let tree = build_tree("/root", files);
    let filter = SearchFilter::build("SONG", &tree);

    let song = tree.nodes.iter().find(|n| n.name == "song.mp3").unwrap();
    let music = tree.nodes.iter().find(|n| n.name == "music").unwrap();
    let docs = tree.nodes.iter().find(|n| n.name == "docs").unwrap();
    let root = &tree.nodes[tree.root.0 as usize];

    // Case-insensitive on the node's own name.
    assert!(filter.matches_node(song.id));
    // The directory does not match by name, but its subtree does.
    assert!(!filter.matches_node(music.id) || music.path.contains("song"));
    assert!(filter.matches_subtree(music.id));
    assert!(filter.matches_subtree(root.id));
    assert!(!filter.matches_subtree(docs.id));
}

#[test]
fn empty_needle_matches_every_node() {
    let tree = build_tree("/root", vec![("/root/a".to_string(), 1u64)]);
    let filter = SearchFilter::build("", &tree);
    for n in &tree.nodes {
        assert!(filter.matches_node(n.id));
        assert!(filter.matches_subtree(n.id));
    }
}

#[test]
fn path_matches_count_for_directories_too() {
    let tree = build_tree("/root", vec![("/root/photos/cat.jpg".to_string(), 1u64)]);
    let filter = SearchFilter::build("photos", &tree);
    let cat = tree.nodes.iter().find(|n| n.name == "cat.jpg").unwrap();
    // The file's full path holds the needle even though its name does not.
    assert!(filter.matches_node(cat.id));
}

#[test]
fn sorter_orders_sizes_descending_and_names_ascending() {
    let files = vec![
        ("/r/x".to_string(), 10u64),
        ("/r/y".to_string(), 50u64),
        ("/r/z".to_string(), 30u64),
    ];
    let tree = build_tree("/r", files);
    let mut ids: Vec<NodeId> = tree.nodes[tree.root.0 as usize].children.clone();

    sort_node_ids(&mut ids, &tree, SortKey::Size);
    let sizes: Vec<u128> = ids.iter().map(|id| tree.nodes[id.0 as usize].size).collect();
    assert_eq!(sizes, vec![50, 30, 10]);

    let files2 = vec![
        ("/r/b".to_string(), 1u64),
        ("/r/a".to_string(), 2u64),
        ("/r/c".to_string(), 3u64),
    ];
    let tree2 = build_tree("/r", files2);
    let mut ids2: Vec<NodeId> = tree2.nodes[tree2.root.0 as usize].children.clone();
    sort_node_ids(&mut ids2, &tree2, SortKey::Name);
    let names: Vec<&str> = ids2
        .iter()
        .map(|id| tree2.nodes[id.0 as usize].name.as_str())
        .collect();
    assert_eq!(names, vec!["a", "b", "c"]);
}

#[test]
fn sorter_orders_file_counts_descending() {
    let files = vec![
        ("/r/one/a".to_string(), 1u64),
        ("/r/two/a".to_string(), 1u64),
        ("/r/two/b".to_string(), 1u64),
    ];
    let tree = build_tree("/r", files);
    let mut ids: Vec<NodeId> = tree.nodes[tree.root.0 as usize]
        .children
        .iter()
        .copied()
        .filter(|id| matches!(tree.nodes[id.0 as usize].kind, NodeKind::Dir))
        .collect();
    sort_node_ids(&mut ids, &tree, SortKey::Count);
    let counts: Vec<u64> = ids
        .iter()
        .map(|id| tree.nodes[id.0 as usize].file_count)
        .collect();
    assert_eq!(counts, vec![2, 1]);
}

#[test]
fn treemap_slices_proportionally_along_the_wide_axis() {
    let weights = vec![(NodeId(1), 60u64), (NodeId(2), 40u64)];
    let area = Rect { x: 0, y: 0, w: 100, h: 50 };
    let out = squarify(&weights, area);
    assert_eq!(out.len(), 2);
    // Sorted largest first; slices split the width 60/40.
    assert_eq!(out[0].id, NodeId(1));
    assert_eq!(out[0].rect, Rect { x: 0, y: 0, w: 60, h: 50 });
    assert_eq!(out[1].id, NodeId(2));
    assert_eq!(out[1].rect, Rect { x: 60, y: 0, w: 40, h: 50 });
}

#[test]
fn treemap_drops_zero_weights_and_degenerate_slices() {
    let weights = vec![
        (NodeId(1), 0u64),
        (NodeId(2), 1_000_000u64),
        (NodeId(3), 1u64),
    ];
    let area = Rect { x: 0, y: 0, w: 10, h: 10 };
    let out = squarify(&weights, area);
    // The zero weight goes away; the tiny weight's slice rounds to nothing.
    assert!(out.len() <= 2);
    assert!(out.iter().all(|it| it.weight > 0));
    let total: u64 = out.iter().map(|it| it.rect.w * it.rect.h).sum();
    assert!(total <= 100);
}

#[test]
fn treemap_empty_area_yields_nothing() {
    let weights = vec![(NodeId(1), 5u64)];
    let out = squarify(&weights, Rect { x: 0, y: 0, w: 0, h: 7 });
    assert!(out.is_empty());
}

#[test]
fn human_bytes_renders_fixed_examples() {
    assert_eq!(human_bytes(0), "0.00 B");
    assert_eq!(human_bytes(512), "512.00 B");
    assert_eq!(human_bytes(1023), "1023.00 B");
    assert_eq!(human_bytes(1024), "1.00 KB");
    assert_eq!(human_bytes(1536), "1.50 KB");
    assert_eq!(human_bytes(1048576), "1.00 MB");
    assert_eq!(human_bytes(1073741824), "1.00 GB");
    assert_eq!(human_bytes(1099511627776), "1.00 TB");
    assert_eq!(human_bytes(1125899906842624), "1.00 PB");
    assert_eq!(human_bytes(3 * 1125899906842624), "3.00 PB");
}

#[test]
fn human_bytes_rounds_to_nearest_like_a_float_renderer() {
    // 1535 B is 1.4990 KB: nearest, not truncation.
    assert_eq!(human_bytes(1535), "1.50 KB");
    // 1.125 KB sits exactly on a tie; ties go to the even hundredth.
    assert_eq!(human_bytes(1152), "1.12 KB");
    // 1.375 KB ties upward to the even hundredth.
    assert_eq!(human_bytes(1408), "1.38 KB");
    // A fraction that rounds up to a whole carries into the figure.
    assert_eq!(human_bytes(1048575), "1024.00 KB");
}

#[test]
fn format_gb_uses_magnitude_dependent_precision() {
    let gib: u128 = 1 << 30;
    assert_eq!(format_gb(5 * gib), "5.00 GB");
    assert_eq!(format_gb(15 * gib + gib / 2), "15.5 GB");
    assert_eq!(format_gb(200 * gib), "200 GB");
    assert_eq!(format_gb(0), "0.00 GB");
    // Just under 100 GB rounds up across the whole figure.
    assert_eq!(format_gb(100 * gib - 1), "100.0 GB");
    assert_eq!(format_gb(200 * gib + gib / 2), "200 GB");
}

#[test]
fn truncate_middle_keeps_both_ends() {
    assert_eq!(truncate_middle("hello", 10), "hello");
    assert_eq!(truncate_middle("abcdefgh", 3), "abc");
    assert_eq!(truncate_middle("abcdefghij", 7), "ab...ij");
    assert_eq!(truncate_middle("abcdefghij", 9), "abc...hij");
}

#[test]
fn fuzzy_score_finds_subsequences_only() {
    assert!(fuzzy_score("abc", "a big cat").is_some());
    assert!(fuzzy_score("abc", "abc").is_some());
    assert!(fuzzy_score("zzz", "a big cat").is_none());
}

#[test]
fn rows_carry_aggregates_and_folder_counts() {
    let files = vec![
        ("/r/sub/a.txt".to_string(), 10u64),
        ("/r/sub/deep/b.txt".to_string(), 5u64),
    ];
    let tree = build_tree("/r", files);
    let counts = compute_dir_counts(&tree);
    let rows = build_rows(&tree);
    assert_eq!(rows.len(), tree.nodes.len());
    for (i, node) in tree.nodes.iter().enumerate() {
        let row = &rows[i];
        assert_eq!(row.path, node.path);
        assert_eq!(row.size_bytes, node.size);
        match node.kind {
            NodeKind::File => {
                assert_eq!(row.kind, "file");
                assert_eq!((row.files, row.folders), (0, 0));
            }
            NodeKind::Dir => {
                assert_eq!(row.kind, "dir");
                assert_eq!(row.files, node.file_count);
                assert_eq!(row.folders, counts[i]);
            }
        }
        // No node of a fresh build carries a timestamp.
        assert_eq!(row.modified, "");
    }
    // The root sees both directories below it.
    assert_eq!(counts[tree.root.0 as usize], 2);
}

#[test]
fn file_cache_and_filter_work_together() {
    let files = vec![
        ("/r/keep.log".to_string(), 1u64),
        ("/r/other.txt".to_string(), 2u64),
        ("/r/sub/keep2.log".to_string(), 3u64),
    ];
    let tree = build_tree("/r", files);
    let file_nodes = treesize::collect_file_nodes(&tree);
    assert_eq!(file_nodes.len(), 3);
    assert!(file_nodes
        .iter()
        .all(|id| matches!(tree.nodes[id.0 as usize].kind, NodeKind::File)));

    let filter = SearchFilter::build("log", &tree);
    let kept = treesize::filter_matching(&filter, &file_nodes);
    let names: Vec<&str> = kept
        .iter()
        .map(|id| tree.nodes[id.0 as usize].name.as_str())
        .collect();
    assert_eq!(names, vec!["keep.log", "keep2.log"]);
}

#[test]
fn malformed_trees_are_rejected_by_the_check() {
    let good = build_tree("/r", vec![("/r/a".to_string(), 1u64)]);
    assert!(treesize::arena_wf_check(&good.nodes));

    let mut bad = good.clone();
    bad.nodes[1].parent = None;
    assert!(!treesize::arena_wf_check(&bad.nodes));

    let empty: Vec<treesize::TreeNode> = Vec::new();
    assert!(!treesize::arena_wf_check(&empty));
}

#[test]
fn sorting_keeps_creation_order_on_ties() {
    let files = vec![
        ("/r/first".to_string(), 5u64),
        ("/r/second".to_string(), 5u64),
        ("/r/small".to_string(), 3u64),
    ];
    let tree = build_tree("/r", files);
    let mut ids: Vec<NodeId> = tree.nodes[tree.root.0 as usize].children.clone();
    sort_node_ids(&mut ids, &tree, SortKey::Size);
    let names: Vec<&str> = ids
        .iter()
        .map(|id| tree.nodes[id.0 as usize].name.as_str())
        .collect();
    // The two equal sizes keep the order in which their nodes were created.
    assert_eq!(names, vec!["first", "second", "small"]);
}

#[test]
fn defaults_start_empty() {
    let t = Tree::default();
    assert_eq!(t.root, NodeId::default());
    assert!(t.nodes.is_empty());
    let p = Progress::default();
    assert_eq!((p.files, p.dirs, p.bytes), (0, 0, 0));
    let d = DirStats::default();
    assert_eq!((d.bytes, d.files, d.dirs), (0, 0, 0));
    let r = Rect::default();
    assert_eq!((r.x, r.y, r.w, r.h), (0, 0, 0, 0));
}

#[test]
fn single_positive_item_receives_the_whole_rectangle() {
    let weights = vec![(NodeId(3), 5u64)];
    let area = Rect { x: 0, y: 0, w: 100, h: 50 };
    let out = squarify(&weights, area);
    assert_eq!(out.len(), 1);
    assert_eq!(out[0].id, NodeId(3));
    assert_eq!(out[0].weight, 5);
    assert_eq!(out[0].rect, area);
}

#[test]
fn rebuild_waits_for_idle_and_skips_matching_filters() {
    let typed = "doc".to_string();
    let built = "do".to_string();
    // Still typing: too soon to rebuild.
    assert!(!should_rebuild_filter(&typed, &built, 10, 10, 40));
    // Idle long enough and the needle changed.
    assert!(should_rebuild_filter(&typed, &built, 10, 10, 150));
    // The built filter already fits this needle and tree: skip.
    assert!(!should_rebuild_filter(&typed, &typed.clone(), 10, 10, 150));
    // Same needle over a rescanned tree of another size: rebuild.
    assert!(should_rebuild_filter(&typed, &typed.clone(), 10, 12, 150));
}

#[test]
fn blank_needles_cover_unicode_whitespace() {
    assert!(str_is_blank(""));
    assert!(str_is_blank(" \t\r\n"));
    assert!(str_is_blank("\u{A0}\u{2003}"));
    assert!(!str_is_blank(" a "));
}
