//! A verified core for a directory-size scanner.
//!
//! The library builds an aggregated arena tree from a flat list of scanned
//! files, and derives searchable, sortable and spatially laid out views of
//! it. The filesystem walk itself, thread management and all rendering live
//! outside the library; they drive it through plain values and the typed
//! message stream defined in [`scanner`].

pub mod builder;
pub mod export;
pub mod human;
pub mod model;
pub mod paths;
pub mod progress;
pub mod scanner;
pub mod search;
pub mod sorter;
pub mod text;
pub mod treemap;
pub mod view;

pub use builder::build_tree;
pub use export::{build_rows, compute_dir_counts, ExportRow};
pub use human::{format_gb, human_bytes};
pub use model::{arena_wf_check, DirStats, NodeId, NodeKind, Tree, TreeNode};
pub use progress::Progress;
pub use scanner::{ScanMsg, Scanner};
pub use search::{fuzzy_score, should_rebuild_filter, SearchFilter};
pub use sorter::{sort_node_ids, SortKey};
pub use text::truncate_middle;
pub use treemap::{squarify, Rect, TreemapItem};
pub use view::{collect_file_nodes, filter_matching, ExportFormat, ViewTab};
