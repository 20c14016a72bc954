//! Directory tree compare and sync.

pub mod calendar_laws;
pub mod compare;
pub mod compare_laws;
pub mod count_laws;
pub mod diff_laws;
pub mod disk_laws;
pub mod display_order;
pub mod flow_laws;
pub mod match_laws;
pub mod mft_laws;
pub mod mirror_laws;
pub mod model;
pub mod output_laws;
pub mod plan_laws;
pub mod report;
pub mod report_laws;
pub mod scan;
pub mod scan_laws;
pub mod sync;
pub mod sync_effect;
pub mod sync_laws;
pub mod text;
pub mod text_laws;
pub mod total_laws;
pub mod tree_laws;
pub mod view_laws;
pub mod window;
pub mod window_laws;

pub use compare::{compare, Counts, DiffNode, Status};
pub use model::{Meta, Node};
pub use scan::{ScanMethod, ScanOptions, ScanProgress, ScanResult};
