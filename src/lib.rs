//! Content classification, segmentation, per-segment canonicalization and
//! line diffs for mixed-dialect text buffers.

pub mod text;
pub mod classify;
pub mod segment;
pub mod diff;
pub mod format;

pub use classify::{detect_content, detect_line_kind, DetectedType, Kind};
pub use diff::{compute_diff, compute_diff_structured, DiffBlock, StructuredDiff};
pub use format::{format_content_segmented, format_csv, format_json, format_properties};
pub use segment::{detect_segments, Segment};
