//! Verified core of a two-level document diff: block-level edit scripts,
//! edit-zone pairing by text similarity, word-level token diffs and the
//! plain-text rendering helpers built on them.

pub mod diff_area;
pub mod diff_surface;
pub mod edit_script;
pub mod text;
pub mod tokens;
pub mod similarity;
pub mod blocks;
pub mod render;
pub mod regions;
pub mod log_text;
pub mod modification_log;
pub mod raw_lines;
pub mod annotated;
pub mod owners;
pub mod labels;
pub mod decision;
pub mod paths;
pub mod context_recording;
pub mod build_info;
pub mod content_slots;
pub mod debug_paths;
pub mod content_runs;
pub mod block_extraction;
pub mod presentation;
pub mod text_graft;
pub mod span_pairing;
pub mod annotation_plan;
pub mod block_edit_plan;
pub mod transparent;
pub mod old_display;
