//! A parser for loot-filter files: plain-text rule documents made of `Show`
//! and `Hide` blocks, each holding indented rule lines.
//!
//! The pipeline is: line normalization (comment stripping, trimming, dropping
//! blanks), block segmentation on `Show`/`Hide` headers, per-line tokenization
//! honoring double quotes, and assembly of blocks into typed rule items.

pub mod block_item;
pub mod blocks;
pub mod blocks_with_lines;
pub mod errors;
pub mod lines;
pub mod parse;
pub mod parse_content;
pub mod remove_comment;
pub mod sections;
pub mod text;
