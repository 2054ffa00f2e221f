//! Chinese script conversion between Simplified, Traditional, Taiwan,
//! Hong Kong and Japanese Shinjitai variants, built on phrase-first
//! dictionary lookup over a word segmentation, with per-character fallback.
//!
//! The conversion pipeline, the dictionary tables and their per-length
//! gating metadata, the delimiter splitter, the punctuation mapper and the
//! variant detector are all verified; the segmenter itself is an external
//! collaborator reached through a small trusted interface.

pub mod dictionary_lib;
pub mod laws;
pub mod opencc_config;
mod core_conv;
mod delimiter;
mod jieba_api;
mod punctuation;
mod split_text;
mod text;

pub use core_conv::OpenCC;
pub use dictionary_lib::DictMap;
pub use dictionary_lib::Dictionary;
pub use opencc_config::OpenccConfig;

pub use text::find_max_utf8_length;
pub use text::format_thousand;
pub use text::normalize_line_endings;
pub use text::remove_utf8_bom_str_inplace;
pub use text::should_remove_bom;
