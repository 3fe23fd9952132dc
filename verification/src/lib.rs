//! Liz: text forms, parsing and grouping of terms, paths and small text
//! utilities for scripts.

pub mod chars;
pub mod liz_codes;
pub mod liz_debug;
pub mod liz_forms;
pub mod liz_group;
pub mod liz_logic;
pub mod liz_parse;
pub mod liz_paths;
pub mod liz_regex;
pub mod liz_slabs;
pub mod liz_texts;
