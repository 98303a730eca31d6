//! Structural diff, patch, and merge for JSON-like documents.
//!
//! The library models a document as a recursive tree of null, boolean,
//! number, string, array and object values.  It can detect the
//! differences between two documents as a typed change-set, replay such
//! a change-set onto a target document, and deep-merge two documents
//! with the right side winning on conflicts.

pub mod value;
pub mod diff;
pub mod merge;
pub mod codec;
pub mod paths;

pub use value::{Doc, Value, obj_get, string_values};
pub use diff::Difference;
pub use merge::{merge, merge_doc};
pub use codec::{detect_differences, merge_jsons, parse_document, to_json_text, to_json_text_pretty};
pub use diff::{apply_differences, diff_values};
pub use paths::get_path;
