//! A frontmatter-backed note store.
//!
//! Notes are kept as individual text files, each carrying a delimited
//! `key: value` header (title, timestamps, tags, color) followed by free-form
//! body text.  An in-memory index maps note identifiers to their current
//! values; it is a read-through cache over the filesystem, reconciled by
//! directory scans and kept consistent by the repository operations.

pub mod codec;
pub mod digits;
pub mod laws;
pub mod naming;
pub mod note;
pub mod repo;
pub mod sort;
pub mod text;
pub mod trusted;
