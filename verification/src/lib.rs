//! Merge engine for structured key/value configuration files.
//!
//! A `File` is the in-memory form of a sectioned key/value document: named
//! sections, each holding ordered `key=value` pairs.  Files are parsed from
//! bytes, checked for format compatibility, merged ("apply": the patch's
//! pairs overwrite or extend the target's), and serialized back to bytes.
//! All file reading and writing is left to the caller; the engine works on
//! plain byte strings.

pub mod apply;
pub mod document;
pub mod driver;
pub mod format;
pub mod ini;
