//! A streaming writer for namespace-qualified markup documents.
//!
//! The writer emits start tags, attributes, text and end tags in grammar
//! order, and keeps a scoped table of namespace prefixes that is installed on
//! entry to an element and restored exactly on exit. Text and attribute values
//! are escaped with [`escape`] and read back with [`unescape`].

pub mod scope;
pub mod ser;
pub mod text;

pub use ser::{Context, Error, Prefix, Serializer, State};
pub use text::{escape, unescape};
