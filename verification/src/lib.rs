//! Language negotiation and translation-tree merging.
//!
//! The library parses `Accept-Language`-style preference headers into ordered,
//! quality-weighted language descriptors, and merges per-language translation
//! trees along a fallback chain so that missing keys in a preferred language
//! fall back to less preferred ones.

pub mod parse;
pub mod store;
pub mod tree;

pub use parse::Language;
pub use parse::ParseError;
pub use parse::parse_accept_language;
pub use store::Y10n;
pub use tree::Yaml;
pub use tree::merge_yaml;
