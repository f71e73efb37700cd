//! Format detection, and the document models of TOML, JSON and YAML with
//! their conversions to and from value trees.

pub mod detect;
pub mod json;
pub mod laws;
pub mod merge;
pub mod toml;
pub mod yaml;

pub use detect::Format;
