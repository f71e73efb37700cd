//! Generic value tree model and path addressing.

pub mod error;
pub mod laws;
pub mod model;
pub mod path;
pub mod value;

pub use error::TreeError;
pub use path::{Path, PathSegment};
pub use value::Value;
