//! Include resolution for WGSL shader modules, and vertex buffer layouts.
//!
//! A shader source may include other sources by a directive. A load
//! resolves the directives of a source, and of every source it includes,
//! into one flattened code, validates that code, and records which files
//! it was put together from:
//!
//! - [`path`] makes paths canonical without looking at a file system;
//! - [`scan`] finds the include directives of a text, with the pattern
//!   engine of [`regex`];
//! - [`storage`] holds the sources that a load may read;
//! - [`resolve`] says what a load yields, [`cache`] computes it, and
//!   [`laws`] proves what holds of every load;
//! - [`validate`] checks the flattened code;
//! - [`vertex`] lays out the attributes of a vertex buffer.

pub mod cache;
pub mod error;
pub mod laws;
pub mod module;
pub mod path;
pub mod regex;
pub mod resolve;
pub mod scan;
pub mod storage;
pub mod text;
pub mod validate;
pub mod vertex;

pub use crate::cache::ModuleCache;
pub use crate::error::Error;
pub use crate::module::Module;
pub use crate::storage::SourceFiles;
