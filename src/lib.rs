//! A binary codec for a container format made of discriminant-tagged sections,
//! with lazily decoded payloads and a traversal that finds every function index
//! in a decoded tree.
pub mod error;
pub mod codec;
pub mod blob;
pub mod indices;
pub mod visit;
pub mod types;
pub mod stream;
pub mod sections;
pub mod module;
pub mod payload;
