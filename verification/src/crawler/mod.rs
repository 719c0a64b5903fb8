//! The crawl engine, as a machine that never performs a fetch itself.
//!
//! A crawl walks the selector forest depth first. Whenever it needs a document
//! it stops and says which one; whoever drives it fetches the document and
//! hands the reply back. Between two fetches every step is a small one: one
//! selector evaluated, one item begun, one list finished.

pub mod agreement;
pub mod effort;
pub mod laws;
pub mod machine;
pub mod model;
pub mod walk;
