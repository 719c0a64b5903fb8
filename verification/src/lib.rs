//! Declarative web extraction: a selector tree is built from a flat definition,
//! interpreted against fetched documents into an artifact tree, and the artifact
//! tree is flattened into rows.

pub mod access;
pub mod artifact;
pub mod crawler;
pub mod extract;
pub mod formatter;
pub mod html;
pub mod job;
pub mod row;
pub mod selector_tree;
pub mod text;
