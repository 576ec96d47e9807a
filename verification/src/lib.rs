//! A personal knowledge base of short notes, linked into a directed graph of
//! ownership (`Own`) and causal reference (`Cause`) edges.
//!
//! The crate offers a codec between a note and its text-record form, a graph
//! model with an id index and top-level bookkeeping, an index builder that
//! turns a set of records into a graph, a resolver from keys to notes, and a
//! renderer that lays a note and its owned children out as markup.

pub mod authoring;
pub mod codec;
pub mod graph;
pub mod note;
pub mod render;
pub mod site;
pub mod text;
pub mod ts;
