//! Structured markdown content for a schema-driven site publisher: parsing,
//! slot assignment, validation, editing, diffing and serialisation of content
//! documents, and the conductor that keeps a site's state.
//!
//! Every item is written inside `verus!` and carries a contract over a
//! mathematical model of its data.

pub mod adapters;
pub mod affected;
pub mod anchor;
pub mod applying;
pub mod bencode;
pub mod client;
pub mod commands;
pub mod conductor;
pub mod content_editor;
pub mod deciding;
pub mod decimal;
pub mod dep_graph;
pub mod diff;
pub mod dirty;
pub mod document;
pub mod editing;
pub mod editorial;
pub mod error;
pub mod link;
pub mod list;
pub mod loading;
pub mod markdown;
pub mod node_store;
pub mod order;
pub mod pages;
pub mod parser;
pub mod path;
pub mod populate;
pub mod protocol;
pub mod ranked;
pub mod rebuild;
pub mod saving;
pub mod schema;
pub mod self_write_tracker;
pub mod serializer;
pub mod showing;
pub mod site;
pub mod slot_assignment;
pub mod slot_editor;
pub mod stamp;
pub mod steps;
pub mod suggesting;
pub mod table;
pub mod text;
pub mod transform;
pub mod unicode;
pub mod validator;
pub mod vector;
