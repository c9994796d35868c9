//! Syntax trees for editors.
//!
//! A [`session::DocumentSession`] parses a document, takes edits and parses it again; a
//! [`snapshot::DocumentSnapshot`] is what is read of it. Languages come from a
//! [`registry::LanguageRegistry`] by way of a [`loader::RegistryLanguageLoader`]. For editors,
//! [`manager`] keeps the trees of documents and viewports, and [`highlight_cache`] what is drawn.
pub mod bundle;
pub mod byte_text;
pub mod candidates;
pub mod change;
pub mod config;
pub mod editor_syntax;
pub mod edits;
pub mod engine;
pub mod grammar_build;
pub mod grammar_files;
pub mod highlight_cache;
pub mod highlight_query;
pub mod inherits;
pub mod injection;
pub mod injections_query;
pub mod language_id;
pub mod layers;
pub mod loader;
pub mod locals;
pub mod lookup;
pub mod manager;
pub mod mapping;
pub mod mru;
pub mod ordering;
pub mod partial_syntax;
pub mod parts;
pub mod paths;
pub mod planning;
pub mod queries;
pub mod query_files;
pub mod query_rules;
pub mod regexes;
pub mod registry;
pub mod rope;
pub mod runtime_paths;
pub mod sealed_source;
pub mod session;
pub mod snapshot;
pub mod spans;
pub mod text;
pub mod text_map;
pub mod treesitter;
pub mod types;
