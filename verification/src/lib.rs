//! A personal catalogue of named links with two levels of indirection:
//! aliases (short names for a link) and groups (named lists of aliases and
//! links opened together).  The crate holds the data model, the resolution
//! and group-expansion rules, the cascading renames that keep
//! cross-references consistent, the persisted text format with its proved
//! round trip, and the checks behind the edit operations.

pub mod cli;
pub mod codec;
pub mod config;
pub mod error;
pub mod laws;
pub mod maps;
pub mod render;
pub mod resolve;
pub mod roundtrip;
pub mod service;
pub mod storage;
pub mod text;
pub mod web;

pub use cli::Args;
pub use cli::Commands;
pub use codec::parse_document;
pub use codec::serialize_document;
pub use config::Config;
pub use error::Error;
pub use render::print_config;
pub use render::render_config;
pub use resolve::alias_or_link_to_uri;
pub use resolve::expand_groups;
pub use resolve::resolve_all;
pub use storage::Storage;
pub use storage::default_config_text;
pub use storage::initialize_content;
pub use roundtrip::lemma_save_load_round_trip;
pub use storage::lemma_initialize_idempotent;
