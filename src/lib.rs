//! Dynamic DNS updates for a resolver's static `local-data` records.
//!
//! A client presents a key for a domain and, optionally, an address. The request
//! is authenticated against the configured domains (`auth`, `config`), its domain
//! put in canonical form and its address chosen (`request`), and the one directive
//! for the domain in the resolver's configuration text rewritten (`directive`,
//! over the line structure of `lines`). `session` runs these steps as a state
//! machine whose caller performs the file access, the locking and the reload.

pub mod text;
pub mod lines;
pub mod directive;
pub mod config;
pub mod auth;
pub mod request;
pub mod session;
