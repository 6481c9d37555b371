//! A content-addressable chunk store with a credential vault and an
//! authenticated-encryption persistence envelope.
//!
//! Payloads are split into fixed-size cells whose identifiers form a hash
//! chain, grouped into frames and cubes, and indexed by filename. User
//! credentials are stored with one-way password hashes. The combined state
//! can be serialized and sealed under AES-256-GCM for storage at rest.

#![verifier::rlimit(50)]

pub mod app;
pub mod beecell;
pub mod chunker;
pub mod codec;
pub mod database;
pub mod envelope;
pub mod errors;
pub mod eventhandler;
pub mod hasher;
pub mod login;
pub mod numfmt;
pub mod seigrconfig;
pub mod strbytes;
pub mod user;

pub use errors::DatabaseError;
