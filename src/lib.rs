//! A content-addressed store for universe levels.
//!
//! Every term is split into an anonymous projection (structure and parameter
//! indices) and a metadata projection (display names). Each projection is given
//! a canonical byte form, hashed with SHA3-256, and kept in an [`env::Env`]
//! keyed by that hash.
pub mod cbor;
pub mod digest;
pub mod name;
pub mod env;
pub mod universe;
