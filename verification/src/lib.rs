//! Image management core of a CRI (Container Runtime Interface) shim:
//! reference parsing, image identifier derivation, a metadata document
//! codec, an in-memory image index, a model of the on-disk image store,
//! and the service facade that composes them.
//!
//! Registry and disk I/O, and the event loop that waits on them, live in
//! the surrounding program; everything the subsystem decides — what a
//! reference means, what identifier a digest yields, what the index and
//! the store hold after each operation, which error each failure maps
//! to — is specified and verified here.

pub mod auth;
pub mod config;
pub mod decimal;
pub mod errors;
pub mod image_id;
pub mod index;
pub mod inflight;
pub mod keyed;
pub mod metajson;
pub mod network;
pub mod records;
pub mod reference;
pub mod service;
pub mod store;
pub mod strutil;
