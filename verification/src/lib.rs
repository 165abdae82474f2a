//! A minimal file-backed key-value store engine, with its request router.
//!
//! The store's backing file is a sequence of text lines, each line holding
//! one record in the form `<key>:<value>`, where `<key>` is the decimal
//! representation of an unsigned 32-bit integer and `<value>` is the rest
//! of the line.  This crate holds the verified core: the storage engine
//! works on the file's content held in memory as a `String`, and every
//! operation is specified and proved against a mathematical model of that
//! content ([`model`]); the router ([`router`]) maps one request's path
//! and query onto the engine and produces the exact response text.  The
//! laws the operations obey across calls are stated and proved in
//! [`laws`].  Reading and writing the backing file itself, and the
//! network, are left to the caller.

pub mod laws;
pub mod model;
pub mod router;
pub mod store;

pub use store::Db;
