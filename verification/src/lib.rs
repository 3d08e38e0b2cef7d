//! A minimal record-oriented database engine: a schema-driven, paginated
//! table store with a small SQL-like command language (INSERT, DELETE,
//! SELECT), per-table advisory locks and durable primary-key counters.
//!
//! The engine works on an in-memory image of the on-disk state: pages of
//! rows, one counter and one lock flag per table. Every operation is
//! specified by a transition function over mathematical views and verified
//! against it; the `codec` module renders and parses the file texts, so a
//! host needs nothing but whole-file reads and writes (and a real mutual
//! exclusion primitive around each command, as the locking model requires).

pub mod codec;
pub mod exec;
pub mod laws;
pub mod map;
pub mod parser;
pub mod storage;
pub mod strutil;
pub mod types;
