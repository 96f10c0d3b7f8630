//! Verified IPS (International Patching System) patcher.
//!
//! The IPS binary format describes byte-range edits to a binary blob: a
//! `PATCH` magic, a list of records (literal data or run-length fills at
//! absolute offsets), and an `EOF` terminator. This crate parses patch
//! bytes into records and replays the records over an input buffer,
//! with the parser's grammar and the applier's replay semantics stated
//! as specifications and proved.

pub mod error;
pub mod ips;
