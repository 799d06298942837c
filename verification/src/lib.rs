//! Core of a personal file-indexing engine.
//!
//! Three subsystems around a user-registered root directory ("location"):
//! a rule-driven breadth-first walker that decides which filesystem entries
//! to admit, a file-identifier pipeline that links catalog entries to
//! content-addressed Object records, and a range-capable media gateway that
//! serves thumbnails and original files over a small HTTP model.
//!
//! Filesystem and catalog state are taken as explicit values (a directory
//! snapshot, an in-memory catalog and file store), so every decision the
//! engine makes is a function of its inputs and is verified; the thin I/O
//! shell that feeds those values in lives outside this crate.

pub mod cache;
pub mod cas;
pub mod catalog;
pub mod custom_uri;
pub mod errors;
pub mod file_identifier;
pub mod file_identifier_job;
pub mod rules;
pub mod shallow_file_identifier_job;
pub mod strutil;
pub mod sync;
pub mod vfs;
pub mod walk;
