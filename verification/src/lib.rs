//! Job orchestration for document extraction and asset packaging.
//!
//! A job is submitted with either a remote location or raw document text,
//! interpreted by a site-specific extraction capability selected by origin,
//! and results in either a single text artifact or an ordered archive of
//! fetched assets.  The job table, the dispatch decisions and the
//! deterministic packaging pipeline are verified; network and file system
//! effects are performed by an unverified driver around this crate.

pub mod downloader;
pub mod parser;
pub mod service;
pub mod strutil;
