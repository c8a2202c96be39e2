//! Segment-based incremental backups.
//!
//! A segment is a named directory that is backed up on its own. A run
//! fingerprints each segment and archives those whose fingerprint has
//! changed since the segment was last archived.
//!
//! The library decides and computes; it touches no file and starts no
//! process. Its caller reads directory trees into [`tree::Entry`] values,
//! carries out the plans and actions that the library returns, and hands
//! back what happened.
//!
//! - [`path`] and [`text`]: paths as text, compared by whole components.
//! - [`tree`]: a directory tree as a value, and the walk over it.
//! - [`exclusion`] and [`matcher`]: what a walk leaves out.
//! - [`hasher`]: the fingerprint of a tree.
//! - [`store`]: the fingerprints of the last run, and their file.
//! - [`rolling_writer`]: the sink that divides an archive among parts.
//! - [`archive`]: the plan of an archive.
//! - [`script`]: what the run of an outside script means.
//! - [`backup`]: what a run does with each segment, and after a failure.
//! - [`logger`]: the path of the log file.
//!
//! Three modules state what the library relies on without proof:
//! [`digest`] for the hasher, [`globs`] for glob sets and [`clock`] for
//! the date; [`text`] does so for the one way in which strings grow.

pub mod text;
pub mod path;
pub mod tree;
pub mod exclusion;
pub mod matcher;
pub mod hasher;
pub mod store;
pub mod rolling_writer;
pub mod archive;
pub mod script;
pub mod backup;
pub mod logger;
pub mod digest;
pub mod globs;
pub mod clock;
