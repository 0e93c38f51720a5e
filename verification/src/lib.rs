//! Extraction engine for a recursive binary-content carving tool.
//!
//! Every filesystem mutation the engine decides on is first confined to a
//! sandbox root by a pure path algebra, so that untrusted archive contents
//! (`..` chains, absolute paths, hostile symlink targets) can never name a
//! location outside that root.

pub mod engine;
pub mod numerals;
pub mod paths;
pub mod sandbox;
