//! Brute-force password-recovery core.
//!
//! Given a fixed alphabet and candidate length, the library enumerates the
//! whole candidate keyspace, computes MD5 and SHA-256 digests per candidate,
//! and reports which candidates reproduce a supplied set of target digests.
//! A sequential engine and a parallel engine search the same deterministic
//! keyspace and are proved to return the same result collection.

pub mod assoc;
pub mod digest;
pub mod engine;
pub mod keyspace;
pub mod matcher;
pub mod messages;
pub mod results;
pub mod targets;
