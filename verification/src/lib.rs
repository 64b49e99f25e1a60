//! Named Git identities: a store of profiles, the rules for switching,
//! adding, editing and removing them, and the rewriting of the SSH client
//! configuration that makes the active profile's key the one used for
//! `github.com`.
//!
//! Everything here works on plain values. Reading and writing files,
//! prompting and running `git` are left to the caller.

pub mod text;
pub mod profile;
pub mod ssh;
pub mod input;
pub mod store;
pub mod git;
pub mod render;
