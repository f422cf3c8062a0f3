//! Archives externally published software releases, distributed as compressed
//! tar archives, into content-addressed repositories: one commit per released
//! version, trees rebuilt from archive contents, tags named after versions.

pub mod archive;
pub mod errors;
pub mod history;
pub mod meta;
pub mod records;
pub mod repo;
pub mod tree;
pub mod version;
