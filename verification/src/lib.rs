//! Verified core of a tool that browses GitHub repositories as a mounted
//! read-only directory tree.

pub mod text;
pub mod auth;
pub mod github;
pub mod fs;
pub mod paths;
pub mod shell;
pub mod install;
pub mod mount;
pub mod index;
