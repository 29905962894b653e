//! Verified core of the vault manager: text surgery on Steam's
//! `libraryfolders.vdf`, app-manifest parsing, path derivation and the
//! decisions taken around copies and library scans.

pub mod catalog;
pub mod copy;
pub mod drives;
pub mod metadata;
pub mod paths;
pub mod steam;
pub mod text;
pub mod vdf_isolation;
