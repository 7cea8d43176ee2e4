//! A hierarchical, copy-on-write image catalog.
//!
//! The crate models a directory tree of images as an immutable gallery tree.
//! Every logical mutation produces a fresh root that shares unchanged
//! subtrees with the old one, so concurrent readers holding an older
//! snapshot are never disturbed.

pub mod context;
pub mod db;
pub mod file;
pub mod gallery;
pub mod paths;
pub mod web;
