//! A content-addressed package store: a binary container that bundles a
//! manifest with hash-identified blobs, and an index of loaded packages.

pub mod assoc;
pub mod container;
pub mod digest;
pub mod error;
pub mod library;
pub mod manifest;
pub mod package;
pub mod page;
