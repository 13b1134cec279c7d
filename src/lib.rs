//! A local clipboard history: a bounded, ordered index of stored items with
//! recent-duplicate suppression, FIFO eviction and menu-ready previews.
//!
//! The library decides; the caller performs file I/O on its behalf (writing
//! and removing blobs and thumbnails) as the returned values direct.

pub mod text;
pub mod config;
pub mod preview;
pub mod history;
pub mod index;
pub mod laws;
