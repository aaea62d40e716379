//! Device discovery and page reconciliation for a system monitor's main window.
//!
//! The library decides which storage block devices become drive pages, which
//! bus events add or remove them, and how the set of network interface pages
//! follows successive listings of the interface directory. The pages
//! themselves are opaque handles owned by a [`registry::PageRegistry`].
//!
//! A second "added" event for a drive that already has a page replaces that
//! page, and the replaced page is handed back to the caller to dispose of.

pub mod network;
pub mod registry;
pub mod storage;
pub mod text;
