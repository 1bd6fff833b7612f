//! An indexable sequence container that removes elements without shifting.
//!
//! Removal never moves elements of the backing store. Instead the container
//! grows a translation routine, modelled here as its chronological list of
//! guard thresholds: looking up logical index `i` adds one for every
//! threshold at most `i`. A separate ledger of removed physical slots, kept
//! in ascending order, lets iteration skip vacated slots without running the
//! routine per element.

pub mod list;
pub mod model;

pub use list::JITList;
pub use list::ListError;
