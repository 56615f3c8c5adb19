//! Per-document bookmark collections for a page-oriented document viewer.
//!
//! A [`BookmarkStore`] groups named page markers by the document they belong
//! to, tags each document with a content fingerprint at creation time, and
//! serializes itself to a JSON text for persistence.

use vstd::prelude::*;

pub mod codec;
pub mod fingerprint;
pub mod store;

pub use fingerprint::fingerprint;
pub use fingerprint::xxhash64_of;
pub use store::Bookmark;
pub use store::BookmarkMessage;
pub use store::BookmarkSet;
pub use store::BookmarkStore;
pub use store::StoreError;

verus! {

} // verus!
