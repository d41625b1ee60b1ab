//! A verified core for an RSS/Atom reader: feed ingestion, heuristic
//! content selection, image localization naming, and a deduplicated
//! article store.

pub mod bytes;
pub mod store;
pub mod html;
pub mod assets;
pub mod feed;
