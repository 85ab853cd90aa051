//! A small persistent keyed-list store: named collections of key/value
//! string pairs, held in memory and optionally rendered to a structured
//! text file format for persistence.
//!
//! * [`collection::BoomCollection`] is an ordered mapping from string keys
//!   to string values, backed by a sequence with linear-scan lookup.
//! * [`store::BoomData`] is an ordered mapping from collection names to
//!   collections, with the same discipline.
//! * [`facade::Boom`] owns a store together with an optional backing file
//!   path and an auto-save flag; the file reads and writes themselves are
//!   left to the caller, which hands text in and takes text out.

pub mod collection;
pub mod store;
pub mod codec;
pub mod facade;
pub mod listing;

pub use collection::BoomCollection;
pub use collection::BoomEntry;
pub use store::BoomData;
pub use facade::Boom;
