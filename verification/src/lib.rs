//! A minimal embeddable full-text indexing and retrieval engine.
//!
//! The engine ingests structured bundles of titled text pages, builds an
//! in-memory inverted index, serializes it into an immutable byte image with
//! a checksum footer, answers relevance-ranked keyword queries, and fetches a
//! document's stored fields by a compact positional address.

pub mod address;
pub mod error;
pub mod builder;
pub mod bundle;
pub mod codec;
pub mod query;
pub mod search;
pub mod schema;
pub mod segment;
pub mod store;
pub mod strutil;
pub mod tokenizer;

use vstd::prelude::*;

verus! {

/// A configuration record for callers: where the index image lives on disk.
pub struct Config {
    pub index_path: String,
}

impl Default for Config {
    fn default() -> (c: Config)
        ensures
            c.index_path@ == Seq::<char>::empty(),
    {
        Config { index_path: String::new() }
    }
}

} // verus!
