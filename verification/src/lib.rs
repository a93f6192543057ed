pub mod codec;
pub mod index;
pub mod indexer;
pub mod keywords;
pub mod other;
pub mod score;
pub mod search;
pub mod source;
pub mod stop_words;
pub mod text;

pub use index::Index;
pub use index::RevIndexRecord;
pub use indexer::IndexBuilder;
pub use score::Score;
pub use search::SearchEngine;
pub use source::Source;
pub use stop_words::StopWords;

use vstd::prelude::*;

verus! {

/// Failures surfaced by the store, the index builder and the search engine.
#[derive(Clone, Copy, PartialEq, Eq, Structural, Debug)]
pub enum Error {
    /// A transaction, serialization or deserialization failure in the store.
    Storage,
    /// A key was absent on a direct single-key lookup.
    NotFound,
    /// A scored page hash had no matching page record in the store.
    Consistency,
    /// A counter or score exceeded the machine's integer range.
    Overflow,
}

} // verus!
