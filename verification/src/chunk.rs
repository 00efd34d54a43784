//! The two capabilities shared by the algorithms of this family.

use vstd::prelude::*;

verus! {

/// A scanner that takes a stream slice by slice and remembers what it needs
/// between slices.
pub trait ChunkIncr {
    /// Takes the next slice of the stream. Returns the offset in `data` just
    /// behind the next edge, if one lies in `data`.
    fn push(&mut self, data: &[u8]) -> (r: Option<usize>)
        ensures
            r matches Some(k) ==> k <= data@.len(),
    ;
}

/// A configuration from which an incremental scanner can be made.
pub trait ToChunkIncr {
    type Incr: ChunkIncr;

    /// A scanner at the start of a stream.
    fn to_chunk_incr(&self) -> Self::Incr;
}

/// A chunking algorithm that finds one edge at a time.
pub trait Chunk {
    type SearchState;

    /// The state of a search at the start of a stream.
    fn to_search_state(&self) -> Self::SearchState;

    /// Looks for the next edge in `data`, which continues the stream where
    /// the last call stopped. Returns the edge, if any, and the number of
    /// bytes consumed: up to the edge, or all of `data` where there is none.
    fn find_chunk_edge(&self, state: &mut Self::SearchState, data: &[u8]) -> (r: (
        Option<usize>,
        usize,
    ))
        ensures
            r.1 <= data@.len(),
            r.0 matches Some(k) ==> k == r.1,
            r.0 is None ==> r.1 == data@.len(),
    ;
}

} // verus!
