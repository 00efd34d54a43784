//! Content-defined chunking by counting ascending bytes.
//!
//! A stream of bytes is cut wherever a run of strictly ascending bytes
//! reaches a chosen length. Where the cuts fall depends only on the bytes
//! near them, so an edit moves the cuts around it and leaves the others in
//! place.
//!
//! `model` states the rule on sequences of bytes, `stream` says what it
//! yields on a whole stream, `chunk` holds the two
//! capabilities that every algorithm of this family offers, and `splitter`
//! holds the run counter itself.

pub mod chunk;
pub mod model;
pub mod splitter;
pub mod stream;

pub use chunk::{Chunk, ChunkIncr, ToChunkIncr};
pub use splitter::{Mii, MiiIncr, MiiSearchState};
