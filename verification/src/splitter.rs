//! The run counter: a split after `w` bytes in a row that each exceed the
//! one before.

use vstd::prelude::*;
use vstd::std_specs::convert::FromSpecImpl;
use crate::chunk::{Chunk, ChunkIncr, ToChunkIncr};
use crate::model::{find, fresh, scan, sound, Outcome, Run};
use crate::model::{lemma_scan_concat, lemma_scan_one};

verus! {

/// The run-counting splitter and its one parameter.
///
/// C. Zhang et al., "MII: A Novel Content Defined Chunking Algorithm for
/// Finding Incremental Data in Data Synchronization," IEEE Access, vol. 7,
/// pp. 86932-86945, 2019.
#[derive(Debug)]
pub struct Mii {
    w: u64,
}

/// The counter that scans a stream slice by slice.
#[derive(Debug)]
pub struct MiiIncr {
    /// After this many rises in a row the stream is split.
    w: u64,
    /// The last byte examined, if any.
    prev: u8,
    /// How many bytes in a row were greater than the one before.
    increment: u64,
}

/// A search for one edge after another, over one stream.
#[derive(Debug)]
pub struct MiiSearchState {
    incr: MiiIncr,
}

/// An offset as a number of the model.
pub open spec fn offset(r: Option<usize>) -> Option<nat> {
    match r {
        Some(k) => Some(k as nat),
        None => None,
    }
}

impl Mii {
    /// The number of rises after which the stream is split.
    pub closed spec fn threshold(&self) -> nat {
        self.w as nat
    }

    /// A splitter that splits after `w` rises in a row. With `w` zero it
    /// never splits.
    pub fn with_w(w: u64) -> (r: Self)
        ensures
            r.threshold() == w,
    {
        Self { w }
    }
}

impl Clone for Mii {
    fn clone(&self) -> (r: Self)
        ensures
            r == *self,
    {
        Mii { w: self.w }
    }
}

impl Default for Mii {
    /// The threshold of five is the one the paper draws its graphs with.
    fn default() -> (r: Self)
        ensures
            r.threshold() == 5,
    {
        Mii::with_w(5)
    }
}

impl View for MiiIncr {
    type V = Run;

    closed spec fn view(&self) -> Run {
        Run { prev: self.prev, count: self.increment as nat }
    }
}

impl MiiIncr {
    /// The number of rises after which the stream is split.
    pub closed spec fn threshold(&self) -> nat {
        self.w as nat
    }

    #[verifier::type_invariant]
    spec fn inv(&self) -> bool {
        sound(self.w as nat, Run { prev: self.prev, count: self.increment as nat })
    }

    /// Stores what the counter remembers.
    fn store(&mut self, prev: u8, increment: u64)
        requires
            sound(old(self).threshold(), Run { prev, count: increment as nat }),
        ensures
            final(self).threshold() == old(self).threshold(),
            final(self)@ == (Run { prev, count: increment as nat }),
    {
        self.increment = 0;
        self.prev = prev;
        self.increment = increment;
    }

    /// Puts the counter back to the start of a stream.
    pub fn reset(&mut self)
        ensures
            final(self).threshold() == old(self).threshold(),
            final(self)@ == fresh(),
            sound(final(self).threshold(), final(self)@),
    {
        self.store(0xff, 0);
    }
}

impl ChunkIncr for MiiIncr {
    /// Scans `data`, which continues the stream. Returns the offset just
    /// behind the byte that completed a run of `w` rises, and looks at no
    /// byte behind it.
    fn push(&mut self, data: &[u8]) -> (r: Option<usize>)
        ensures
            r matches Some(k) ==> 1 <= k,
            final(self).threshold() == old(self).threshold(),
            offset(r) == scan(old(self).threshold(), old(self)@, data@).edge,
            final(self)@ == scan(old(self).threshold(), old(self)@, data@).state,
            sound(final(self).threshold(), final(self)@),
            data@.len() == 0 ==> r is None && final(self)@ == old(self)@,
    {
        proof {
            use_type_invariant(&*self);
        }
        let w: u64 = self.w;
        let ghost start = self@;
        let mut prev: u8 = self.prev;
        let mut increment: u64 = self.increment;
        let mut i: usize = 0;
        while i < data.len()
            invariant
                i <= data@.len(),
                w == self.threshold(),
                self.threshold() == old(self).threshold(),
                start == old(self)@,
                sound(w as nat, Run { prev, count: increment as nat }),
                scan(w as nat, start, data@.take(i as int)) == (Outcome {
                    edge: None,
                    state: Run { prev, count: increment as nat },
                }),
            decreases data@.len() - i,
        {
            let b: u8 = data[i];
            proof {
                let seen = data@.take(i as int);
                lemma_scan_concat(w as nat, start, seen, seq![b]);
                lemma_scan_one(w as nat, Run { prev, count: increment as nat }, b);
                assert(seen + seq![b] =~= data@.take(i + 1));
            }
            if b > prev {
                increment += 1;
                if increment == w {
                    proof {
                        lemma_scan_concat(
                            w as nat,
                            start,
                            data@.take(i + 1),
                            data@.skip(i + 1),
                        );
                        assert(data@.take(i + 1) + data@.skip(i + 1) =~= data@);
                    }
                    self.store(0, 0);
                    return Some(i + 1);
                }
            } else {
                increment = 0;
            }
            prev = b;
            i += 1;
        }
        proof {
            assert(data@.take(i as int) =~= data@);
        }
        self.store(prev, increment);
        None
    }
}

impl From<Mii> for MiiIncr {
    /// The counter at the start of a stream, with the threshold of `p`.
    fn from(p: Mii) -> (r: Self)
        ensures
            r.threshold() == p.threshold(),
            r@ == fresh(),
            sound(r.threshold(), r@),
    {
        MiiIncr {
            w: p.w,
            // the greatest byte value: the first byte examined is no rise
            prev: 0xff,
            increment: 0,
        }
    }
}

impl FromSpecImpl<Mii> for MiiIncr {
    open spec fn obeys_from_spec() -> bool {
        true
    }

    closed spec fn from_spec(p: Mii) -> Self {
        MiiIncr { w: p.w, prev: 0xff, increment: 0 }
    }
}

impl From<&Mii> for MiiIncr {
    /// The counter at the start of a stream, with the threshold of `src`.
    fn from(src: &Mii) -> (r: Self)
        ensures
            r.threshold() == src.threshold(),
            r@ == fresh(),
            sound(r.threshold(), r@),
    {
        MiiIncr::from(src.clone())
    }
}

impl FromSpecImpl<&Mii> for MiiIncr {
    open spec fn obeys_from_spec() -> bool {
        true
    }

    closed spec fn from_spec(src: &Mii) -> Self {
        MiiIncr { w: src.w, prev: 0xff, increment: 0 }
    }
}

impl ToChunkIncr for Mii {
    type Incr = MiiIncr;

    /// A counter at the start of a stream.
    fn to_chunk_incr(&self) -> (r: MiiIncr)
        ensures
            r.threshold() == self.threshold(),
            r@ == fresh(),
            sound(r.threshold(), r@),
    {
        MiiIncr::from(self)
    }
}

impl View for MiiSearchState {
    type V = Run;

    closed spec fn view(&self) -> Run {
        self.incr@
    }
}

impl MiiSearchState {
    /// The number of rises after which the stream is split.
    pub closed spec fn threshold(&self) -> nat {
        self.incr.threshold()
    }

    /// Puts the search back to the start of a stream.
    pub fn reset(&mut self)
        ensures
            final(self).threshold() == old(self).threshold(),
            final(self)@ == fresh(),
            sound(final(self).threshold(), final(self)@),
    {
        self.incr.reset();
    }

    /// Scans `data` as the counter does, and leaves the counter as the scan
    /// left it.
    pub fn push(&mut self, data: &[u8]) -> (r: Option<usize>)
        ensures
            r matches Some(k) ==> 1 <= k <= data@.len(),
            final(self).threshold() == old(self).threshold(),
            offset(r) == scan(old(self).threshold(), old(self)@, data@).edge,
            final(self)@ == scan(old(self).threshold(), old(self)@, data@).state,
            sound(final(self).threshold(), final(self)@),
            data@.len() == 0 ==> r is None && final(self)@ == old(self)@,
    {
        self.incr.push(data)
    }
}

impl From<MiiIncr> for MiiSearchState {
    /// A search that goes on where the counter `incr` stands.
    fn from(incr: MiiIncr) -> (r: Self)
        ensures
            r.threshold() == incr.threshold(),
            r@ == incr@,
    {
        Self { incr }
    }
}

impl FromSpecImpl<MiiIncr> for MiiSearchState {
    open spec fn obeys_from_spec() -> bool {
        true
    }

    closed spec fn from_spec(incr: MiiIncr) -> Self {
        MiiSearchState { incr }
    }
}

impl Chunk for Mii {
    type SearchState = MiiSearchState;

    /// A search at the start of a stream.
    fn to_search_state(&self) -> (r: MiiSearchState)
        ensures
            r.threshold() == self.threshold(),
            r@ == fresh(),
            sound(r.threshold(), r@),
    {
        MiiSearchState::from(MiiIncr::from(self))
    }

    /// Looks for the next edge in `data` with the threshold of `state`.
    /// Where one is found, the bytes up to it are consumed and the search
    /// starts afresh; the caller hands in the rest of `data` again. Where
    /// none is found, all of `data` is consumed.
    fn find_chunk_edge(&self, state: &mut MiiSearchState, data: &[u8]) -> (r: (
        Option<usize>,
        usize,
    ))
        ensures
            final(state).threshold() == old(state).threshold(),
            offset(r.0) == find(old(state).threshold(), old(state)@, data@).edge,
            r.1 == find(old(state).threshold(), old(state)@, data@).consumed,
            final(state)@ == find(old(state).threshold(), old(state)@, data@).state,
            sound(final(state).threshold(), final(state)@),
            data@.len() == 0 ==> r.0 is None && r.1 == 0 && final(state)@ == old(state)@,
    {
        match state.push(data) {
            Some(v) => {
                state.reset();
                (Some(v), v)
            },
            None => (None, data.len()),
        }
    }
}

} // verus!
