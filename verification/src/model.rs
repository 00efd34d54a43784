//! The run-counting rule, stated on sequences of bytes.

use vstd::prelude::*;

verus! {

/// What the counter remembers between two bytes.
pub struct Run {
    /// The last byte examined, or a stand-in where none was.
    pub prev: u8,
    /// How many bytes in a row were each greater than the one before.
    pub count: nat,
}

/// What one scan of a slice yields.
pub struct Outcome {
    /// The offset just behind the byte that completed a run, if one did.
    pub edge: Option<nat>,
    /// What the counter remembers afterwards.
    pub state: Run,
}

/// The counter before the first byte of a stream: no first byte exceeds the
/// greatest byte value, so the first byte never counts as a rise.
pub open spec fn fresh() -> Run {
    Run { prev: 0xff, count: 0 }
}

/// The counter as a split leaves it: every byte but zero counts as a rise
/// when it comes next.
pub open spec fn after_edge() -> Run {
    Run { prev: 0, count: 0 }
}

/// The counts that can occur: a run of `n` rises ends on a byte of at least
/// `n`, and a run that reaches the threshold `w` is cut at once.
pub open spec fn sound(w: nat, s: Run) -> bool {
    s.count <= s.prev && (w > 0 ==> s.count < w)
}

/// Whether the byte `b` completes a run of `w` rises.
pub open spec fn splits(w: nat, s: Run, b: u8) -> bool {
    b > s.prev && s.count + 1 == w
}

/// The counter after the byte `b`.
pub open spec fn advance(w: nat, s: Run, b: u8) -> Run {
    if splits(w, s, b) {
        after_edge()
    } else if b > s.prev {
        Run { prev: b, count: s.count + 1 }
    } else {
        Run { prev: b, count: 0 }
    }
}

/// The outcome `o`, with its edge counted from `n` bytes earlier.
pub open spec fn shift(o: Outcome, n: nat) -> Outcome {
    Outcome {
        edge: match o.edge {
            Some(k) => Some(k + n),
            None => None,
        },
        state: o.state,
    }
}

/// One scan of `data` from the state `s`: the bytes are taken in order up to
/// and including the first that splits; those behind it are not looked at.
pub open spec fn scan(w: nat, s: Run, data: Seq<u8>) -> Outcome
    decreases data.len(),
{
    if data.len() == 0 {
        Outcome { edge: None, state: s }
    } else if splits(w, s, data[0]) {
        Outcome { edge: Some(1), state: after_edge() }
    } else {
        shift(scan(w, advance(w, s, data[0]), data.skip(1)), 1)
    }
}

/// What a search for the next edge yields.
pub struct Found {
    /// The offset just behind the edge, if there is one.
    pub edge: Option<nat>,
    /// The number of bytes that belong to the chunk so far.
    pub consumed: nat,
    /// What the counter remembers afterwards.
    pub state: Run,
}

/// The search for the next edge in `data`: a scan, after which the counter
/// starts afresh where an edge was found.
pub open spec fn find(w: nat, s: Run, data: Seq<u8>) -> Found {
    match scan(w, s, data).edge {
        Some(k) => Found { edge: Some(k), consumed: k, state: fresh() },
        None => Found { edge: None, consumed: data.len(), state: scan(w, s, data).state },
    }
}

/// A scan of two slices laid end to end is a scan of the first, followed,
/// where that found no edge, by a scan of the second from the state that
/// the first left.
pub proof fn lemma_scan_concat(w: nat, s: Run, a: Seq<u8>, b: Seq<u8>)
    ensures
        scan(w, s, a + b) == if scan(w, s, a).edge is Some {
            scan(w, s, a)
        } else {
            shift(scan(w, scan(w, s, a).state, b), a.len())
        },
    decreases a.len(),
{
    if a.len() == 0 {
        assert(a + b =~= b);
    } else {
        assert((a + b)[0] == a[0]);
        assert((a + b).skip(1) =~= a.skip(1) + b);
        if !splits(w, s, a[0]) {
            lemma_scan_concat(w, advance(w, s, a[0]), a.skip(1), b);
        }
    }
}

/// A scan of a single byte.
pub proof fn lemma_scan_one(w: nat, s: Run, b: u8)
    ensures
        scan(w, s, seq![b]) == (Outcome {
            edge: if splits(w, s, b) { Some(1nat) } else { None },
            state: advance(w, s, b),
        }),
{
    let d = seq![b];
    assert(d.len() == 1 && d[0] == b);
    assert(d.skip(1).len() == 0);
    reveal_with_fuel(scan, 3);
}

/// An edge lies behind at least one byte of the slice and not behind its
/// end, and leaves the counter as a split leaves it.
pub proof fn lemma_scan_edge(w: nat, s: Run, data: Seq<u8>)
    ensures
        scan(w, s, data).edge matches Some(k) ==> 1 <= k <= data.len() && scan(
            w,
            s,
            data,
        ).state == after_edge(),
    decreases data.len(),
{
    if data.len() > 0 && !splits(w, s, data[0]) {
        lemma_scan_edge(w, advance(w, s, data[0]), data.skip(1));
    }
}

/// A scan keeps the counter within the counts that can occur.
pub proof fn lemma_scan_sound(w: nat, s: Run, data: Seq<u8>)
    requires
        sound(w, s),
    ensures
        sound(w, scan(w, s, data).state),
    decreases data.len(),
{
    if data.len() > 0 && !splits(w, s, data[0]) {
        lemma_scan_sound(w, advance(w, s, data[0]), data.skip(1));
    }
}

/// With the threshold zero no byte ever splits: the count is compared with
/// the threshold only after it has grown to one or more.
pub proof fn lemma_zero_never_splits(s: Run, data: Seq<u8>)
    ensures
        scan(0, s, data).edge is None,
    decreases data.len(),
{
    if data.len() > 0 {
        lemma_zero_never_splits(advance(0, s, data[0]), data.skip(1));
    }
}

/// Whether no byte of `data` exceeds the one before it, the first being
/// held against `prev`.
pub open spec fn descends(prev: u8, data: Seq<u8>) -> bool {
    forall|i: int|
        0 <= i < data.len() ==> #[trigger] data[i] <= (if i == 0 {
            prev
        } else {
            data[i - 1]
        })
}

/// Bytes of which none exceeds the one before it hold no edge, whatever the
/// threshold, and leave the count at zero.
pub proof fn lemma_descent_has_no_edge(w: nat, s: Run, data: Seq<u8>)
    requires
        descends(s.prev, data),
    ensures
        scan(w, s, data).edge is None,
        data.len() > 0 ==> scan(w, s, data).state == (Run { prev: data.last(), count: 0 }),
    decreases data.len(),
{
    if data.len() > 0 {
        let rest = data.skip(1);
        assert(data[0] <= s.prev);
        assert forall|i: int| 0 <= i < rest.len() implies #[trigger] rest[i] <= (if i == 0 {
            data[0]
        } else {
            rest[i - 1]
        }) by {
            assert(rest[i] == data[i + 1]);
        }
        lemma_descent_has_no_edge(w, advance(w, s, data[0]), rest);
        if rest.len() > 0 {
            assert(rest.last() == data.last());
        }
    }
}

/// At the start of a stream the first byte is never a rise, so bytes that
/// never rise hold no edge there.
pub proof fn lemma_descent_from_fresh(w: nat, data: Seq<u8>)
    requires
        forall|i: int| 0 < i < data.len() ==> #[trigger] data[i] <= data[i - 1],
    ensures
        scan(w, fresh(), data).edge is None,
{
    lemma_descent_has_no_edge(w, fresh(), data);
}

/// With the threshold one, a counter that has counted nothing splits at the
/// first byte that exceeds the one before it.
pub proof fn lemma_unit_threshold(s: Run, data: Seq<u8>, i: int)
    requires
        s.count == 0,
        0 <= i < data.len(),
        descends(s.prev, data.take(i)),
        data[i] > (if i == 0 {
            s.prev
        } else {
            data[i - 1]
        }),
    ensures
        scan(1, s, data).edge == Some((i + 1) as nat),
{
    let head = data.take(i);
    let tail = data.skip(i);
    lemma_descent_has_no_edge(1, s, head);
    lemma_scan_concat(1, s, head, tail);
    assert(head + tail =~= data);
    if i > 0 {
        assert(head.last() == data[i - 1]);
    }
    assert(tail[0] == data[i]);
    assert(splits(1, scan(1, s, head).state, tail[0]));
}

/// Right behind a split the byte zero is no rise: it neither splits nor
/// counts, whatever the threshold.
pub proof fn lemma_zero_behind_edge(w: nat)
    ensures
        scan(w, after_edge(), seq![0u8]) == (Outcome { edge: None, state: after_edge() }),
{
    lemma_scan_one(w, after_edge(), 0u8);
}

/// Right behind a split every byte but zero is a rise, whatever the byte
/// before the split was.
pub proof fn lemma_rise_behind_edge(w: nat, b: u8)
    requires
        b > 0,
    ensures
        scan(w, after_edge(), seq![b]) == (Outcome {
            edge: if w == 1 {
                Some(1nat)
            } else {
                None
            },
            state: if w == 1 {
                after_edge()
            } else {
                Run { prev: b, count: 1 }
            },
        }),
{
    lemma_scan_one(w, after_edge(), b);
}

/// The byte that the byte at index `i` is held against: the one before it,
/// or `prev` for the first.
pub open spec fn before(prev: u8, data: Seq<u8>, i: int) -> u8 {
    if i <= 0 {
        prev
    } else {
        data[i - 1]
    }
}

/// The number of rises in a row that end with the byte before the offset
/// `n`, those counted before `data` included.
pub open spec fn streak(s: Run, data: Seq<u8>, n: nat) -> nat
    decreases n,
{
    if n == 0 {
        s.count
    } else if data[n - 1] > before(s.prev, data, n - 1) {
        streak(s, data, (n - 1) as nat) + 1
    } else {
        0
    }
}

/// Whether the byte before the offset `n` is a rise that brings the run to
/// `w` rises.
pub open spec fn hits(w: nat, s: Run, data: Seq<u8>, n: nat) -> bool {
    &&& 1 <= n <= data.len()
    &&& data[n - 1] > before(s.prev, data, n - 1)
    &&& streak(s, data, n) == w
}

proof fn lemma_scan_prefix(w: nat, s: Run, data: Seq<u8>, n: nat)
    requires
        n <= data.len(),
    ensures
        match scan(w, s, data.take(n as int)).edge {
            Some(k) => k <= n && hits(w, s, data, k) && forall|j: nat|
                j < k ==> !#[trigger] hits(w, s, data, j),
            None => scan(w, s, data.take(n as int)).state == (Run {
                prev: before(s.prev, data, n as int),
                count: streak(s, data, n),
            }) && forall|j: nat| j <= n ==> !#[trigger] hits(w, s, data, j),
        },
    decreases n,
{
    if n > 0 {
        let m = (n - 1) as nat;
        let seen = data.take(m as int);
        lemma_scan_prefix(w, s, data, m);
        lemma_scan_concat(w, s, seen, seq![data[m as int]]);
        lemma_scan_one(w, scan(w, s, seen).state, data[m as int]);
        assert(seen + seq![data[m as int]] =~= data.take(n as int));
    } else {
        assert(data.take(0).len() == 0);
    }
}

/// The edge that a scan reports is the first offset at which a run reaches
/// `w` rises. Where there is none, the counter holds the last byte and the
/// length of the run that ends there.
pub proof fn lemma_scan_finds_first_hit(w: nat, s: Run, data: Seq<u8>)
    ensures
        match scan(w, s, data).edge {
            Some(k) => hits(w, s, data, k) && forall|j: nat|
                j < k ==> !#[trigger] hits(w, s, data, j),
            None => scan(w, s, data).state == (Run {
                prev: before(s.prev, data, data.len() as int),
                count: streak(s, data, data.len()),
            }) && forall|j: nat| !#[trigger] hits(w, s, data, j),
        },
{
    lemma_scan_prefix(w, s, data, data.len());
    assert(data.take(data.len() as int) =~= data);
}

} // verus!
