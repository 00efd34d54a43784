//! A whole stream, scanned slice by slice.
//!
//! A caller takes a stream apart as it likes and hands the slices in, one
//! after another. Where a scan reports an edge, the caller hands in the rest
//! of that slice again. The edges found this way depend on the stream alone,
//! and a greater threshold finds no more of them.

use vstd::prelude::*;
use crate::model::{advance, find, fresh, scan, splits, Run};
use crate::model::{lemma_scan_concat, lemma_scan_edge, lemma_scan_one};

verus! {

/// The edges of a stretch of a stream, and the counter behind it.
pub struct Trace {
    /// The offset behind each edge, in order, counted from the start of the
    /// stretch.
    pub edges: Seq<nat>,
    /// What the counter remembers behind the last byte.
    pub state: Run,
}

/// The offsets `edges`, counted from `n` bytes earlier.
pub open spec fn shifted(edges: Seq<nat>, n: nat) -> Seq<nat> {
    Seq::new(edges.len(), |i: int| edges[i] + n)
}

/// The trace of two stretches, the second of which begins `n` bytes behind
/// the start of the first.
pub open spec fn joined(first: Trace, second: Trace, n: nat) -> Trace {
    Trace { edges: first.edges + shifted(second.edges, n), state: second.state }
}

/// The edges that scans of `data` report one after another, from the state
/// `s`. Behind each edge the counter is put to `restart` and the rest of
/// `data` is scanned in turn.
pub open spec fn trace(w: nat, s: Run, data: Seq<u8>, restart: Run) -> Trace
    decreases data.len(),
{
    match scan(w, s, data).edge {
        Some(k) => if 1 <= k <= data.len() {
            joined(
                Trace { edges: seq![k], state: restart },
                trace(w, restart, data.skip(k as int), restart),
                k,
            )
        } else {
            Trace { edges: Seq::empty(), state: restart }
        },
        None => Trace { edges: Seq::empty(), state: scan(w, s, data).state },
    }
}

/// The slices `parts` laid end to end.
pub open spec fn whole(parts: Seq<Seq<u8>>) -> Seq<u8>
    decreases parts.len(),
{
    if parts.len() == 0 {
        Seq::empty()
    } else {
        whole(parts.drop_last()) + parts.last()
    }
}

/// The edges found when the slices `parts` are handed in one after another,
/// each scanned as `trace` says, from the state that the one before left.
/// The edges are counted from the start of the first slice.
pub open spec fn trace_parts(w: nat, s: Run, parts: Seq<Seq<u8>>, restart: Run) -> Trace
    decreases parts.len(),
{
    if parts.len() == 0 {
        Trace { edges: Seq::empty(), state: s }
    } else {
        let before = trace_parts(w, s, parts.drop_last(), restart);
        joined(
            before,
            trace(w, before.state, parts.last(), restart),
            whole(parts.drop_last()).len(),
        )
    }
}

/// A stream cut in two yields the edges of the first part, then those of
/// the second part scanned from the state that the first left.
pub proof fn lemma_trace_concat(w: nat, s: Run, a: Seq<u8>, b: Seq<u8>, restart: Run)
    ensures
        trace(w, s, a + b, restart) == joined(
            trace(w, s, a, restart),
            trace(w, trace(w, s, a, restart).state, b, restart),
            a.len(),
        ),
    decreases a.len(),
{
    let first = scan(w, s, a);
    lemma_scan_concat(w, s, a, b);
    lemma_scan_edge(w, s, a);
    match first.edge {
        Some(k) => {
            let rest = a.skip(k as int);
            assert((a + b).skip(k as int) =~= rest + b);
            lemma_trace_concat(w, restart, rest, b, restart);
            let behind = trace(w, trace(w, restart, rest, restart).state, b, restart);
            assert(trace(w, s, a + b, restart).edges =~= trace(w, s, a, restart).edges + shifted(
                behind.edges,
                a.len(),
            ));
        },
        None => {
            let behind = trace(w, first.state, b, restart);
            lemma_scan_edge(w, first.state, b);
            if let Some(k) = scan(w, first.state, b).edge {
                assert((a + b).skip((k + a.len()) as int) =~= b.skip(k as int));
            }
            assert(trace(w, s, a + b, restart).edges =~= shifted(behind.edges, a.len()));
            assert(trace(w, s, a, restart).edges + shifted(behind.edges, a.len()) =~= shifted(
                behind.edges,
                a.len(),
            ));
        },
    }
}

/// However a stream is taken apart into slices, handing them in one after
/// another yields the edges, and leaves the counter in the state, that the
/// stream yields when it is handed in as one slice.
pub proof fn lemma_parts_do_not_matter(w: nat, s: Run, parts: Seq<Seq<u8>>, restart: Run)
    ensures
        trace_parts(w, s, parts, restart) == trace(w, s, whole(parts), restart),
    decreases parts.len(),
{
    if parts.len() == 0 {
        assert(trace(w, s, whole(parts), restart).edges =~= Seq::<nat>::empty());
    } else {
        lemma_parts_do_not_matter(w, s, parts.drop_last(), restart);
        lemma_trace_concat(w, s, whole(parts.drop_last()), parts.last(), restart);
    }
}

/// The edges of a stream, as a search finds them: the first by one search,
/// the others by a search of what that one left unconsumed.
pub proof fn lemma_trace_by_find(w: nat, s: Run, data: Seq<u8>)
    ensures
        trace(w, s, data, fresh()) == match find(w, s, data).edge {
            Some(k) => joined(
                Trace { edges: seq![k], state: fresh() },
                trace(
                    w,
                    find(w, s, data).state,
                    data.skip(find(w, s, data).consumed as int),
                    fresh(),
                ),
                k,
            ),
            None => Trace { edges: Seq::empty(), state: find(w, s, data).state },
        },
{
    lemma_scan_edge(w, s, data);
}

/// The number of edges that a search finds in a stream, from its start.
pub open spec fn edge_count(w: nat, data: Seq<u8>) -> nat {
    trace(w, fresh(), data, fresh()).edges.len()
}

/// One more byte behind the first `n` adds an edge where it splits, and
/// none where it does not.
proof fn lemma_trace_next(w: nat, data: Seq<u8>, n: nat)
    requires
        n < data.len(),
    ensures
        ({
            let seen = trace(w, fresh(), data.take(n as int), fresh());
            let next = trace(w, fresh(), data.take((n + 1) as int), fresh());
            if splits(w, seen.state, data[n as int]) {
                next.edges.len() == seen.edges.len() + 1 && next.state == fresh()
            } else {
                next.edges.len() == seen.edges.len() && next.state == advance(
                    w,
                    seen.state,
                    data[n as int],
                )
            }
        }),
{
    let b = data[n as int];
    let one = seq![b];
    let seen = trace(w, fresh(), data.take(n as int), fresh());
    lemma_trace_concat(w, fresh(), data.take(n as int), one, fresh());
    assert(data.take(n as int) + one =~= data.take((n + 1) as int));
    lemma_scan_one(w, seen.state, b);
    assert(one.skip(1).len() == 0);
    reveal_with_fuel(trace, 2);
}

/// Where a search with the threshold `x` stands after the byte `last`,
/// which is the `q`-th of a stretch of bytes that each exceed the one
/// before: it has found `e` edges in the stretch and taken `phi` bytes
/// since.
spec fn in_rise(x: nat, st: Run, last: u8, q: nat, e: nat, phi: nat) -> bool {
    &&& q == e * (x + 1) + phi
    &&& phi <= x
    &&& if phi == 0 {
        st == fresh()
    } else {
        st == Run { prev: last, count: (phi - 1) as nat }
    }
}

/// Within one stretch, the greater threshold has found no more edges.
proof fn lemma_fewer_edges_in_rise(w: nat, v: nat, q: nat, ew: nat, pw: nat, ev: nat, pv: nat)
    requires
        w <= v,
        q == ew * (w + 1) + pw,
        q == ev * (v + 1) + pv,
        pw <= w,
    ensures
        ev <= ew,
{
    assert(ev >= ew + 1 ==> ev * (v + 1) >= ew * (w + 1) + w + 1) by (nonlinear_arith)
        requires
            w <= v,
    ;
}

/// Two searches of the first `n` bytes, side by side: they stand in the
/// same stretch, and before that stretch the greater threshold had found
/// no more edges. Returns the place in the stretch, then for each search
/// the edges found in it and the bytes taken since.
proof fn lemma_searches_side_by_side(w: nat, v: nat, data: Seq<u8>, n: nat) -> (r: (
    nat,
    nat,
    nat,
    nat,
    nat,
))
    requires
        1 <= w <= v,
        1 <= n <= data.len(),
    ensures
        ({
            let tw = trace(w, fresh(), data.take(n as int), fresh());
            let tv = trace(v, fresh(), data.take(n as int), fresh());
            &&& in_rise(w, tw.state, data[n - 1], r.0, r.1, r.2)
            &&& in_rise(v, tv.state, data[n - 1], r.0, r.3, r.4)
            &&& tv.edges.len() + r.1 <= tw.edges.len() + r.3
        }),
    decreases n,
{
    let m = (n - 1) as nat;
    lemma_trace_next(w, data, m);
    lemma_trace_next(v, data, m);
    if m == 0 {
        assert(data.take(0).len() == 0);
        (1, 0, 1, 0, 1)
    } else {
        let (q, ew, pw, ev, pv) = lemma_searches_side_by_side(w, v, data, m);
        if data[m as int] > data[m - 1] {
            let (ew2, pw2) = if pw == w {
                (ew + 1, 0nat)
            } else {
                (ew, pw + 1)
            };
            let (ev2, pv2) = if pv == v {
                (ev + 1, 0nat)
            } else {
                (ev, pv + 1)
            };
            assert((ew + 1) * (w + 1) == ew * (w + 1) + w + 1) by (nonlinear_arith);
            assert((ev + 1) * (v + 1) == ev * (v + 1) + v + 1) by (nonlinear_arith);
            (q + 1, ew2, pw2, ev2, pv2)
        } else {
            lemma_fewer_edges_in_rise(w, v, q, ew, pw, ev, pv);
            assert(0 * (w + 1) == 0 && 0 * (v + 1) == 0) by (nonlinear_arith);
            (1, 0, 1, 0, 1)
        }
    }
}

/// In a stream searched from its start, a greater threshold finds no more
/// edges than a smaller one, unless the smaller one is zero: the threshold
/// zero finds no edge at all.
pub proof fn lemma_greater_threshold_fewer_edges(w: nat, v: nat, data: Seq<u8>)
    requires
        1 <= w <= v,
    ensures
        edge_count(v, data) <= edge_count(w, data),
{
    if data.len() > 0 {
        let (q, ew, pw, ev, pv) = lemma_searches_side_by_side(w, v, data, data.len());
        lemma_fewer_edges_in_rise(w, v, q, ew, pw, ev, pv);
        assert(data.take(data.len() as int) =~= data);
    }
}

} // verus!
