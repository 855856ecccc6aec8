//! What each pass computes, step for step: the layering pass, the augmenting
//! search, one round of searches, and the phases repeated to the fixed point.
//! These fix the exact matching that the matcher returns.
use vstd::prelude::*;
use crate::layers::layer_of;
use crate::matching::{adj, matched_count};

verus! {

/// The whole state of a matcher: the two match arrays, the layers and the
/// phase distance.
pub struct MatchState {
    pub l2r: Seq<Option<usize>>,
    pub r2l: Seq<Option<usize>>,
    pub layers: Seq<Option<usize>>,
    pub phase: Option<usize>,
}

/// Unmatched left vertices below `l`, in index order.
pub open spec fn free_prefix(l2r: Seq<Option<usize>>, l: int) -> Seq<usize>
    decreases l,
{
    if l <= 0 {
        seq![]
    } else if l2r[l - 1] is None {
        free_prefix(l2r, l - 1).push((l - 1) as usize)
    } else {
        free_prefix(l2r, l - 1)
    }
}

/// Layering pass over the edges `row[k..]` of one dequeued vertex whose
/// neighbours go on layer `dn`: an unmatched right vertex fixes the phase
/// distance if none is fixed yet; the partner of a matched one is layered and
/// enqueued if it has no layer yet.
pub open spec fn bfs_scan(
    row: Seq<usize>,
    r2l: Seq<Option<usize>>,
    d: Seq<Option<usize>>,
    cur: Option<usize>,
    q: Seq<usize>,
    k: int,
    dn: usize,
) -> (Seq<Option<usize>>, Option<usize>, Seq<usize>)
    decreases row.len() - k,
{
    if k >= row.len() {
        (d, cur, q)
    } else {
        match r2l[row[k] as int] {
            None => bfs_scan(row, r2l, d, if cur is None { Some(dn) } else { cur }, q, k + 1, dn),
            Some(l2) => if d[l2 as int] is None {
                bfs_scan(row, r2l, d.update(l2 as int, Some(dn)), cur, q.push(l2), k + 1, dn)
            } else {
                bfs_scan(row, r2l, d, cur, q, k + 1, dn)
            },
        }
    }
}

/// Whether the layering pass passes over a dequeued vertex on layer `dl`:
/// it has no layer while no phase distance is fixed, or its layer is not
/// below the fixed one.
pub open spec fn bfs_skips(dl: Option<usize>, cur: Option<usize>) -> bool {
    match (dl, cur) {
        (None, None) => true,
        (Some(x), Some(c)) => x >= c,
        _ => false,
    }
}

/// Layering pass from queue position `head` on, over `n` left vertices.
pub open spec fn bfs_from(
    g: Seq<Vec<usize>>,
    r2l: Seq<Option<usize>>,
    n: int,
    d: Seq<Option<usize>>,
    cur: Option<usize>,
    q: Seq<usize>,
    head: int,
) -> (Seq<Option<usize>>, Option<usize>)
    decreases n - head,
{
    if head >= q.len() || head >= n || head < 0 {
        (d, cur)
    } else {
        let l = q[head];
        let dl = d[l as int];
        if bfs_skips(dl, cur) || l >= g.len() {
            bfs_from(g, r2l, n, d, cur, q, head + 1)
        } else {
            let dn: usize = match dl {
                Some(x) => (x + 1) as usize,
                None => 0usize,
            };
            let t = bfs_scan(g[l as int]@, r2l, d, cur, q, 0, dn);
            bfs_from(g, r2l, n, t.0, t.1, t.2, head + 1)
        }
    }
}

/// Layers at the start of a layering pass: 0 for unmatched left vertices,
/// none for matched ones.
pub open spec fn initial_layers(l2r: Seq<Option<usize>>) -> Seq<Option<usize>> {
    Seq::new(l2r.len(), |x: int| if l2r[x] is None { Some(0usize) } else { None })
}

/// The state after a layering pass.
pub open spec fn bfs_state(g: Seq<Vec<usize>>, st: MatchState) -> MatchState {
    let n = st.l2r.len() as int;
    let t = bfs_from(g, st.r2l, n, initial_layers(st.l2r), None, free_prefix(st.l2r, n), 0);
    MatchState { layers: t.0, phase: t.1, ..st }
}

/// Pairs `l` with `r` in both match arrays.
pub open spec fn pair_up(st: MatchState, l: int, r: int) -> MatchState {
    MatchState { l2r: st.l2r.update(l, Some(r as usize)), r2l: st.r2l.update(r, Some(l as usize)), ..st }
}

/// Augmenting search from left vertex `l` over `n` left vertices: whether it
/// found a path, and the state after it.
pub open spec fn dfs_spec(g: Seq<Vec<usize>>, n: int, st: MatchState, l: int) -> (bool, MatchState)
    decreases n - layer_of(st.layers, l), adj(g, l).len() + 1,
{
    if !(0 <= l < n) || layer_of(st.layers, l) >= n || layer_of(st.layers, l) < -1 {
        (false, st)
    } else {
        dfs_scan(g, n, st, l, 0, layer_of(st.layers, l) + 1)
    }
}

/// Augmenting search from `l` over its edges from the `k`-th on, looking for
/// right vertices that lead to layer `want`.
pub open spec fn dfs_scan(g: Seq<Vec<usize>>, n: int, st: MatchState, l: int, k: int, want: int) -> (bool, MatchState)
    decreases n + 1 - want, adj(g, l).len() - k,
{
    if k >= adj(g, l).len() || k < 0 || want > n || want < 0 {
        (false, MatchState { layers: st.layers.update(l, None), ..st })
    } else {
        let r = adj(g, l)[k] as int;
        match st.r2l[r] {
            None => if st.phase is Some && st.phase->Some_0 == want {
                (true, pair_up(st, l, r))
            } else {
                dfs_scan(g, n, st, l, k + 1, want)
            },
            Some(l2) => if st.layers[l2 as int] is Some && st.layers[l2 as int]->Some_0 == want {
                let t = dfs_spec(g, n, st, l2 as int);
                if t.0 {
                    (true, pair_up(t.1, l, r))
                } else {
                    dfs_scan(g, n, t.1, l, k + 1, want)
                }
            } else {
                dfs_scan(g, n, st, l, k + 1, want)
            },
        }
    }
}

/// One round: an augmenting search from every unmatched left vertex from `l`
/// on, in index order.
pub open spec fn round_from(g: Seq<Vec<usize>>, n: int, st: MatchState, l: int) -> MatchState
    decreases n - l,
{
    if l >= n || l < 0 {
        st
    } else if st.l2r[l] is None {
        round_from(g, n, dfs_spec(g, n, st, l).1, l + 1)
    } else {
        round_from(g, n, st, l + 1)
    }
}

/// Layering pass and round, repeated while a layering pass finds an
/// augmenting path: the state the matcher ends in.
pub open spec fn phases(g: Seq<Vec<usize>>, n: int, st: MatchState) -> MatchState
    decreases n - matched_count(st.l2r),
{
    let s1 = bfs_state(g, st);
    if s1.phase is None {
        s1
    } else {
        let s2 = round_from(g, n, s1, 0);
        if matched_count(st.l2r) < matched_count(s2.l2r) <= n {
            phases(g, n, s2)
        } else {
            s2
        }
    }
}

} // verus!
