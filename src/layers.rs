//! Layered view of the graph used by the two passes: layers of left vertices,
//! the walks that the layering pass builds, and the paths that the augmenting
//! pass can still take.
use vstd::prelude::*;
use crate::matching::{adj, alternating_walk, no_augmenting_walk};

verus! {

/// Layer of a left vertex as an integer, with -1 for "unreached".
pub open spec fn layer_of(d: Seq<Option<usize>>, x: int) -> int {
    match d[x] {
        Some(v) => v as int,
        None => -1,
    }
}

/// `ps` and `qs` describe a path of the current layered graph that the
/// augmenting pass can still take: each `ps[i]` is on the layer one above
/// `ps[i - 1]`, the edge `adj(g, ps[i])[qs[i]]` leads to a right vertex matched
/// to `ps[i + 1]`, the last edge leads to an unmatched right vertex, and the
/// path's length is the phase distance `c`.
pub open spec fn live_path(
    g: Seq<Vec<usize>>,
    d: Seq<Option<usize>>,
    r2l: Seq<Option<usize>>,
    c: Option<usize>,
    ps: Seq<int>,
    qs: Seq<int>,
) -> bool {
    &&& ps.len() == qs.len()
    &&& ps.len() >= 1
    &&& forall|i: int| 0 <= i < ps.len() ==> {
        &&& 0 <= #[trigger] ps[i] < d.len()
        &&& d[ps[i]] is Some
        &&& d[ps[i]]->Some_0 == d[ps[0]]->Some_0 + i
    }
    &&& forall|i: int| 0 <= i < qs.len() ==> {
        &&& 0 <= #[trigger] qs[i] < adj(g, ps[i]).len()
        &&& adj(g, ps[i])[qs[i]] < r2l.len()
    }
    &&& forall|i: int| 0 <= i < qs.len() - 1 ==> {
        &&& r2l[adj(g, ps[i])[#[trigger] qs[i]] as int] is Some
        &&& r2l[adj(g, ps[i])[qs[i]] as int]->Some_0 as int == ps[i + 1]
    }
    &&& r2l[adj(g, ps[ps.len() - 1])[qs[qs.len() - 1]] as int] is None
    &&& c is Some
    &&& c->Some_0 == d[ps[0]]->Some_0 + ps.len()
}

/// A live path keeps being live from its `i`-th vertex on.
pub proof fn lemma_live_suffix(
    g: Seq<Vec<usize>>,
    d: Seq<Option<usize>>,
    r2l: Seq<Option<usize>>,
    c: Option<usize>,
    ps: Seq<int>,
    qs: Seq<int>,
    i: int,
)
    requires
        live_path(g, d, r2l, c, ps, qs),
        0 <= i < ps.len(),
    ensures
        live_path(g, d, r2l, c, ps.subrange(i, ps.len() as int), qs.subrange(i, qs.len() as int)),
{
    let ps2 = ps.subrange(i, ps.len() as int);
    let qs2 = qs.subrange(i, qs.len() as int);
    assert(ps2[0] == ps[i]);
    assert forall|j: int| 0 <= j < ps2.len() implies {
        &&& 0 <= #[trigger] ps2[j] < d.len()
        &&& d[ps2[j]] is Some
        &&& d[ps2[j]]->Some_0 == d[ps2[0]]->Some_0 + j
    } by {
        assert(ps2[j] == ps[i + j]);
    }
    assert forall|j: int| 0 <= j < qs2.len() implies {
        &&& 0 <= #[trigger] qs2[j] < adj(g, ps2[j]).len()
        &&& adj(g, ps2[j])[qs2[j]] < r2l.len()
    } by {
        assert(qs2[j] == qs[i + j]);
        assert(ps2[j] == ps[i + j]);
    }
    assert forall|j: int| 0 <= j < qs2.len() - 1 implies {
        &&& r2l[adj(g, ps2[j])[#[trigger] qs2[j]] as int] is Some
        &&& r2l[adj(g, ps2[j])[qs2[j]] as int]->Some_0 as int == ps2[j + 1]
    } by {
        assert(qs2[j] == qs[i + j]);
        assert(ps2[j] == ps[i + j]);
        assert(ps2[j + 1] == ps[i + j + 1]);
    }
    assert(ps2[ps2.len() - 1] == ps[ps.len() - 1]);
    assert(qs2[qs2.len() - 1] == qs[qs.len() - 1]);
}

/// Taking layers away never makes a path live.
pub proof fn lemma_live_fewer_layers(
    g: Seq<Vec<usize>>,
    d: Seq<Option<usize>>,
    d2: Seq<Option<usize>>,
    r2l: Seq<Option<usize>>,
    c: Option<usize>,
)
    requires
        d2.len() == d.len(),
        forall|x: int| 0 <= x < d.len() ==> #[trigger] d2[x] == d[x] || d2[x] is None,
    ensures
        forall|ps: Seq<int>, qs: Seq<int>| #[trigger] live_path(g, d2, r2l, c, ps, qs) ==> live_path(g, d, r2l, c, ps, qs),
{
    assert forall|ps: Seq<int>, qs: Seq<int>| #[trigger] live_path(g, d2, r2l, c, ps, qs) implies live_path(g, d, r2l, c, ps, qs) by {
        assert(d2[ps[0]] == d[ps[0]]);
        assert forall|i: int| 0 <= i < ps.len() implies {
            &&& 0 <= #[trigger] ps[i] < d.len()
            &&& d[ps[i]] is Some
            &&& d[ps[i]]->Some_0 == d[ps[0]]->Some_0 + i
        } by {
            assert(d2[ps[i]] == d[ps[i]]);
        }
    }
}

/// `ps` and `qs` describe a walk of the layering pass: it starts at an
/// unmatched left vertex on layer 0, `ps[i]` is on layer `i`, and the edge
/// `adj(g, ps[i])[qs[i]]` leads to a right vertex matched to `ps[i + 1]`.
pub open spec fn layered_walk(
    g: Seq<Vec<usize>>,
    d: Seq<Option<usize>>,
    l2r: Seq<Option<usize>>,
    r2l: Seq<Option<usize>>,
    ps: Seq<int>,
    qs: Seq<int>,
) -> bool {
    &&& ps.len() == qs.len() + 1
    &&& forall|i: int| 0 <= i < ps.len() ==> {
        &&& 0 <= #[trigger] ps[i] < d.len()
        &&& ps[i] < l2r.len()
        &&& d[ps[i]] is Some
        &&& d[ps[i]]->Some_0 == i
    }
    &&& l2r[ps[0]] is None
    &&& forall|i: int| 0 <= i < qs.len() ==> {
        &&& 0 <= #[trigger] qs[i] < adj(g, ps[i]).len()
        &&& adj(g, ps[i])[qs[i]] < r2l.len()
        &&& r2l[adj(g, ps[i])[qs[i]] as int] is Some
        &&& r2l[adj(g, ps[i])[qs[i]] as int]->Some_0 as int == ps[i + 1]
    }
}

/// Layers that are already set and stay set keep walks and live paths.
pub proof fn lemma_more_layers(
    g: Seq<Vec<usize>>,
    d: Seq<Option<usize>>,
    d2: Seq<Option<usize>>,
    l2r: Seq<Option<usize>>,
    r2l: Seq<Option<usize>>,
    c: Option<usize>,
)
    requires
        d2.len() == d.len(),
        forall|x: int| 0 <= x < d.len() && (#[trigger] d[x]) is Some ==> d2[x] == d[x],
    ensures
        forall|ps: Seq<int>, qs: Seq<int>| #[trigger] layered_walk(g, d, l2r, r2l, ps, qs) ==> layered_walk(g, d2, l2r, r2l, ps, qs),
        forall|ps: Seq<int>, qs: Seq<int>| #[trigger] live_path(g, d, r2l, c, ps, qs) ==> live_path(g, d2, r2l, c, ps, qs),
{
    assert forall|ps: Seq<int>, qs: Seq<int>| #[trigger] layered_walk(g, d, l2r, r2l, ps, qs) implies layered_walk(g, d2, l2r, r2l, ps, qs) by {
        assert forall|i: int| 0 <= i < ps.len() implies {
            &&& 0 <= #[trigger] ps[i] < d2.len()
            &&& ps[i] < l2r.len()
            &&& d2[ps[i]] is Some
            &&& d2[ps[i]]->Some_0 == i
        } by {
            assert(d[ps[i]] is Some);
        }
    }
    assert forall|ps: Seq<int>, qs: Seq<int>| #[trigger] live_path(g, d, r2l, c, ps, qs) implies live_path(g, d2, r2l, c, ps, qs) by {
        assert(d[ps[0]] is Some);
        assert forall|i: int| 0 <= i < ps.len() implies {
            &&& 0 <= #[trigger] ps[i] < d2.len()
            &&& d2[ps[i]] is Some
            &&& d2[ps[i]]->Some_0 == d2[ps[0]]->Some_0 + i
        } by {
            assert(d[ps[i]] is Some);
        }
    }
}

/// A layered walk grows by one matched step to a vertex not yet layered.
pub proof fn lemma_extend_walk(
    g: Seq<Vec<usize>>,
    d: Seq<Option<usize>>,
    l2r: Seq<Option<usize>>,
    r2l: Seq<Option<usize>>,
    ps: Seq<int>,
    qs: Seq<int>,
    k: int,
    l2: int,
    dn: usize,
)
    requires
        layered_walk(g, d, l2r, r2l, ps, qs),
        0 <= k < adj(g, ps[ps.len() - 1]).len(),
        adj(g, ps[ps.len() - 1])[k] < r2l.len(),
        r2l[adj(g, ps[ps.len() - 1])[k] as int] is Some,
        r2l[adj(g, ps[ps.len() - 1])[k] as int]->Some_0 as int == l2,
        0 <= l2 < d.len(),
        l2 < l2r.len(),
        d[l2] is None,
        dn == ps.len(),
    ensures
        layered_walk(g, d.update(l2, Some(dn)), l2r, r2l, ps.push(l2), qs.push(k)),
{
    let d2 = d.update(l2, Some(dn));
    let ps2 = ps.push(l2);
    let qs2 = qs.push(k);
    assert forall|i: int| 0 <= i < ps2.len() implies {
        &&& 0 <= #[trigger] ps2[i] < d2.len()
        &&& ps2[i] < l2r.len()
        &&& d2[ps2[i]] is Some
        &&& d2[ps2[i]]->Some_0 == i
    } by {
        if i < ps.len() {
            assert(ps2[i] == ps[i]);
            assert(d[ps[i]] is Some);
        }
    }
    assert forall|i: int| 0 <= i < qs2.len() implies {
        &&& 0 <= #[trigger] qs2[i] < adj(g, ps2[i]).len()
        &&& adj(g, ps2[i])[qs2[i]] < r2l.len()
        &&& r2l[adj(g, ps2[i])[qs2[i]] as int] is Some
        &&& r2l[adj(g, ps2[i])[qs2[i]] as int]->Some_0 as int == ps2[i + 1]
    } by {
        assert(ps2[i] == ps[i]);
        if i < qs.len() {
            assert(qs2[i] == qs[i]);
            assert(ps2[i + 1] == ps[i + 1]);
        } else {
            assert(qs2[i] == k);
            assert(ps2[i] == ps[ps.len() - 1]);
            assert(ps2[i + 1] == l2);
        }
    }
    assert(ps2[0] == ps[0]);
}

/// A layered walk whose last vertex has an unmatched neighbour is a live path.
pub proof fn lemma_walk_to_live(
    g: Seq<Vec<usize>>,
    d: Seq<Option<usize>>,
    l2r: Seq<Option<usize>>,
    r2l: Seq<Option<usize>>,
    ps: Seq<int>,
    qs: Seq<int>,
    k: int,
    c: usize,
)
    requires
        layered_walk(g, d, l2r, r2l, ps, qs),
        0 <= k < adj(g, ps[ps.len() - 1]).len(),
        adj(g, ps[ps.len() - 1])[k] < r2l.len(),
        r2l[adj(g, ps[ps.len() - 1])[k] as int] is None,
        c == ps.len(),
    ensures
        live_path(g, d, r2l, Some(c), ps, qs.push(k)),
        l2r[ps[0]] is None,
{
    let qs2 = qs.push(k);
    assert(d[ps[0]] is Some);
    assert forall|i: int| 0 <= i < qs2.len() implies {
        &&& 0 <= #[trigger] qs2[i] < adj(g, ps[i]).len()
        &&& adj(g, ps[i])[qs2[i]] < r2l.len()
    } by {
        if i < qs.len() {
            assert(qs2[i] == qs[i]);
        }
    }
    assert forall|i: int| 0 <= i < qs2.len() - 1 implies {
        &&& r2l[adj(g, ps[i])[#[trigger] qs2[i]] as int] is Some
        &&& r2l[adj(g, ps[i])[qs2[i]] as int]->Some_0 as int == ps[i + 1]
    } by {
        assert(qs2[i] == qs[i]);
    }
}

/// A live path from an unmatched left vertex is an augmenting walk.
pub proof fn lemma_live_is_augmenting(
    g: Seq<Vec<usize>>,
    d: Seq<Option<usize>>,
    l2r: Seq<Option<usize>>,
    r2l: Seq<Option<usize>>,
    c: Option<usize>,
    ps: Seq<int>,
    qs: Seq<int>,
)
    requires
        live_path(g, d, r2l, c, ps, qs),
        d.len() == l2r.len(),
        l2r[ps[0]] is None,
    ensures
        !no_augmenting_walk(g, l2r, r2l),
{
    let ks = qs.drop_last();
    assert forall|i: int| 0 <= i < ks.len() implies {
        &&& 0 <= #[trigger] ks[i] < adj(g, ps[i]).len()
        &&& adj(g, ps[i])[ks[i]] < r2l.len()
        &&& r2l[adj(g, ps[i])[ks[i]] as int] is Some
        &&& r2l[adj(g, ps[i])[ks[i]] as int]->Some_0 as int == ps[i + 1]
    } by {
        assert(ks[i] == qs[i]);
    }
    assert(alternating_walk(g, l2r, r2l, ps, ks));
    let last = ps[ps.len() - 1];
    let k = qs[qs.len() - 1];
    assert(0 <= k < adj(g, last).len());
    assert(r2l[adj(g, last)[k] as int] is None);
}


/// Right vertices along a path: the one that edge `qs[i]` of `ps[i]` leads to.
pub open spec fn path_rights(g: Seq<Vec<usize>>, ps: Seq<int>, qs: Seq<int>) -> Seq<int> {
    Seq::new(ps.len(), |i: int| adj(g, ps[i])[qs[i]] as int)
}

/// The match arrays went from `(l2r0, r2l0)` to `(l2r1, r2l1)` by pairing each
/// left vertex of the path with the right vertex its path edge leads to, and
/// nothing else changed.
pub open spec fn flipped_along(
    g: Seq<Vec<usize>>,
    l2r0: Seq<Option<usize>>,
    r2l0: Seq<Option<usize>>,
    l2r1: Seq<Option<usize>>,
    r2l1: Seq<Option<usize>>,
    ps: Seq<int>,
    qs: Seq<int>,
) -> bool {
    let rs = path_rights(g, ps, qs);
    &&& forall|i: int| 0 <= i < ps.len() ==> {
        &&& 0 <= #[trigger] ps[i] < l2r1.len()
        &&& 0 <= rs[i] < r2l1.len()
        &&& l2r1[ps[i]] is Some
        &&& l2r1[ps[i]]->Some_0 as int == rs[i]
        &&& r2l1[rs[i]] is Some
        &&& r2l1[rs[i]]->Some_0 as int == ps[i]
    }
    &&& forall|x: int| 0 <= x < l2r1.len() && !ps.contains(x) ==> #[trigger] l2r1[x] == l2r0[x]
    &&& forall|r: int| 0 <= r < r2l1.len() && !rs.contains(r) ==> #[trigger] r2l1[r] == r2l0[r]
}

/// A live path from the partner of `l`'s `k`-th neighbour, one layer above
/// `l`, extends to a live path from `l`.
pub proof fn lemma_live_prepend(
    g: Seq<Vec<usize>>,
    d: Seq<Option<usize>>,
    r2l: Seq<Option<usize>>,
    c: Option<usize>,
    ps: Seq<int>,
    qs: Seq<int>,
    l: int,
    k: int,
)
    requires
        live_path(g, d, r2l, c, ps, qs),
        0 <= l < d.len(),
        d[l] is Some,
        d[ps[0]]->Some_0 == d[l]->Some_0 + 1,
        0 <= k < adj(g, l).len(),
        adj(g, l)[k] < r2l.len(),
        r2l[adj(g, l)[k] as int] is Some,
        r2l[adj(g, l)[k] as int]->Some_0 as int == ps[0],
    ensures
        live_path(g, d, r2l, c, seq![l] + ps, seq![k] + qs),
{
    let ps2 = seq![l] + ps;
    let qs2 = seq![k] + qs;
    assert(ps2[0] == l);
    assert forall|i: int| 0 <= i < ps2.len() implies {
        &&& 0 <= #[trigger] ps2[i] < d.len()
        &&& d[ps2[i]] is Some
        &&& d[ps2[i]]->Some_0 == d[ps2[0]]->Some_0 + i
    } by {
        if i > 0 {
            assert(ps2[i] == ps[i - 1]);
        }
    }
    assert forall|i: int| 0 <= i < qs2.len() implies {
        &&& 0 <= #[trigger] qs2[i] < adj(g, ps2[i]).len()
        &&& adj(g, ps2[i])[qs2[i]] < r2l.len()
    } by {
        if i > 0 {
            assert(qs2[i] == qs[i - 1]);
            assert(ps2[i] == ps[i - 1]);
        }
    }
    assert forall|i: int| 0 <= i < qs2.len() - 1 implies {
        &&& r2l[adj(g, ps2[i])[#[trigger] qs2[i]] as int] is Some
        &&& r2l[adj(g, ps2[i])[qs2[i]] as int]->Some_0 as int == ps2[i + 1]
    } by {
        assert(ps2[i + 1] == ps[i]);
        if i > 0 {
            assert(qs2[i] == qs[i - 1]);
            assert(ps2[i] == ps[i - 1]);
        }
    }
    assert(ps2[ps2.len() - 1] == ps[ps.len() - 1]);
    assert(qs2[qs2.len() - 1] == qs[qs.len() - 1]);
}

/// Flipping a path and then pairing `l` with its `k`-th neighbour `r` flips
/// the path with `l` in front, provided `l` and `r` are not on the path.
pub proof fn lemma_flip_prepend(
    g: Seq<Vec<usize>>,
    l2r0: Seq<Option<usize>>,
    r2l0: Seq<Option<usize>>,
    l2r1: Seq<Option<usize>>,
    r2l1: Seq<Option<usize>>,
    ps: Seq<int>,
    qs: Seq<int>,
    l: int,
    k: int,
)
    requires
        flipped_along(g, l2r0, r2l0, l2r1, r2l1, ps, qs),
        ps.len() == qs.len(),
        0 <= l < l2r1.len(),
        l <= usize::MAX,
        0 <= k < adj(g, l).len(),
        0 <= adj(g, l)[k] < r2l1.len(),
        !ps.contains(l),
        !path_rights(g, ps, qs).contains(adj(g, l)[k] as int),
    ensures
        flipped_along(
            g, l2r0, r2l0,
            l2r1.update(l, Some(adj(g, l)[k])),
            r2l1.update(adj(g, l)[k] as int, Some(l as usize)),
            seq![l] + ps, seq![k] + qs,
        ),
{
    let r = adj(g, l)[k] as int;
    let ps2 = seq![l] + ps;
    let qs2 = seq![k] + qs;
    let rs = path_rights(g, ps, qs);
    let rs2 = path_rights(g, ps2, qs2);
    let l2r2 = l2r1.update(l, Some(adj(g, l)[k]));
    let r2l2 = r2l1.update(r, Some(l as usize));
    assert(rs2[0] == r);
    assert forall|i: int| 0 < i < ps2.len() implies rs2[i] == rs[i - 1] && ps2[i] == ps[i - 1] by {
        assert(ps2[i] == ps[i - 1]);
        assert(qs2[i] == qs[i - 1]);
    }
    assert forall|i: int| 0 <= i < ps2.len() implies {
        &&& 0 <= #[trigger] ps2[i] < l2r2.len()
        &&& 0 <= rs2[i] < r2l2.len()
        &&& l2r2[ps2[i]] is Some
        &&& l2r2[ps2[i]]->Some_0 as int == rs2[i]
        &&& r2l2[rs2[i]] is Some
        &&& r2l2[rs2[i]]->Some_0 as int == ps2[i]
    } by {
        if i == 0 {
            assert(ps2[0] == l);
        } else {
            assert(ps.contains(ps[i - 1]));
            assert(rs.contains(rs[i - 1]));
            assert(ps[i - 1] != l);
            assert(rs[i - 1] != r);
        }
    }
    assert forall|x: int| 0 <= x < l2r2.len() && !ps2.contains(x) implies #[trigger] l2r2[x] == l2r0[x] by {
        assert(ps2[0] == l);
        assert forall|i: int| 0 <= i < ps.len() implies ps[i] != x by {
            assert(ps2[i + 1] == ps[i]);
        }
    }
    assert forall|y: int| 0 <= y < r2l2.len() && !rs2.contains(y) implies #[trigger] r2l2[y] == r2l0[y] by {
        assert(rs2[0] == r);
        assert forall|i: int| 0 <= i < rs.len() implies rs[i] != y by {
            assert(rs2[i + 1] == rs[i]);
        }
    }
}


/// The match arrays went from `(l2r0, r2l0)` to `(l2r1, r2l1)` by flipping a
/// live path from `l` of the layers `d` and phase distance `c`.
#[verifier::opaque]
pub open spec fn flips_live_path(
    g: Seq<Vec<usize>>,
    d: Seq<Option<usize>>,
    c: Option<usize>,
    l2r0: Seq<Option<usize>>,
    r2l0: Seq<Option<usize>>,
    l2r1: Seq<Option<usize>>,
    r2l1: Seq<Option<usize>>,
    l: int,
) -> bool {
    exists|ps: Seq<int>, qs: Seq<int>| {
        &&& #[trigger] live_path(g, d, r2l0, c, ps, qs)
        &&& ps[0] == l
        &&& flipped_along(g, l2r0, r2l0, l2r1, r2l1, ps, qs)
    }
}

/// Pairing `l` with an unmatched `k`-th neighbour, when that closes a path of
/// the phase distance, flips a one-edge live path.
pub proof fn lemma_search_base(
    g: Seq<Vec<usize>>,
    d: Seq<Option<usize>>,
    l2r: Seq<Option<usize>>,
    r2l: Seq<Option<usize>>,
    c: Option<usize>,
    l: int,
    k: int,
)
    requires
        0 <= l < d.len(),
        l < l2r.len(),
        l <= usize::MAX,
        d[l] is Some,
        c is Some,
        c->Some_0 == d[l]->Some_0 + 1,
        0 <= k < adj(g, l).len(),
        adj(g, l)[k] < r2l.len(),
        r2l[adj(g, l)[k] as int] is None,
    ensures
        flips_live_path(
            g, d, c, l2r, r2l,
            l2r.update(l, Some(adj(g, l)[k])),
            r2l.update(adj(g, l)[k] as int, Some(l as usize)),
            l,
        ),
{
    let ps = seq![l];
    let qs = seq![k];
    let r = adj(g, l)[k] as int;
    assert(ps[0] == l);
    assert(path_rights(g, ps, qs)[0] == r);
    assert forall|x: int| 0 <= x < l2r.len() && !ps.contains(x) implies x != l by {
        assert(ps[0] == l);
    }
    assert forall|y: int| 0 <= y < r2l.len() && !path_rights(g, ps, qs).contains(y) implies y != r by {
        assert(path_rights(g, ps, qs)[0] == r);
    }
    assert(live_path(g, d, r2l, c, ps, qs));
    assert(flipped_along(
        g, l2r, r2l, l2r.update(l, Some(adj(g, l)[k])), r2l.update(r, Some(l as usize)), ps, qs,
    ));
    reveal(flips_live_path);
}

/// A successful search one layer up, followed by pairing `l` with its `k`-th
/// neighbour, flips a live path from `l` as the layers stood before.
pub proof fn lemma_search_step(
    g: Seq<Vec<usize>>,
    d0: Seq<Option<usize>>,
    d1: Seq<Option<usize>>,
    l2r0: Seq<Option<usize>>,
    r2l0: Seq<Option<usize>>,
    l2r2: Seq<Option<usize>>,
    r2l2: Seq<Option<usize>>,
    c: Option<usize>,
    l2: int,
    l: int,
    k: int,
)
    requires
        d1.len() == d0.len(),
        forall|x: int| 0 <= x < d0.len() ==> #[trigger] d1[x] == d0[x] || d1[x] is None,
        0 <= l < d0.len(),
        l <= usize::MAX,
        l < l2r2.len(),
        d0[l] is Some,
        d1[l] == d0[l],
        flips_live_path(g, d1, c, l2r0, r2l0, l2r2, r2l2, l2),
        0 <= l2 < d1.len(),
        d1[l2] is Some,
        d1[l2]->Some_0 == d0[l]->Some_0 + 1,
        0 <= k < adj(g, l).len(),
        adj(g, l)[k] < r2l0.len(),
        adj(g, l)[k] < r2l2.len(),
        r2l0[adj(g, l)[k] as int] is Some,
        r2l0[adj(g, l)[k] as int]->Some_0 as int == l2,
    ensures
        flips_live_path(
            g, d0, c, l2r0, r2l0,
            l2r2.update(l, Some(adj(g, l)[k])),
            r2l2.update(adj(g, l)[k] as int, Some(l as usize)),
            l,
        ),
{
    reveal(flips_live_path);
    let (ps, qs) = choose|ps: Seq<int>, qs: Seq<int>| {
        &&& #[trigger] live_path(g, d1, r2l0, c, ps, qs)
        &&& ps[0] == l2
        &&& flipped_along(g, l2r0, r2l0, l2r2, r2l2, ps, qs)
    };
    let r = adj(g, l)[k] as int;
    lemma_live_fewer_layers(g, d0, d1, r2l0, c);
    assert(live_path(g, d0, r2l0, c, ps, qs));
    lemma_live_prepend(g, d0, r2l0, c, ps, qs, l, k);
    assert forall|i: int| 0 <= i < ps.len() implies #[trigger] ps[i] != l by {
        assert(d1[ps[i]]->Some_0 == d1[ps[0]]->Some_0 + i);
    }
    assert(!ps.contains(l));
    let rs = path_rights(g, ps, qs);
    assert forall|i: int| 0 <= i < ps.len() implies #[trigger] rs[i] != r by {
        if i < ps.len() - 1 {
            assert(d1[ps[i + 1]]->Some_0 == d1[ps[0]]->Some_0 + i + 1);
            assert(r2l0[rs[i]]->Some_0 as int == ps[i + 1]);
        } else {
            assert(rs[i] == adj(g, ps[ps.len() - 1])[qs[qs.len() - 1]] as int);
        }
    }
    assert(!rs.contains(r));
    lemma_flip_prepend(g, l2r0, r2l0, l2r2, r2l2, ps, qs, l, k);
    assert(live_path(g, d0, r2l0, c, seq![l] + ps, seq![k] + qs));
    assert((seq![l] + ps)[0] == l);
}

} // verus!
