//! Mathematical model of a bipartite graph and of a matching on it.
use vstd::prelude::*;
use vstd::set_lib::{lemma_len_subset, lemma_map_size};

verus! {

/// Right vertices adjacent to left vertex `l`; a left vertex that the
/// adjacency does not list has no edges.
pub open spec fn adj(g: Seq<Vec<usize>>, l: int) -> Seq<usize> {
    if 0 <= l < g.len() {
        g[l]@
    } else {
        seq![]
    }
}

/// Every right index of the adjacency is below `n_r`.
pub open spec fn right_indices_below(g: Seq<Vec<usize>>, n_r: nat) -> bool {
    forall|l: int, k: int| 0 <= l < g.len() && 0 <= k < g[l]@.len() ==> (#[trigger] g[l]@[k]) < n_r
}

/// The two match arrays are inverse to one another: a left vertex points at a
/// right vertex exactly when that right vertex points back.
pub open spec fn mutual_inverse(l2r: Seq<Option<usize>>, r2l: Seq<Option<usize>>) -> bool {
    &&& forall|l: int| 0 <= l < l2r.len() && (#[trigger] l2r[l]) is Some ==> {
        let r = l2r[l]->Some_0 as int;
        0 <= r < r2l.len() && r2l[r] is Some && r2l[r]->Some_0 as int == l
    }
    &&& forall|r: int| 0 <= r < r2l.len() && (#[trigger] r2l[r]) is Some ==> {
        let l = r2l[r]->Some_0 as int;
        0 <= l < l2r.len() && l2r[l] is Some && l2r[l]->Some_0 as int == r
    }
}

/// Every left vertex whose match differs between `before` and `after` is
/// matched in `after` along an edge of the graph.
pub open spec fn new_pairs_are_edges(
    g: Seq<Vec<usize>>,
    before: Seq<Option<usize>>,
    after: Seq<Option<usize>>,
) -> bool {
    forall|x: int| 0 <= x < after.len() && (#[trigger] after[x]) != before[x]
        ==> after[x] is Some && adj(g, x).contains(after[x]->Some_0)
}

/// Number of matched left vertices: the size of the matching.
pub open spec fn matched_count(m: Seq<Option<usize>>) -> nat
    decreases m.len(),
{
    if m.len() == 0 {
        0
    } else {
        matched_count(m.drop_last()) + if m[m.len() - 1] is Some {
            1nat
        } else {
            0nat
        }
    }
}

/// A matching has at most as many edges as there are left vertices.
pub proof fn lemma_matched_count_bound(m: Seq<Option<usize>>)
    ensures
        matched_count(m) <= m.len(),
    decreases m.len(),
{
    if m.len() > 0 {
        lemma_matched_count_bound(m.drop_last());
    }
}

/// Matching one more left vertex, and keeping which of the others are
/// matched, adds one to the size.
pub proof fn lemma_matched_count_step(m1: Seq<Option<usize>>, m2: Seq<Option<usize>>, l: int)
    requires
        m1.len() == m2.len(),
        0 <= l < m1.len(),
        m1[l] is None,
        m2[l] is Some,
        forall|x: int| 0 <= x < m1.len() && x != l ==> (#[trigger] m1[x] is Some <==> m2[x] is Some),
    ensures
        matched_count(m2) == matched_count(m1) + 1,
    decreases m1.len(),
{
    let n = m1.len();
    if l == n - 1 {
        lemma_matched_count_same(m1.drop_last(), m2.drop_last());
    } else {
        lemma_matched_count_step(m1.drop_last(), m2.drop_last(), l);
    }
}

/// Two sequences with the same matched positions have the same size.
pub proof fn lemma_matched_count_same(m1: Seq<Option<usize>>, m2: Seq<Option<usize>>)
    requires
        m1.len() == m2.len(),
        forall|x: int| 0 <= x < m1.len() ==> (#[trigger] m1[x] is Some <==> m2[x] is Some),
    ensures
        matched_count(m2) == matched_count(m1),
    decreases m1.len(),
{
    if m1.len() > 0 {
        lemma_matched_count_same(m1.drop_last(), m2.drop_last());
    }
}

/// The match arrays are inverse to one another, except that the right vertex
/// `stale` may still point at a left vertex that has since moved on.
pub open spec fn inverse_except(
    l2r: Seq<Option<usize>>,
    r2l: Seq<Option<usize>>,
    stale: Option<usize>,
) -> bool {
    &&& forall|l: int| 0 <= l < l2r.len() && (#[trigger] l2r[l]) is Some ==> {
        let r = l2r[l]->Some_0 as int;
        0 <= r < r2l.len() && r2l[r] is Some && r2l[r]->Some_0 as int == l
    }
    &&& forall|r: int| 0 <= r < r2l.len() && (#[trigger] r2l[r]) is Some && (stale is None || stale->Some_0 as int != r) ==> {
        let l = r2l[r]->Some_0 as int;
        0 <= l < l2r.len() && l2r[l] is Some && l2r[l]->Some_0 as int == r
    }
}

/// `ls` and `ks` describe an alternating walk: it starts at an unmatched left
/// vertex `ls[0]`; from `ls[i]` it takes the non-matching edge to the right
/// vertex `adj(g, ls[i])[ks[i]]`, and from there the matching edge back to
/// `ls[i + 1]`.
pub open spec fn alternating_walk(
    g: Seq<Vec<usize>>,
    l2r: Seq<Option<usize>>,
    r2l: Seq<Option<usize>>,
    ls: Seq<int>,
    ks: Seq<int>,
) -> bool {
    &&& ls.len() == ks.len() + 1
    &&& forall|i: int| 0 <= i < ls.len() ==> 0 <= #[trigger] ls[i] < l2r.len()
    &&& l2r[ls[0]] is None
    &&& forall|i: int| 0 <= i < ks.len() ==> {
        &&& 0 <= #[trigger] ks[i] < adj(g, ls[i]).len()
        &&& adj(g, ls[i])[ks[i]] < r2l.len()
        &&& r2l[adj(g, ls[i])[ks[i]] as int] is Some
        &&& r2l[adj(g, ls[i])[ks[i]] as int]->Some_0 as int == ls[i + 1]
    }
}

/// No alternating walk from an unmatched left vertex reaches an unmatched
/// right vertex: the matching admits no augmenting path.
pub open spec fn no_augmenting_walk(
    g: Seq<Vec<usize>>,
    l2r: Seq<Option<usize>>,
    r2l: Seq<Option<usize>>,
) -> bool {
    forall|ls: Seq<int>, ks: Seq<int>| #[trigger] alternating_walk(g, l2r, r2l, ls, ks) ==> {
        let last = ls[ls.len() - 1];
        forall|k: int| 0 <= k < adj(g, last).len() ==> {
            &&& (#[trigger] adj(g, last)[k]) < r2l.len()
            &&& r2l[adj(g, last)[k] as int] is Some
        }
    }
}

/// `s` holds every unmatched left vertex, and from each of its members every
/// edge leads to a matched right vertex whose partner is again in `s`.
pub open spec fn closed_under_alternation(
    g: Seq<Vec<usize>>,
    l2r: Seq<Option<usize>>,
    r2l: Seq<Option<usize>>,
    s: Set<int>,
) -> bool {
    &&& forall|l: int| 0 <= l < l2r.len() && l2r[l] is None ==> #[trigger] s.contains(l)
    &&& forall|l: int, k: int|
        #![trigger s.contains(l), adj(g, l)[k]]
        s.contains(l) && 0 <= k < adj(g, l).len() ==> {
            &&& adj(g, l)[k] < r2l.len()
            &&& r2l[adj(g, l)[k] as int] is Some
            &&& s.contains(r2l[adj(g, l)[k] as int]->Some_0 as int)
        }
}

proof fn lemma_walk_stays_in(
    g: Seq<Vec<usize>>,
    l2r: Seq<Option<usize>>,
    r2l: Seq<Option<usize>>,
    s: Set<int>,
    ls: Seq<int>,
    ks: Seq<int>,
    i: int,
)
    requires
        closed_under_alternation(g, l2r, r2l, s),
        alternating_walk(g, l2r, r2l, ls, ks),
        0 <= i < ls.len(),
    ensures
        s.contains(ls[i]),
    decreases i,
{
    assert(0 <= ls[0] < l2r.len());
    if i > 0 {
        lemma_walk_stays_in(g, l2r, r2l, s, ls, ks, i - 1);
        let k = ks[i - 1];
        assert(0 <= k < adj(g, ls[i - 1]).len());
        let r = adj(g, ls[i - 1])[k];
        assert(0 <= ls[i] < l2r.len());
        assert(s.contains(r2l[r as int]->Some_0 as int));
    }
}

/// A set of left vertices closed under alternation blocks every augmenting
/// walk.
pub proof fn lemma_closed_set_blocks_walks(
    g: Seq<Vec<usize>>,
    l2r: Seq<Option<usize>>,
    r2l: Seq<Option<usize>>,
    s: Set<int>,
)
    requires
        closed_under_alternation(g, l2r, r2l, s),
    ensures
        no_augmenting_walk(g, l2r, r2l),
{
    assert forall|ls: Seq<int>, ks: Seq<int>| #[trigger]
        alternating_walk(g, l2r, r2l, ls, ks) implies {
        let last = ls[ls.len() - 1];
        forall|k: int| 0 <= k < adj(g, last).len() ==> {
            &&& (#[trigger] adj(g, last)[k]) < r2l.len()
            &&& r2l[adj(g, last)[k] as int] is Some
        }
    } by {
        lemma_walk_stays_in(g, l2r, r2l, s, ls, ks, ls.len() - 1);
        let last = ls[ls.len() - 1];
        assert forall|k: int| 0 <= k < adj(g, last).len() implies {
            &&& (#[trigger] adj(g, last)[k]) < r2l.len()
            &&& r2l[adj(g, last)[k] as int] is Some
        } by {
            assert(s.contains(last));
        }
    }
}

/// `m` is a matching of `g`: each matched left vertex is paired along one of
/// its edges, and no right vertex is paired twice.
pub open spec fn is_matching(g: Seq<Vec<usize>>, m: Seq<Option<usize>>) -> bool {
    &&& forall|x: int| 0 <= x < m.len() && (#[trigger] m[x]) is Some ==> adj(g, x).contains(m[x]->Some_0)
    &&& forall|x: int, y: int|
        0 <= x < m.len() && 0 <= y < m.len() && x != y && (#[trigger] m[x]) is Some && (#[trigger] m[y]) is Some
        ==> m[x] != m[y]
}

/// Positions of `m` that hold a match.
pub open spec fn matched_set(m: Seq<Option<usize>>) -> Set<int> {
    Set::new(|x: int| 0 <= x < m.len() && m[x] is Some)
}

proof fn lemma_matched_set_len(m: Seq<Option<usize>>)
    ensures
        matched_set(m).finite(),
        matched_set(m).len() == matched_count(m),
    decreases m.len(),
{
    if m.len() == 0 {
        assert(matched_set(m) =~= Set::empty());
    } else {
        let m2 = m.drop_last();
        lemma_matched_set_len(m2);
        if m[m.len() - 1] is Some {
            assert(matched_set(m) =~= matched_set(m2).insert(m.len() - 1));
        } else {
            assert(matched_set(m) =~= matched_set(m2));
        }
    }
}

/// Left vertices that some alternating walk reaches.
pub open spec fn reachable(g: Seq<Vec<usize>>, l2r: Seq<Option<usize>>, r2l: Seq<Option<usize>>) -> Set<int> {
    Set::new(|x: int| exists|ls: Seq<int>, ks: Seq<int>|
        #[trigger] alternating_walk(g, l2r, r2l, ls, ks) && ls[ls.len() - 1] == x)
}

proof fn lemma_reachable_closed(g: Seq<Vec<usize>>, l2r: Seq<Option<usize>>, r2l: Seq<Option<usize>>)
    requires
        no_augmenting_walk(g, l2r, r2l),
        mutual_inverse(l2r, r2l),
        l2r.len() == r2l.len(),
    ensures
        closed_under_alternation(g, l2r, r2l, reachable(g, l2r, r2l)),
        forall|x: int| #[trigger] reachable(g, l2r, r2l).contains(x) ==> 0 <= x < l2r.len(),
{
    let s = reachable(g, l2r, r2l);
    assert forall|x: int| #[trigger] s.contains(x) implies 0 <= x < l2r.len() by {
        let (ls, ks) = choose|ls: Seq<int>, ks: Seq<int>|
            #[trigger] alternating_walk(g, l2r, r2l, ls, ks) && ls[ls.len() - 1] == x;
        assert(0 <= ls[ls.len() - 1] < l2r.len());
    }
    assert forall|l: int| 0 <= l < l2r.len() && l2r[l] is None implies #[trigger] s.contains(l) by {
        let ls = seq![l];
        let ks = Seq::<int>::empty();
        assert(alternating_walk(g, l2r, r2l, ls, ks));
    }
    assert forall|l: int, k: int|
        #![trigger s.contains(l), adj(g, l)[k]]
        s.contains(l) && 0 <= k < adj(g, l).len() implies {
            &&& adj(g, l)[k] < r2l.len()
            &&& r2l[adj(g, l)[k] as int] is Some
            &&& s.contains(r2l[adj(g, l)[k] as int]->Some_0 as int)
        } by {
        let (ls, ks) = choose|ls: Seq<int>, ks: Seq<int>|
            #[trigger] alternating_walk(g, l2r, r2l, ls, ks) && ls[ls.len() - 1] == l;
        let r = adj(g, l)[k];
        assert(r < r2l.len() && r2l[r as int] is Some);
        let y = r2l[r as int]->Some_0 as int;
        assert(0 <= y < l2r.len());
        let ls2 = ls.push(y);
        let ks2 = ks.push(k);
        assert forall|i: int| 0 <= i < ls2.len() implies 0 <= #[trigger] ls2[i] < l2r.len() by {
            if i < ls.len() {
                assert(ls2[i] == ls[i]);
            }
        }
        assert forall|i: int| 0 <= i < ks2.len() implies {
            &&& 0 <= #[trigger] ks2[i] < adj(g, ls2[i]).len()
            &&& adj(g, ls2[i])[ks2[i]] < r2l.len()
            &&& r2l[adj(g, ls2[i])[ks2[i]] as int] is Some
            &&& r2l[adj(g, ls2[i])[ks2[i]] as int]->Some_0 as int == ls2[i + 1]
        } by {
            assert(ls2[i] == ls[i]);
            if i < ks.len() {
                assert(ks2[i] == ks[i]);
                assert(ls2[i + 1] == ls[i + 1]);
            }
        }
        assert(ls2[0] == ls[0]);
        assert(alternating_walk(g, l2r, r2l, ls2, ks2));
        assert(ls2[ls2.len() - 1] == y);
    }
}

/// A matching that admits no augmenting walk is maximum: no matching of the
/// graph has more edges.
pub proof fn lemma_no_augmenting_walk_is_maximum(
    g: Seq<Vec<usize>>,
    l2r: Seq<Option<usize>>,
    r2l: Seq<Option<usize>>,
    other: Seq<Option<usize>>,
)
    requires
        l2r.len() == r2l.len(),
        mutual_inverse(l2r, r2l),
        no_augmenting_walk(g, l2r, r2l),
        is_matching(g, other),
        other.len() == l2r.len(),
    ensures
        matched_count(other) <= matched_count(l2r),
{
    let s = reachable(g, l2r, r2l);
    lemma_reachable_closed(g, l2r, r2l);
    let b = matched_set(l2r);
    let a = matched_set(other);
    lemma_matched_set_len(l2r);
    lemma_matched_set_len(other);
    // A vertex cover of the graph with one vertex per matched edge: the left
    // end of each edge outside `s`, the right end (encoded as a negative
    // number) of each edge inside it.
    let cover_of = |x: int| if s.contains(x) { -(l2r[x]->Some_0 as int + 1) } else { x };
    let cover = b.map(cover_of);
    assert(vstd::relations::injective_on(cover_of, b)) by {
        assert forall|x: int, y: int| b.contains(x) && b.contains(y) && #[trigger] cover_of(x) == #[trigger] cover_of(y)
            implies x == y by {
            if s.contains(x) && s.contains(y) {
                let r = l2r[x]->Some_0 as int;
                assert(r2l[r]->Some_0 as int == x);
                assert(r2l[r]->Some_0 as int == y);
            }
        }
    }
    lemma_map_size(b, cover, cover_of);
    let edge_of = |x: int| if s.contains(x) { -(other[x]->Some_0 as int + 1) } else { x };
    assert(vstd::relations::injective_on(edge_of, a)) by {
        assert forall|x: int, y: int| a.contains(x) && a.contains(y) && #[trigger] edge_of(x) == #[trigger] edge_of(y)
            implies x == y by {
            if x != y && s.contains(x) && s.contains(y) {
                assert(other[x] != other[y]);
            }
        }
    }
    lemma_map_size(a, a.map(edge_of), edge_of);
    assert forall|e: int| a.map(edge_of).contains(e) implies cover.contains(e) by {
        let x = choose|x: int| a.contains(x) && edge_of(x) == e;
        if s.contains(x) {
            let r = other[x]->Some_0;
            assert(adj(g, x).contains(r));
            let k = choose|k: int| 0 <= k < adj(g, x).len() && adj(g, x)[k] == r;
            assert(s.contains(x) && 0 <= k < adj(g, x).len());
            let y = r2l[r as int]->Some_0 as int;
            assert(s.contains(y));
            assert(l2r[y] == Some(r));
            assert(b.contains(y) && cover_of(y) == e);
        } else {
            assert(l2r[x] is Some);
            assert(b.contains(x) && cover_of(x) == e);
        }
    }
    lemma_len_subset(a.map(edge_of), cover);
}

/// A matching is no larger than either side of the graph.
pub proof fn lemma_matching_size_bound(l2r: Seq<Option<usize>>, r2l: Seq<Option<usize>>)
    requires
        mutual_inverse(l2r, r2l),
    ensures
        matched_count(l2r) <= l2r.len(),
        matched_count(l2r) <= r2l.len(),
{
    lemma_matched_count_bound(l2r);
    lemma_matched_set_len(l2r);
    let b = matched_set(l2r);
    let right_of = |x: int| l2r[x]->Some_0 as int;
    assert(vstd::relations::injective_on(right_of, b)) by {
        assert forall|x: int, y: int| b.contains(x) && b.contains(y) && #[trigger] right_of(x) == #[trigger] right_of(y)
            implies x == y by {
            let r = l2r[x]->Some_0 as int;
            assert(r2l[r]->Some_0 as int == x);
            assert(r2l[r]->Some_0 as int == y);
        }
    }
    lemma_map_size(b, b.map(right_of), right_of);
    assert forall|r: int| b.map(right_of).contains(r) implies vstd::set_lib::set_int_range(0, r2l.len() as int).contains(r) by {
        let x = choose|x: int| b.contains(x) && right_of(x) == r;
        assert(l2r[x] is Some);
    }
    vstd::set_lib::lemma_int_range(0, r2l.len() as int);
    lemma_len_subset(b.map(right_of), vstd::set_lib::set_int_range(0, r2l.len() as int));
}

/// Where the graph has a matching that covers the smaller side, a matching
/// without augmenting walks covers it too.
pub proof fn lemma_perfect_matching_is_reached(
    g: Seq<Vec<usize>>,
    l2r: Seq<Option<usize>>,
    r2l: Seq<Option<usize>>,
    other: Seq<Option<usize>>,
)
    requires
        l2r.len() == r2l.len(),
        mutual_inverse(l2r, r2l),
        no_augmenting_walk(g, l2r, r2l),
        is_matching(g, other),
        other.len() == l2r.len(),
        matched_count(other) == l2r.len(),
    ensures
        matched_count(l2r) == l2r.len(),
{
    lemma_no_augmenting_walk_is_maximum(g, l2r, r2l, other);
    lemma_matching_size_bound(l2r, r2l);
}

/// A left vertex without edges is unmatched in every matching of the graph.
pub proof fn lemma_isolated_vertex_unmatched(g: Seq<Vec<usize>>, m: Seq<Option<usize>>, l: int)
    requires
        is_matching(g, m),
        0 <= l < m.len(),
        adj(g, l).len() == 0,
    ensures
        m[l] is None,
{
    if m[l] is Some {
        assert(adj(g, l).contains(m[l]->Some_0));
    }
}

} // verus!
