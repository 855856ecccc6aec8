//! The matcher: match arrays, layering pass, augmenting pass.
use vstd::prelude::*;
use crate::layers::{
    flips_live_path, lemma_search_base, lemma_search_step, layer_of, layered_walk, lemma_extend_walk, lemma_live_fewer_layers, lemma_live_is_augmenting,
    lemma_live_suffix, lemma_more_layers, lemma_walk_to_live, live_path,
};
use crate::matching::{
    adj, closed_under_alternation, inverse_except, is_matching, lemma_closed_set_blocks_walks,
    lemma_matched_count_bound, lemma_matched_count_step, lemma_no_augmenting_walk_is_maximum,
    matched_count, mutual_inverse, new_pairs_are_edges, no_augmenting_walk, right_indices_below,
};
use crate::search::{
    bfs_from, bfs_scan, bfs_state, dfs_scan, dfs_spec, free_prefix, initial_layers, phases, round_from,
    MatchState,
};
use vstd::set_lib::{lemma_int_range, lemma_len_subset, set_int_range};

verus! {

/// Why a matching computation refused its input.
#[derive(Debug, Clone, Copy, PartialEq, Eq, Structural)]
pub enum MatchError {
    /// The adjacency lists more left vertices than the matcher was made for.
    InvalidInput,
    /// An adjacency entry names a right vertex beyond the matcher's capacity.
    IndexOutOfBounds,
}

/// State of a Hopcroft–Karp computation over `n` left and `n` right vertices.
pub struct HopcroftKarp {
    cur_d: Option<usize>,
    l2d: Vec<Option<usize>>,
    matching_l2r: Vec<Option<usize>>,
    matching_r2l: Vec<Option<usize>>,
}

impl HopcroftKarp {
    /// Number of vertices on each side.
    pub closed spec fn size(&self) -> nat {
        self.matching_l2r@.len()
    }

    /// Left-to-right match array.
    pub closed spec fn left_matches(&self) -> Seq<Option<usize>> {
        self.matching_l2r@
    }

    /// Right-to-left match array.
    pub closed spec fn right_matches(&self) -> Seq<Option<usize>> {
        self.matching_r2l@
    }

    /// The whole state: match arrays, layers and phase distance.
    pub closed spec fn state(&self) -> MatchState {
        MatchState {
            l2r: self.matching_l2r@,
            r2l: self.matching_r2l@,
            layers: self.l2d@,
            phase: self.cur_d,
        }
    }

    /// Layer of each left vertex in the current phase.
    pub closed spec fn layers(&self) -> Seq<Option<usize>> {
        self.l2d@
    }

    /// Length of the shortest augmenting path of the current phase, once found.
    pub closed spec fn phase(&self) -> Option<usize> {
        self.cur_d
    }

    /// Well-formedness: sizes agree, the match arrays are mutual inverses,
    /// and every layer is below the vertex count.
    pub closed spec fn wf(&self) -> bool {
        let n = self.matching_l2r@.len();
        &&& self.l2d@.len() == n
        &&& self.matching_r2l@.len() == n
        &&& mutual_inverse(self.matching_l2r@, self.matching_r2l@)
        &&& forall|x: int| 0 <= x < n && (#[trigger] self.l2d@[x]) is Some ==> self.l2d@[x]->Some_0 < n
    }

    /// A matcher for `n` left and `n` right vertices, with nothing matched.
    pub fn new(n: usize) -> (r: Self)
        ensures
            r.wf(),
            r.size() == n,
            r.left_matches().len() == n,
            r.right_matches().len() == n,
            r.layers().len() == n,
            forall|i: int| 0 <= i < n ==> #[trigger] r.layers()[i] == None::<usize>,
            r.phase() == None::<usize>,
            forall|i: int| 0 <= i < n ==> #[trigger] r.left_matches()[i] == None::<usize>,
            forall|i: int| 0 <= i < n ==> #[trigger] r.right_matches()[i] == None::<usize>,
    {
        Self {
            cur_d: None,
            l2d: vec![None; n],
            matching_l2r: vec![None; n],
            matching_r2l: vec![None; n],
        }
    }

    /// Extends the current matching to a maximum one for the adjacency
    /// `graph_l2r`, where entry `l` lists the right vertices adjacent to left
    /// vertex `l` and left vertices past its end have no edges. Returns the
    /// left-to-right match array; the state it ends in is exactly `phases`
    /// of the state it started from, so which maximum matching comes out is
    /// fixed by the order of the searches. An adjacency with more left vertices than
    /// the matcher holds is refused with `InvalidInput`; one that names a
    /// right vertex beyond it with `IndexOutOfBounds`; either way before any
    /// state changes.
    pub fn get_maximum_matching(
        &mut self,
        graph_l2r: &[Vec<usize>],
    ) -> (res: Result<&Vec<Option<usize>>, MatchError>)
        requires
            old(self).wf(),
        ensures
            final(self).wf(),
            final(self).size() == old(self).size(),
            res is Ok <==> graph_l2r@.len() <= old(self).size() && right_indices_below(graph_l2r@, old(self).size()),
            res == Err::<&Vec<Option<usize>>, MatchError>(MatchError::InvalidInput)
                <==> graph_l2r@.len() > old(self).size(),
            res == Err::<&Vec<Option<usize>>, MatchError>(MatchError::IndexOutOfBounds)
                <==> graph_l2r@.len() <= old(self).size() && !right_indices_below(graph_l2r@, old(self).size()),
            res is Err ==> *final(self) == *old(self),
            final(self).left_matches().len() == old(self).size(),
            final(self).right_matches().len() == old(self).size(),
            res is Ok ==> {
                let m = final(self).left_matches();
                &&& res->Ok_0@ == m
                &&& final(self).state() == phases(graph_l2r@, old(self).size() as int, old(self).state())
                &&& mutual_inverse(m, final(self).right_matches())
                &&& no_augmenting_walk(graph_l2r@, m, final(self).right_matches())
                &&& forall|other: Seq<Option<usize>>|
                    #[trigger] is_matching(graph_l2r@, other) && other.len() == m.len()
                    ==> matched_count(other) <= matched_count(m)
                &&& new_pairs_are_edges(graph_l2r@, old(self).left_matches(), m)
                &&& forall|r: int| 0 <= r < final(self).right_matches().len()
                    && (#[trigger] old(self).right_matches()[r]) is Some ==> final(self).right_matches()[r] is Some
                &&& is_matching(graph_l2r@, old(self).left_matches()) ==> is_matching(graph_l2r@, m)
                &&& no_augmenting_walk(graph_l2r@, old(self).left_matches(), old(self).right_matches()) ==> {
                    &&& m == old(self).left_matches()
                    &&& final(self).right_matches() == old(self).right_matches()
                }
            },
    {
        let n = self.matching_l2r.len();
        if graph_l2r.len() > n {
            return Err(MatchError::InvalidInput);
        }
        let mut l: usize = 0;
        while l < graph_l2r.len()
            invariant
                *self == *old(self),
                self.wf(),
                n == self.size(),
                graph_l2r@.len() <= n,
                0 <= l <= graph_l2r@.len(),
                forall|x: int, k: int| 0 <= x < l && 0 <= k < graph_l2r@[x]@.len()
                    ==> (#[trigger] graph_l2r@[x]@[k]) < n,
            decreases graph_l2r@.len() - l,
        {
            let row = &graph_l2r[l];
            let mut k: usize = 0;
            while k < row.len()
                invariant
                    *self == *old(self),
                    self.wf(),
                    n == self.size(),
                    graph_l2r@.len() <= n,
                    0 <= l < graph_l2r@.len(),
                    row@ == graph_l2r@[l as int]@,
                    0 <= k <= row@.len(),
                    forall|x: int, j: int| 0 <= x < l && 0 <= j < graph_l2r@[x]@.len()
                        ==> (#[trigger] graph_l2r@[x]@[j]) < n,
                    forall|j: int| 0 <= j < k ==> (#[trigger] graph_l2r@[l as int]@[j]) < n,
                decreases row@.len() - k,
            {
                if row[k] >= n {
                    assert(graph_l2r@[l as int]@[k as int] >= n);
                    return Err(MatchError::IndexOutOfBounds);
                }
                k += 1;
            }
            l += 1;
        }
        self.run(graph_l2r);
        proof {
            let m = self.matching_l2r@;
            let rm = self.matching_r2l@;
            assert forall|other: Seq<Option<usize>>|
                #[trigger] is_matching(graph_l2r@, other) && other.len() == m.len()
                implies matched_count(other) <= matched_count(m) by {
                lemma_no_augmenting_walk_is_maximum(graph_l2r@, m, rm, other);
            }
            if is_matching(graph_l2r@, old(self).matching_l2r@) {
                let m0 = old(self).matching_l2r@;
                assert forall|x: int, y: int|
                    0 <= x < m.len() && 0 <= y < m.len() && x != y && (#[trigger] m[x]) is Some && (#[trigger] m[y]) is Some
                    implies m[x] != m[y] by {
                    let r = m[x]->Some_0 as int;
                    assert(rm[r]->Some_0 as int == x);
                    assert(rm[m[y]->Some_0 as int]->Some_0 as int == y);
                }
                assert forall|x: int| 0 <= x < m.len() && (#[trigger] m[x]) is Some implies adj(graph_l2r@, x).contains(m[x]->Some_0) by {
                    if m[x] == m0[x] {
                        assert(m0[x] is Some);
                    }
                }
            }
        }
        Ok(&self.matching_l2r)
    }

    /// Alternates layering and augmenting passes until a layering pass finds
    /// no augmenting path, and returns how many augmentations were made. The
    /// state it ends in is exactly `phases` of the one it started from.
    fn run(&mut self, g: &[Vec<usize>]) -> (count: usize)
        requires
            old(self).wf(),
            g@.len() <= old(self).size(),
            right_indices_below(g@, old(self).size()),
        ensures
            final(self).wf(),
            final(self).size() == old(self).size(),
            final(self).state() == phases(g@, old(self).size() as int, old(self).state()),
            no_augmenting_walk(g@, final(self).matching_l2r@, final(self).matching_r2l@),
            matched_count(final(self).matching_l2r@) == matched_count(old(self).matching_l2r@) + count,
            new_pairs_are_edges(g@, old(self).matching_l2r@, final(self).matching_l2r@),
            forall|r: int| 0 <= r < final(self).matching_r2l@.len() && (#[trigger] old(self).matching_r2l@[r]) is Some
                ==> final(self).matching_r2l@[r] is Some,
            no_augmenting_walk(g@, old(self).matching_l2r@, old(self).matching_r2l@) ==> {
                &&& final(self).matching_l2r@ == old(self).matching_l2r@
                &&& final(self).matching_r2l@ == old(self).matching_r2l@
            },
    {
        let n = self.matching_l2r.len();
        let mut matchings: usize = 0;
        let ghost mut pre = self.state();
        let mut found = self.bfs(g);
        while found
            invariant
                phases(g@, n as int, pre) == phases(g@, n as int, old(self).state()),
                self.state() == bfs_state(g@, pre),
                found == self.cur_d is Some,
                self.wf(),
                old(self).wf(),
                n == self.matching_l2r@.len(),
                n == old(self).matching_l2r@.len(),
                g@.len() <= n,
                right_indices_below(g@, n as nat),
                matched_count(self.matching_l2r@) == matched_count(old(self).matching_l2r@) + matchings,
                forall|r: int| 0 <= r < self.matching_r2l@.len() && (#[trigger] old(self).matching_r2l@[r]) is Some
                    ==> self.matching_r2l@[r] is Some,
                new_pairs_are_edges(g@, old(self).matching_l2r@, self.matching_l2r@),
                no_augmenting_walk(g@, old(self).matching_l2r@, old(self).matching_r2l@) ==> {
                    &&& self.matching_l2r@ == old(self).matching_l2r@
                    &&& self.matching_r2l@ == old(self).matching_r2l@
                },
                !found ==> no_augmenting_walk(g@, self.matching_l2r@, self.matching_r2l@),
                found ==> !no_augmenting_walk(g@, self.matching_l2r@, self.matching_r2l@),
                found ==> exists|ps: Seq<int>, qs: Seq<int>|
                    #[trigger] live_path(g@, self.l2d@, self.matching_r2l@, self.cur_d, ps, qs)
                    && self.matching_l2r@[ps[0]] is None,
            decreases n - matched_count(self.matching_l2r@),
        {
            proof {
                lemma_matched_count_bound(self.matching_l2r@);
            }
            let ghost s1 = self.state();
            let ghost m0 = matchings;
            let ghost l2r0 = self.matching_l2r@;
            let ghost r2l0 = self.matching_r2l@;
            let ghost (ps_w, qs_w) = choose|ps: Seq<int>, qs: Seq<int>|
                #[trigger] live_path(g@, self.l2d@, self.matching_r2l@, self.cur_d, ps, qs)
                && self.matching_l2r@[ps[0]] is None;
            let mut l: usize = 0;
            while l < n
                invariant
                    self.wf(),
                    n == self.matching_l2r@.len(),
                    n == old(self).matching_l2r@.len(),
                    g@.len() <= n,
                    right_indices_below(g@, n as nat),
                    0 <= l <= n,
                    m0 <= matchings,
                    matched_count(self.matching_l2r@) == matched_count(old(self).matching_l2r@) + matchings,
                    forall|r: int| 0 <= r < self.matching_r2l@.len() && (#[trigger] old(self).matching_r2l@[r]) is Some
                        ==> self.matching_r2l@[r] is Some,
                    new_pairs_are_edges(g@, old(self).matching_l2r@, self.matching_l2r@),
                    !no_augmenting_walk(g@, old(self).matching_l2r@, old(self).matching_r2l@),
                    round_from(g@, n as int, self.state(), l as int) == round_from(g@, n as int, s1, 0),
                    matchings == m0 ==> {
                        &&& self.matching_l2r@ == l2r0
                        &&& self.matching_r2l@ == r2l0
                        &&& live_path(g@, self.l2d@, self.matching_r2l@, self.cur_d, ps_w, qs_w)
                        &&& self.matching_l2r@[ps_w[0]] is None
                        &&& ps_w[0] >= l
                    },
                decreases n - l,
            {
                if self.matching_l2r[l].is_none() {
                    let ghost l2r1 = self.matching_l2r@;
                    if self.dfs(g, l) {
                        proof {
                            lemma_matched_count_step(l2r1, self.matching_l2r@, l as int);
                            lemma_matched_count_bound(self.matching_l2r@);
                        }
                        matchings += 1;
                    }
                }
                l += 1;
            }
            proof {
                if matchings == m0 {
                    assert(0 <= ps_w[0] < self.l2d@.len());
                }
                assert(matchings > m0);
                lemma_matched_count_bound(self.matching_l2r@);
                pre = self.state();
            }
            found = self.bfs(g);
        }
        matchings
    }

    /// Augmenting pass from left vertex `l`: searches the layered graph for a
    /// shortest augmenting path and flips it. On failure `l` is taken out of
    /// the layers and the match arrays are untouched. On success `l` is
    /// matched anew, matchedness of other left vertices is kept, only vertices
    /// on higher layers moved, and only the right vertex that `l` held before
    /// may still point at `l`. The outcome is exactly `dfs_spec`; from a
    /// layered `l`, a success flips the pairs of one live path from `l` and
    /// nothing else.
    #[verifier::rlimit(100)]
    #[verifier::spinoff_prover]
    fn dfs(&mut self, g: &[Vec<usize>], l: usize) -> (ok: bool)
        requires
            old(self).wf(),
            l < old(self).size(),
            g@.len() <= old(self).size(),
            right_indices_below(g@, old(self).size()),
        ensures
            final(self).l2d@.len() == old(self).l2d@.len(),
            final(self).matching_l2r@.len() == old(self).matching_l2r@.len(),
            final(self).matching_r2l@.len() == old(self).matching_r2l@.len(),
            final(self).cur_d == old(self).cur_d,
            forall|x: int| 0 <= x < final(self).l2d@.len() && (#[trigger] final(self).l2d@[x]) is Some
                ==> final(self).l2d@[x]->Some_0 < final(self).l2d@.len(),
            forall|x: int| 0 <= x < final(self).l2d@.len() ==> (#[trigger] final(self).l2d@[x]) == old(self).l2d@[x]
                || (final(self).l2d@[x] is None && (x == l || layer_of(old(self).l2d@, x) > layer_of(old(self).l2d@, l as int))),
            !ok ==> final(self).matching_l2r@ == old(self).matching_l2r@,
            !ok ==> final(self).matching_r2l@ == old(self).matching_r2l@,
            !ok ==> forall|ps: Seq<int>, qs: Seq<int>|
                #[trigger] live_path(g@, old(self).l2d@, old(self).matching_r2l@, old(self).cur_d, ps, qs) ==> ps[0] != l,
            !ok ==> forall|ps: Seq<int>, qs: Seq<int>|
                #[trigger] live_path(g@, old(self).l2d@, old(self).matching_r2l@, old(self).cur_d, ps, qs)
                ==> live_path(g@, final(self).l2d@, final(self).matching_r2l@, final(self).cur_d, ps, qs),
            (ok, final(self).state()) == dfs_spec(g@, old(self).size() as int, old(self).state(), l as int),
            ok && old(self).l2d@[l as int] is Some ==> flips_live_path(
                g@, old(self).l2d@, old(self).cur_d, old(self).matching_l2r@, old(self).matching_r2l@,
                final(self).matching_l2r@, final(self).matching_r2l@, l as int,
            ),
            !ok ==> final(self).l2d@[l as int] is None,
            ok ==> forall|r: int| 0 <= r < final(self).matching_r2l@.len() && (#[trigger] old(self).matching_r2l@[r]) is Some
                ==> final(self).matching_r2l@[r] is Some,
            ok ==> exists|rf: int| {
                &&& 0 <= rf < final(self).matching_r2l@.len()
                &&& old(self).matching_r2l@[rf] is None
                &&& final(self).matching_r2l@[rf] is Some
                &&& forall|r: int| 0 <= r < final(self).matching_r2l@.len() && r != rf
                    ==> ((#[trigger] final(self).matching_r2l@[r]) is Some <==> old(self).matching_r2l@[r] is Some)
            },
            ok ==> inverse_except(final(self).matching_l2r@, final(self).matching_r2l@, old(self).matching_l2r@[l as int]),
            ok ==> final(self).matching_l2r@[l as int] is Some,
            ok ==> final(self).matching_l2r@[l as int] != old(self).matching_l2r@[l as int],
            ok ==> forall|x: int| 0 <= x < final(self).matching_l2r@.len() && x != l ==>
                ((#[trigger] final(self).matching_l2r@[x]) is Some <==> old(self).matching_l2r@[x] is Some),
            ok ==> forall|x: int| 0 <= x < final(self).matching_l2r@.len() && x != l
                && layer_of(old(self).l2d@, x) <= layer_of(old(self).l2d@, l as int)
                ==> (#[trigger] final(self).matching_l2r@[x]) == old(self).matching_l2r@[x],
            ok ==> forall|r: int| 0 <= r < final(self).matching_r2l@.len() && (#[trigger] old(self).matching_r2l@[r]) is Some
                && layer_of(old(self).l2d@, old(self).matching_r2l@[r]->Some_0 as int) <= layer_of(old(self).l2d@, l as int)
                ==> final(self).matching_r2l@[r] == old(self).matching_r2l@[r],
            ok ==> forall|x: int| 0 <= x < final(self).matching_l2r@.len()
                && (#[trigger] final(self).matching_l2r@[x]) != old(self).matching_l2r@[x]
                ==> adj(g@, x).contains(final(self).matching_l2r@[x]->Some_0),
        decreases old(self).l2d@.len() - layer_of(old(self).l2d@, l as int),
    {
        let n = self.matching_l2r.len();
        let want: usize = match self.l2d[l] {
            Some(d) => d + 1,
            None => 0,
        };
        if l < g.len() {
            let row = &g[l];
            let mut k: usize = 0;
            while k < row.len()
                invariant
                    self.wf(),
                    old(self).wf(),
                    n == self.matching_l2r@.len(),
                    n == old(self).matching_l2r@.len(),
                    l < n,
                    l < g@.len(),
                    g@.len() <= n,
                    right_indices_below(g@, n as nat),
                    row@ == g@[l as int]@,
                    0 <= k <= row@.len(),
                    want == layer_of(old(self).l2d@, l as int) + 1,
                    self.matching_l2r@ == old(self).matching_l2r@,
                    self.matching_r2l@ == old(self).matching_r2l@,
                    self.cur_d == old(self).cur_d,
                    self.l2d@.len() == n,
                    self.l2d@[l as int] == old(self).l2d@[l as int],
                    forall|x: int| 0 <= x < n ==> (#[trigger] self.l2d@[x]) == old(self).l2d@[x]
                        || (self.l2d@[x] is None && layer_of(old(self).l2d@, x) > layer_of(old(self).l2d@, l as int)),
                    forall|ps: Seq<int>, qs: Seq<int>|
                        #[trigger] live_path(g@, old(self).l2d@, old(self).matching_r2l@, old(self).cur_d, ps, qs)
                        ==> live_path(g@, self.l2d@, self.matching_r2l@, self.cur_d, ps, qs),
                    forall|ps: Seq<int>, qs: Seq<int>|
                        #[trigger] live_path(g@, self.l2d@, self.matching_r2l@, self.cur_d, ps, qs) && ps[0] == l
                        ==> qs[0] >= k,
                    dfs_scan(g@, n as int, self.state(), l as int, k as int, want as int)
                        == dfs_spec(g@, n as int, old(self).state(), l as int),
                decreases row@.len() - k,
            {
                let r = row[k];
                assert(row@[k as int] == g@[l as int]@[k as int]);
                assert(adj(g@, l as int)[k as int] == r);
                match self.matching_r2l[r] {
                    None => {
                        let hit = match self.cur_d {
                            Some(c) => c == want,
                            None => false,
                        };
                        if hit {
                            proof {
                                if old(self).l2d@[l as int] is Some {
                                    lemma_search_base(
                                        g@, old(self).l2d@, self.matching_l2r@, self.matching_r2l@, self.cur_d,
                                        l as int, k as int,
                                    );
                                }
                            }
                            self.update_match(l, r);
                            return true;
                        }
                    },
                    Some(l2) => {
                        let next = match self.l2d[l2] {
                            Some(d2) => d2 == want,
                            None => false,
                        };
                        let ghost d_before = self.l2d@;
                        let ghost l2r1 = self.matching_l2r@;
                        let ghost r2l1 = self.matching_r2l@;
                        if next && self.dfs(g, l2) {
                            proof {
                                if old(self).l2d@[l as int] is Some {
                                    lemma_search_step(
                                        g@, old(self).l2d@, d_before, l2r1, r2l1, self.matching_l2r@,
                                        self.matching_r2l@, self.cur_d, l2 as int, l as int, k as int,
                                    );
                                }
                            }
                            self.update_match(l, r);
                            return true;
                        }
                        proof {
                            lemma_live_fewer_layers(g@, d_before, self.l2d@, self.matching_r2l@, self.cur_d);
                            assert forall|ps: Seq<int>, qs: Seq<int>|
                                #[trigger] live_path(g@, self.l2d@, self.matching_r2l@, self.cur_d, ps, qs) && ps[0] == l
                                implies qs[0] >= k + 1 by {
                                assert(live_path(g@, d_before, self.matching_r2l@, self.cur_d, ps, qs));
                                if qs[0] == k {
                                    assert(adj(g@, ps[0])[qs[0]] == r);
                                    if ps.len() == 1 {
                                        assert(self.matching_r2l@[r as int] is None);
                                    } else {
                                        assert(ps[1] == l2);
                                        assert(d_before[ps[1]]->Some_0 == d_before[ps[0]]->Some_0 + 1);
                                        lemma_live_suffix(g@, d_before, self.matching_r2l@, self.cur_d, ps, qs, 1);
                                        assert(ps.subrange(1, ps.len() as int)[0] == l2);
                                    }
                                }
                            }
                        }
                    },
                }
                k += 1;
            }
        }
        proof {
            assert forall|ps: Seq<int>, qs: Seq<int>|
                #[trigger] live_path(g@, self.l2d@, self.matching_r2l@, self.cur_d, ps, qs) implies ps[0] != l by {
                if ps[0] == l {
                    assert(0 <= qs[0] < adj(g@, l as int).len());
                }
            }
        }
        let ghost d_before = self.l2d@;
        self.l2d.set(l, None);
        proof {
            assert forall|ps: Seq<int>, qs: Seq<int>|
                #[trigger] live_path(g@, old(self).l2d@, old(self).matching_r2l@, old(self).cur_d, ps, qs)
                implies live_path(g@, self.l2d@, self.matching_r2l@, self.cur_d, ps, qs) && ps[0] != l by {
                assert(live_path(g@, d_before, self.matching_r2l@, self.cur_d, ps, qs));
                assert forall|i: int| 0 <= i < ps.len() implies #[trigger] ps[i] != l by {
                    lemma_live_suffix(g@, d_before, self.matching_r2l@, self.cur_d, ps, qs, i);
                    assert(ps.subrange(i, ps.len() as int)[0] == ps[i]);
                }
                assert forall|i: int| 0 <= i < ps.len() implies {
                    &&& 0 <= #[trigger] ps[i] < self.l2d@.len()
                    &&& self.l2d@[ps[i]] is Some
                    &&& self.l2d@[ps[i]]->Some_0 == self.l2d@[ps[0]]->Some_0 + i
                } by {
                    assert(ps[i] != l);
                    assert(ps[0] != l);
                }
            }
        }
        false
    }

    /// Pairs left vertex `l` with right vertex `r` in both match arrays.
    fn update_match(&mut self, l: usize, r: usize)
        requires
            l < old(self).matching_l2r@.len(),
            r < old(self).matching_r2l@.len(),
        ensures
            final(self).matching_l2r@ == old(self).matching_l2r@.update(l as int, Some(r)),
            final(self).matching_r2l@ == old(self).matching_r2l@.update(r as int, Some(l)),
            final(self).l2d@ == old(self).l2d@,
            final(self).cur_d == old(self).cur_d,
    {
        self.matching_l2r.set(l, Some(r));
        self.matching_r2l.set(r, Some(l));
    }

    /// Layering pass: unmatched left vertices get layer 0, and breadth-first
    /// search over alternating edges layers the rest. Returns whether an
    /// unmatched right vertex was reached; when none was, the layered
    /// vertices form a closed set and no augmenting walk exists. The layers
    /// and phase distance it leaves are exactly `bfs_state`, and each layer
    /// is the length of a layered alternating walk from an unmatched vertex.
    fn bfs(&mut self, g: &[Vec<usize>]) -> (found: bool)
        requires
            old(self).wf(),
            g@.len() <= old(self).size(),
            right_indices_below(g@, old(self).size()),
        ensures
            final(self).wf(),
            final(self).matching_l2r@ == old(self).matching_l2r@,
            final(self).matching_r2l@ == old(self).matching_r2l@,
            final(self).state() == bfs_state(g@, old(self).state()),
            forall|x: int| 0 <= x < final(self).size() && old(self).matching_l2r@[x] is None
                ==> #[trigger] final(self).l2d@[x] == Some(0usize),
            forall|x: int| 0 <= x < final(self).size() && (#[trigger] final(self).l2d@[x]) is Some
                ==> exists|ps: Seq<int>, qs: Seq<int>| {
                    &&& #[trigger] layered_walk(
                        g@, final(self).l2d@, final(self).matching_l2r@, final(self).matching_r2l@, ps, qs,
                    )
                    &&& ps[ps.len() - 1] == x
                },
            found == final(self).cur_d is Some,
            !found ==> no_augmenting_walk(g@, final(self).matching_l2r@, final(self).matching_r2l@),
            found ==> !no_augmenting_walk(g@, final(self).matching_l2r@, final(self).matching_r2l@),
            found ==> exists|ps: Seq<int>, qs: Seq<int>|
                #[trigger] live_path(g@, final(self).l2d@, final(self).matching_r2l@, final(self).cur_d, ps, qs)
                && final(self).matching_l2r@[ps[0]] is None,
    {
        let n = self.matching_l2r.len();
        let mut queue: Vec<usize> = Vec::new();
        let ghost mut assigned: Set<int> = Set::empty();
        let mut l: usize = 0;
        while l < n
            invariant
                self.wf(),
                n == self.matching_l2r@.len(),
                self.matching_l2r@ == old(self).matching_l2r@,
                self.matching_r2l@ == old(self).matching_r2l@,
                0 <= l <= n,
                assigned.finite(),
                assigned.len() == queue@.len(),
                forall|x: int| #[trigger] assigned.contains(x) <==> 0 <= x < l && self.l2d@[x] is Some,
                forall|i: int| 0 <= i < queue@.len() ==> (#[trigger] queue@[i]) < l
                    && self.l2d@[queue@[i] as int] is Some,
                forall|x: int| 0 <= x < l && (#[trigger] self.l2d@[x]) is Some ==> exists|i: int|
                    0 <= i < queue@.len() && queue@[i] == x,
                queue@ == free_prefix(self.matching_l2r@, l as int),
                forall|x: int| 0 <= x < l ==> (#[trigger] self.l2d@[x]) == if self.matching_l2r@[x] is None {
                    Some(0usize)
                } else {
                    None
                },
            decreases n - l,
        {
            let ghost q0 = queue@;
            let ghost d0 = self.l2d@;
            if self.matching_l2r[l].is_none() {
                queue.push(l);
                self.l2d.set(l, Some(0));
                proof {
                    assigned = assigned.insert(l as int);
                    assert(queue@[queue@.len() - 1] == l);
                    assert forall|x: int| 0 <= x < l + 1 && (#[trigger] self.l2d@[x]) is Some implies exists|i: int|
                        0 <= i < queue@.len() && queue@[i] == x by {
                        if x < l {
                            assert(d0[x] is Some);
                            let i = choose|i: int| 0 <= i < q0.len() && q0[i] == x;
                            assert(queue@[i] == x);
                        } else {
                            assert(queue@[queue@.len() - 1] == x);
                        }
                    }
                }
            } else {
                self.l2d.set(l, None);
                proof {
                    assert forall|x: int| 0 <= x < l + 1 && (#[trigger] self.l2d@[x]) is Some implies exists|i: int|
                        0 <= i < queue@.len() && queue@[i] == x by {
                        assert(d0[x] is Some);
                        let i = choose|i: int| 0 <= i < q0.len() && q0[i] == x;
                        assert(queue@[i] == x);
                    }
                }
            }
            l += 1;
        }
        self.cur_d = None;
        let ghost mut wit: Map<int, (Seq<int>, Seq<int>)> = Map::new(
            |x: int| 0 <= x < n && self.l2d@[x] is Some,
            |x: int| (seq![x], Seq::<int>::empty()),
        );
        let ghost mut fp: (Seq<int>, Seq<int>) = (Seq::empty(), Seq::empty());
        proof {
            assert forall|x: int| 0 <= x < n && (#[trigger] self.l2d@[x]) is Some implies {
                &&& wit.contains_key(x)
                &&& layered_walk(g@, self.l2d@, self.matching_l2r@, self.matching_r2l@, wit[x].0, wit[x].1)
                &&& wit[x].0[wit[x].0.len() - 1] == x
            } by {
                let ps = wit[x].0;
                assert(ps[0] == x);
            }
            assert(assigned.subset_of(set_int_range(0, n as int)));
            lemma_int_range(0, n as int);
            lemma_len_subset(assigned, set_int_range(0, n as int));
        }
        proof {
            assert(self.l2d@ =~= initial_layers(self.matching_l2r@));
        }
        let mut head: usize = 0;
        while head < queue.len()
            invariant
                bfs_from(g@, self.matching_r2l@, n as int, self.l2d@, self.cur_d, queue@, head as int)
                    == (bfs_state(g@, old(self).state()).layers, bfs_state(g@, old(self).state()).phase),
                self.wf(),
                n == self.matching_l2r@.len(),
                self.matching_l2r@ == old(self).matching_l2r@,
                self.matching_r2l@ == old(self).matching_r2l@,
                g@.len() <= n,
                right_indices_below(g@, n as nat),
                0 <= head <= queue@.len() <= n,
                assigned.finite(),
                assigned.len() == queue@.len(),
                forall|x: int| #[trigger] assigned.contains(x) <==> 0 <= x < n && self.l2d@[x] is Some,
                forall|i: int| 0 <= i < queue@.len() ==> (#[trigger] queue@[i]) < n
                    && self.l2d@[queue@[i] as int] is Some,
                forall|x: int| 0 <= x < n && (#[trigger] self.l2d@[x]) is Some ==> exists|i: int|
                    0 <= i < queue@.len() && queue@[i] == x,
                forall|x: int| 0 <= x < n && (#[trigger] self.l2d@[x]) is Some
                    ==> self.l2d@[x]->Some_0 < queue@.len(),
                forall|x: int| 0 <= x < n && (#[trigger] self.l2d@[x]) is Some ==> {
                    &&& wit.contains_key(x)
                    &&& layered_walk(g@, self.l2d@, self.matching_l2r@, self.matching_r2l@, wit[x].0, wit[x].1)
                    &&& wit[x].0[wit[x].0.len() - 1] == x
                },
                self.cur_d is Some ==> live_path(g@, self.l2d@, self.matching_r2l@, self.cur_d, fp.0, fp.1)
                    && self.matching_l2r@[fp.0[0]] is None,
                forall|x: int| 0 <= x < n && self.matching_l2r@[x] is None ==> (#[trigger] self.l2d@[x]) == Some(0usize),
                self.cur_d is None ==> forall|i: int, k: int|
                    #![trigger queue@[i], adj(g@, queue@[i] as int)[k]]
                    0 <= i < head && 0 <= k < adj(g@, queue@[i] as int).len() ==> {
                        let r = adj(g@, queue@[i] as int)[k] as int;
                        &&& self.matching_r2l@[r] is Some
                        &&& self.l2d@[self.matching_r2l@[r]->Some_0 as int] is Some
                    },
            decreases n - head,
        {
            let l = queue[head];
            let dl = self.l2d[l];
            let skip = match (dl, self.cur_d) {
                (None, None) => true,
                (Some(d), Some(c)) => d >= c,
                _ => false,
            };
            if !skip && l < g.len() {
                let d_new: usize = match dl {
                    Some(d) => d + 1,
                    None => 0,
                };
                let row = &g[l];
                let mut k: usize = 0;
                while k < row.len()
                    invariant
                        ({
                            let t = bfs_scan(row@, self.matching_r2l@, self.l2d@, self.cur_d, queue@, k as int, d_new);
                            bfs_from(g@, self.matching_r2l@, n as int, t.0, t.1, t.2, head + 1)
                        }) == (bfs_state(g@, old(self).state()).layers, bfs_state(g@, old(self).state()).phase),
                        self.wf(),
                        n == self.matching_l2r@.len(),
                        self.matching_l2r@ == old(self).matching_l2r@,
                        self.matching_r2l@ == old(self).matching_r2l@,
                        g@.len() <= n,
                        right_indices_below(g@, n as nat),
                        0 <= head < queue@.len() <= n,
                        l == queue@[head as int],
                        l < g@.len(),
                        row@ == g@[l as int]@,
                        dl is Some,
                        d_new == dl->Some_0 + 1,
                        d_new <= queue@.len(),
                        0 <= k <= row@.len(),
                        assigned.finite(),
                        assigned.len() == queue@.len(),
                        forall|x: int| #[trigger] assigned.contains(x) <==> 0 <= x < n && self.l2d@[x] is Some,
                        forall|i: int| 0 <= i < queue@.len() ==> (#[trigger] queue@[i]) < n
                            && self.l2d@[queue@[i] as int] is Some,
                        forall|x: int| 0 <= x < n && (#[trigger] self.l2d@[x]) is Some ==> exists|i: int|
                            0 <= i < queue@.len() && queue@[i] == x,
                        forall|x: int| 0 <= x < n && (#[trigger] self.l2d@[x]) is Some
                            ==> self.l2d@[x]->Some_0 < queue@.len(),
                        self.l2d@[l as int] == dl,
                        forall|x: int| 0 <= x < n && (#[trigger] self.l2d@[x]) is Some ==> {
                            &&& wit.contains_key(x)
                            &&& layered_walk(g@, self.l2d@, self.matching_l2r@, self.matching_r2l@, wit[x].0, wit[x].1)
                            &&& wit[x].0[wit[x].0.len() - 1] == x
                        },
                        self.cur_d is Some ==> live_path(g@, self.l2d@, self.matching_r2l@, self.cur_d, fp.0, fp.1)
                            && self.matching_l2r@[fp.0[0]] is None,
                        forall|x: int| 0 <= x < n && self.matching_l2r@[x] is None ==> (#[trigger] self.l2d@[x]) == Some(0usize),
                        self.cur_d is None ==> forall|i: int, j: int|
                            #![trigger queue@[i], adj(g@, queue@[i] as int)[j]]
                            0 <= i < head && 0 <= j < adj(g@, queue@[i] as int).len() ==> {
                                let r = adj(g@, queue@[i] as int)[j] as int;
                                &&& self.matching_r2l@[r] is Some
                                &&& self.l2d@[self.matching_r2l@[r]->Some_0 as int] is Some
                            },
                        self.cur_d is None ==> forall|j: int| 0 <= j < k ==> {
                            let r = (#[trigger] row@[j]) as int;
                            &&& self.matching_r2l@[r] is Some
                            &&& self.l2d@[self.matching_r2l@[r]->Some_0 as int] is Some
                        },
                    decreases row@.len() - k,
                {
                    let r = row[k];
                    assert(row@[k as int] == g@[l as int]@[k as int]);
                    match self.matching_r2l[r] {
                        None => {
                            if self.cur_d.is_none() {
                                proof {
                                    lemma_walk_to_live(
                                        g@, self.l2d@, self.matching_l2r@, self.matching_r2l@,
                                        wit[l as int].0, wit[l as int].1, k as int, d_new,
                                    );
                                    fp = (wit[l as int].0, wit[l as int].1.push(k as int));
                                }
                                self.cur_d = Some(d_new);
                            }
                        },
                        Some(l2) => {
                            if self.l2d[l2].is_none() {
                                proof {
                                    assert(!assigned.contains(l2 as int));
                                    assert(assigned.subset_of(set_int_range(0, n as int)));
                                    lemma_int_range(0, n as int);
                                    lemma_len_subset(assigned.insert(l2 as int), set_int_range(0, n as int));
                                }
                                let ghost q0 = queue@;
                                let ghost d0 = self.l2d@;
                                proof {
                                    lemma_extend_walk(
                                        g@, d0, self.matching_l2r@, self.matching_r2l@,
                                        wit[l as int].0, wit[l as int].1, k as int, l2 as int, d_new,
                                    );
                                    lemma_more_layers(
                                        g@, d0, d0.update(l2 as int, Some(d_new)), self.matching_l2r@,
                                        self.matching_r2l@, self.cur_d,
                                    );
                                    wit = wit.insert(l2 as int, (wit[l as int].0.push(l2 as int), wit[l as int].1.push(k as int)));
                                }
                                self.l2d.set(l2, Some(d_new));
                                queue.push(l2);
                                proof {
                                    assigned = assigned.insert(l2 as int);
                                    assert(queue@[queue@.len() - 1] == l2);
                                    assert forall|x: int| 0 <= x < n && (#[trigger] self.l2d@[x]) is Some implies exists|i: int|
                                        0 <= i < queue@.len() && queue@[i] == x by {
                                        if x != l2 {
                                            assert(d0[x] is Some);
                                            let i = choose|i: int| 0 <= i < q0.len() && q0[i] == x;
                                            assert(queue@[i] == x);
                                        } else {
                                            assert(queue@[queue@.len() - 1] == x);
                                        }
                                    }
                                }
                            }
                        },
                    }
                    k += 1;
                }
            }
            proof {
                if self.cur_d is None {
                    assert forall|j: int| 0 <= j < adj(g@, l as int).len() implies {
                        let r = (#[trigger] adj(g@, l as int)[j]) as int;
                        &&& self.matching_r2l@[r] is Some
                        &&& self.l2d@[self.matching_r2l@[r]->Some_0 as int] is Some
                    } by {
                        assert(adj(g@, l as int)[j] == g@[l as int]@[j]);
                    }
                }
            }
            head += 1;
        }
        proof {
            assert forall|x: int| 0 <= x < n && (#[trigger] self.l2d@[x]) is Some implies exists|ps: Seq<int>, qs: Seq<int>| {
                &&& #[trigger] layered_walk(g@, self.l2d@, self.matching_l2r@, self.matching_r2l@, ps, qs)
                &&& ps[ps.len() - 1] == x
            } by {
                assert(layered_walk(g@, self.l2d@, self.matching_l2r@, self.matching_r2l@, wit[x].0, wit[x].1));
            }
            if self.cur_d is None {
                let s = Set::new(|x: int| 0 <= x < n && self.l2d@[x] is Some);
                assert forall|x: int, k: int|
                    #![trigger s.contains(x), adj(g@, x)[k]]
                    s.contains(x) && 0 <= k < adj(g@, x).len() implies {
                        &&& adj(g@, x)[k] < self.matching_r2l@.len()
                        &&& self.matching_r2l@[adj(g@, x)[k] as int] is Some
                        &&& s.contains(self.matching_r2l@[adj(g@, x)[k] as int]->Some_0 as int)
                    } by {
                    let i = choose|i: int| 0 <= i < queue@.len() && queue@[i] == x;
                    assert(adj(g@, queue@[i] as int)[k] == adj(g@, x)[k]);
                }
                assert(closed_under_alternation(g@, self.matching_l2r@, self.matching_r2l@, s));
                lemma_closed_set_blocks_walks(g@, self.matching_l2r@, self.matching_r2l@, s);
            } else {
                lemma_live_is_augmenting(
                    g@, self.l2d@, self.matching_l2r@, self.matching_r2l@, self.cur_d, fp.0, fp.1,
                );
            }
        }
        self.cur_d.is_some()
    }
}

} // verus!
