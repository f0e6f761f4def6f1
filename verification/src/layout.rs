//! Where each node is drawn: track inputs on the left, OUT on the right.
use vstd::prelude::*;
use vstd::set_lib::*;
use crate::graph::{Graph, Input, NodeView, find, lemma_position};
use crate::flow::{reads, reads_at, walk, upstream, depends, table};
use crate::compile::{lemma_walk_step, lemma_upstream_self};

verus! {

broadcast use lemma_position;

/// A memo entry is fresh when it is neither computed nor being computed.
pub open spec fn fresh(memo: Seq<Option<usize>>, visiting: Seq<bool>) -> Set<int> {
    Set::new(|x: int| 0 <= x < memo.len() && memo[x] is None && !visiting[x])
}

pub open spec fn done(memo: Seq<Option<usize>>) -> Set<int> {
    Set::new(|x: int| 0 <= x < memo.len() && memo[x] is Some)
}

/// The value node `j` contributes to a height: its own height, or 0 while unknown.
pub open spec fn hval(memo: Seq<Option<usize>>, j: int) -> int {
    match memo[j] {
        Some(h) => h as int,
        None => 0,
    }
}

/// What a computed height satisfies: it exceeds every kept input's height unless that input
/// depends on the node (a feedback edge), is 0 exactly when there is no kept input, and is
/// reached through some kept input.
pub open spec fn height_ok(ns: Seq<NodeView>, keep: Seq<bool>, memo: Seq<Option<usize>>, x: int) -> bool {
    let h = memo[x]->0 as int;
    &&& forall|j: int| #![trigger reads(ns, x, j)] reads(ns, x, j) && keep[j] ==>
        (memo[j] is Some && h >= hval(memo, j) + 1) || upstream(ns, j, x)
    &&& (h == 0 <==> forall|j: int| #![trigger reads(ns, x, j)] reads(ns, x, j) ==> !keep[j])
    &&& h > 0 ==> exists|j: int| #![trigger reads(ns, x, j)] reads(ns, x, j) && keep[j] && h <= hval(memo, j) + 1
}

pub open spec fn memo_inv(ns: Seq<NodeView>, keep: Seq<bool>, memo: Seq<Option<usize>>, visiting: Seq<bool>) -> bool {
    &&& memo.len() == ns.len()
    &&& visiting.len() == ns.len()
    &&& keep.len() >= ns.len()
    &&& forall|x: int| 0 <= x < ns.len() && memo[x] is Some ==> !visiting[x] && keep[x]
    &&& forall|x: int| 0 <= x < ns.len() && visiting[x] ==> keep[x]
    &&& forall|x: int| 0 <= x < ns.len() && memo[x] is Some ==> (memo[x]->0 as int) <= done(memo).len()
    &&& forall|x: int| 0 <= x < ns.len() && memo[x] is Some ==> #[trigger] height_ok(ns, keep, memo, x)
}

/// The height walk from node `i`: a computed height is reused; a node being computed (a
/// feedback loop) counts 0; otherwise the node's height is one more than the highest kept node
/// its inputs read (walked in input order), or 0 without any. `fuel` bounds the depth (the
/// number of fresh nodes is always enough).
pub open spec fn height_of(ns: Seq<NodeView>, keep: Seq<bool>, fuel: nat, i: int, memo: Seq<Option<usize>>, vis: Seq<bool>) -> (Seq<Option<usize>>, usize)
    decreases fuel, 0int, 0int,
{
    if !(0 <= i < memo.len()) || i >= vis.len() {
        (memo, 0)
    } else {
        match memo[i] {
            Some(h) => (memo, h),
            None => if vis[i] || fuel == 0 {
                (memo, 0)
            } else {
                let r = heights_in(ns, keep, (fuel - 1) as nat, i, 0, memo, vis.update(i, true), 0);
                (r.0.update(i, Some(r.1)), r.1)
            },
        }
    }
}

/// The height walk through the inputs of node `i` from input `k` on, `h` the height so far.
pub open spec fn heights_in(ns: Seq<NodeView>, keep: Seq<bool>, fuel: nat, i: int, k: int, memo: Seq<Option<usize>>, vis: Seq<bool>, h: usize) -> (Seq<Option<usize>>, usize)
    decreases fuel, 1int, (if 0 <= i < ns.len() && 0 <= k <= ns[i].inputs.len() { ns[i].inputs.len() - k } else { 0 }),
{
    if !(0 <= i < ns.len()) || k < 0 || k >= ns[i].inputs.len() {
        (memo, h)
    } else {
        let r = match ns[i].inputs[k] {
            Input::Link(id) => match find(ns, id) {
                Some(j) => if keep[j] {
                    let c = height_of(ns, keep, fuel, j, memo, vis);
                    (c.0, if c.1 + 1 > h { (c.1 + 1) as usize } else { h })
                } else {
                    (memo, h)
                },
                None => (memo, h),
            },
            Input::Const(_) => (memo, h),
        };
        heights_in(ns, keep, fuel, i, k + 1, r.0, vis, r.1)
    }
}

/// The heights of the kept nodes `i..n`, walked in turn.
pub open spec fn heights_from(ns: Seq<NodeView>, keep: Seq<bool>, fuel: nat, i: int, n: int, memo: Seq<Option<usize>>, vis: Seq<bool>) -> Seq<Option<usize>>
    decreases n - i,
{
    if i >= n {
        memo
    } else if keep[i] {
        heights_from(ns, keep, fuel, i + 1, n, height_of(ns, keep, fuel, i, memo, vis).0, vis)
    } else {
        heights_from(ns, keep, fuel, i + 1, n, memo, vis)
    }
}

/// The columns of the layout: the heights walked from OUT first, then from every kept node in
/// index order; hidden nodes get `usize::MAX`.
pub open spec fn layout_cols(ns: Seq<NodeView>, keep: Seq<bool>) -> Seq<usize> {
    let n = ns.len();
    let m0 = Seq::new(n, |x: int| None::<usize>);
    let v0 = Seq::new(n, |x: int| false);
    let m1 = match crate::graph::id_at(ns, crate::graph::is_out()) {
        Some(out) => match find(ns, out) {
            Some(o) => if keep[o] { height_of(ns, keep, n, o, m0, v0).0 } else { m0 },
            None => m0,
        },
        None => m0,
    };
    let mf = heights_from(ns, keep, n, 0, n as int, m1, v0);
    Seq::new(n, |x: int| if keep[x] { mf[x]->0 } else { usize::MAX })
}

/// The position of OUT (the first node of that kind), if the graph has one.
pub open spec fn out_pos(ns: Seq<NodeView>) -> Option<int> {
    match crate::graph::id_at(ns, crate::graph::is_out()) {
        Some(out) => find(ns, out),
        None => None,
    }
}

/// The largest column among the first `n` shown nodes (0 when none is shown).
pub open spec fn max_shown(cs: Seq<usize>, keep: Seq<bool>, n: int) -> int
    decreases n,
{
    if n <= 0 {
        0
    } else {
        let m = max_shown(cs, keep, n - 1);
        if keep[n - 1] && cs[n - 1] > m { cs[n - 1] as int } else { m }
    }
}

/// The columns a layout draws: every shown node at the length of its longest shown input
/// chain (`layout_cols`), except OUT, which is drawn in the rightmost column.
pub open spec fn placed_cols(ns: Seq<NodeView>, keep: Seq<bool>) -> Seq<usize> {
    let h = layout_cols(ns, keep);
    match out_pos(ns) {
        Some(o) => if keep[o] { h.update(o, max_shown(h, keep, ns.len() as int) as usize) } else { h },
        None => h,
    }
}

proof fn lemma_max_shown(cs: Seq<usize>, keep: Seq<bool>, n: int)
    requires
        0 <= n <= cs.len(),
        n <= keep.len(),
    ensures
        forall|x: int| 0 <= x < n && keep[x] ==> cs[x] <= max_shown(cs, keep, n),
        max_shown(cs, keep, n) == 0 || exists|x: int| 0 <= x < n && keep[x] && cs[x] == max_shown(cs, keep, n),
        0 <= max_shown(cs, keep, n) <= usize::MAX,
    decreases n,
{
    if n > 0 {
        lemma_max_shown(cs, keep, n - 1);
    }
}

proof fn lemma_height_ok_grow(ns: Seq<NodeView>, keep: Seq<bool>, memo: Seq<Option<usize>>, memo2: Seq<Option<usize>>, x: int)
    requires
        memo.len() == ns.len(),
        memo.len() == memo2.len(),
        0 <= x < memo.len(),
        forall|y: int| 0 <= y < memo.len() && memo[y] is Some ==> memo2[y] == memo[y],
        memo[x] is Some,
        height_ok(ns, keep, memo, x),
    ensures
        height_ok(ns, keep, memo2, x),
{
    let h = memo[x]->0 as int;
    assert(memo2[x] == memo[x]);
    assert forall|j: int| #![trigger reads(ns, x, j)] reads(ns, x, j) && keep[j] implies
        (memo2[j] is Some && h >= hval(memo2, j) + 1) || upstream(ns, j, x) by {
        lemma_read_range(ns, x, j);
        if memo[j] is Some {
            assert(memo2[j] == memo[j]);
        }
    }
    if h > 0 {
        let j = choose|j: int| #![trigger reads(ns, x, j)] reads(ns, x, j) && keep[j] && h <= hval(memo, j) + 1;
        lemma_read_range(ns, x, j);
        if memo[j] is Some {
            assert(memo2[j] == memo[j]);
        }
        assert(h <= hval(memo2, j) + 1);
    }
}

proof fn lemma_read_range(ns: Seq<NodeView>, x: int, j: int)
    requires
        reads(ns, x, j),
    ensures
        0 <= j < ns.len(),
        0 <= x < ns.len(),
{
    let k = choose|k: int| reads_at(ns, x, k, j);
}

proof fn lemma_done_grow(memo: Seq<Option<usize>>, memo2: Seq<Option<usize>>)
    requires
        memo.len() == memo2.len(),
        forall|y: int| 0 <= y < memo.len() && memo[y] is Some ==> memo2[y] == memo[y],
    ensures
        done(memo).subset_of(done(memo2)),
        done(memo).len() <= done(memo2).len(),
{
    lemma_int_range(0, memo.len() as int);
    assert(done(memo2).subset_of(set_int_range(0, memo.len() as int)));
    lemma_len_subset(done(memo2), set_int_range(0, memo.len() as int));
    lemma_len_subset(done(memo), done(memo2));
}

impl Graph {
    /// The column of node `i`: the longest chain of kept inputs behind it, with feedback cut
    /// where the walk meets a node it is still computing.
    fn height(&self, i: usize, keep: &[bool], memo: &mut Vec<Option<usize>>, visiting: &mut Vec<bool>, Ghost(fuel): Ghost<nat>) -> (h: usize)
        requires
            i < self@.nodes.len(),
            keep@[i as int],
            memo_inv(self@.nodes, keep@, old(memo)@, old(visiting)@),
            forall|v: int| 0 <= v < self@.nodes.len() && old(visiting)@[v] ==> upstream(self@.nodes, v, i as int),
            fuel >= fresh(old(memo)@, old(visiting)@).len(),
        ensures
            (final(memo)@, h) == height_of(self@.nodes, keep@, fuel, i as int, old(memo)@, old(visiting)@),
            memo_inv(self@.nodes, keep@, final(memo)@, final(visiting)@),
            final(visiting)@ == old(visiting)@,
            forall|y: int| 0 <= y < old(memo)@.len() && old(memo)@[y] is Some ==> final(memo)@[y] == old(memo)@[y],
            fresh(final(memo)@, final(visiting)@).subset_of(fresh(old(memo)@, old(visiting)@)),
            old(visiting)@[i as int] ==> h == 0 && final(memo)@ == old(memo)@,
            !old(visiting)@[i as int] ==> final(memo)@[i as int] == Some(h),
        decreases fresh(old(memo)@, old(visiting)@).len(),
    {
        let ghost ns = self@.nodes;
        let ghost m0 = memo@;
        let ghost v0 = visiting@;
        if let Some(h) = memo[i] {
            return h;
        }
        if visiting[i] {
            return 0;
        }
        proof {
            lemma_int_range(0, ns.len() as int);
            assert(fresh(m0, v0).subset_of(set_int_range(0, ns.len() as int)));
            lemma_len_subset(fresh(m0, v0), set_int_range(0, ns.len() as int));
            lemma_upstream_self(ns, i as int);
            assert(fresh(m0, v0).contains(i as int));
            if fresh(m0, v0).len() == 0 {
                assert(fresh(m0, v0) =~= Set::<int>::empty());
            }
            assert(fuel >= 1);
        }
        visiting.set(i, true);
        let ghost v1 = visiting@;
        proof {
            assert(fresh(m0, v1) =~= fresh(m0, v0).remove(i as int));
            assert(done(m0).subset_of(set_int_range(0, ns.len() as int).remove(i as int)));
            lemma_int_range(0, ns.len() as int);
            lemma_len_subset(done(m0), set_int_range(0, ns.len() as int).remove(i as int));
        }
        let ghost ii = i as int;
        let mut h: usize = 0;
        let len = self.nodes[i].inputs.len();
        let mut k: usize = 0;
        while k < len
            invariant
                ns == self@.nodes,
                i < ns.len(),
                ii == i,
                keep@[ii],
                len == ns[ii].inputs.len(),
                k <= len,
                memo_inv(ns, keep@, memo@, visiting@),
                visiting@ == v1,
                v1 == v0.update(ii, true),
                v0.len() == ns.len(),
                m0.len() == ns.len(),
                v1[ii],
                memo@[ii] is None,
                forall|y: int| 0 <= y < m0.len() && m0[y] is Some ==> memo@[y] == m0[y],
                m0 == old(memo)@,
                v0 == old(visiting)@,
                fresh(memo@, v1).subset_of(fresh(m0, v1)),
                fresh(m0, v1).finite(),
                fresh(m0, v1).len() < fresh(m0, v0).len(),
                done(memo@).len() < ns.len(),
                forall|v: int| 0 <= v < ns.len() && v1[v] ==> upstream(ns, v, ii),
                (h as int) <= done(memo@).len() + 1,
                forall|c: int, j: int| 0 <= c < k && #[trigger] reads_at(ns, ii, c, j) && keep@[j] ==>
                    (memo@[j] is Some && h >= hval(memo@, j) + 1) || upstream(ns, j, ii),
                (h == 0 <==> forall|c: int, j: int| 0 <= c < k && #[trigger] reads_at(ns, ii, c, j) ==> !keep@[j]),
                h > 0 ==> exists|c: int, j: int| 0 <= c < k && #[trigger] reads_at(ns, ii, c, j) && keep@[j] && h <= hval(memo@, j) + 1,
                fuel >= 1,
                fuel >= fresh(m0, v0).len(),
                heights_in(ns, keep@, (fuel - 1) as nat, ii, 0, m0, v1, 0)
                    == heights_in(ns, keep@, (fuel - 1) as nat, ii, k as int, memo@, v1, h),
            decreases len - k,
        {
            let ghost mk = memo@;
            let ghost hk = h;
            if let Input::Link(id) = self.nodes[i].inputs[k] {
                if let Some(j) = self.idx(id) {
                    if keep[j] {
                        let ghost mb = memo@;
                        proof {
                            assert(reads_at(ns, ii, k as int, j as int));
                            assert forall|v: int| 0 <= v < ns.len() && visiting@[v] implies upstream(ns, v, j as int) by {
                                lemma_walk_step(ns, v, ii, j as int);
                            }
                            lemma_len_subset(fresh(memo@, visiting@), fresh(m0, v1));
                        }
                        let c = self.height(j, keep, memo, visiting, Ghost((fuel - 1) as nat));
                        proof {
                            assert(visiting@ == v1);
                            assert(memo_inv(ns, keep@, memo@, visiting@));
                            assert(forall|y: int| 0 <= y < mb.len() && mb[y] is Some ==> memo@[y] == mb[y]);
                            assert(v1[ii]);
                            assert(visiting@[ii]);
                            assert(memo@[ii] is None);
                            assert forall|y: int| 0 <= y < m0.len() && m0[y] is Some implies memo@[y] == m0[y] by {
                                assert(mb[y] == m0[y]);
                                assert(mb[y] is Some);
                            }
                            lemma_done_grow(mb, memo@);
                            assert(c as int <= done(memo@).len()) by {
                                if mb[j as int] is Some {
                                } else if v1[j as int] {
                                } else {
                                    assert(memo@[j as int] == Some(c));
                                }
                            }
                            assert(c as int == hval(memo@, j as int));
                            assert(done(memo@).len() < ns.len()) by {
                                lemma_int_range(0, ns.len() as int);
                                assert(done(memo@).subset_of(set_int_range(0, ns.len() as int).remove(ii)));
                                lemma_len_subset(done(memo@), set_int_range(0, ns.len() as int).remove(ii));
                            }
                        }
                        let ghost hb = h;
                        if c + 1 > h {
                            h = c + 1;
                        }
                        proof {
                            assert forall|c2: int, j2: int| 0 <= c2 < k + 1 && #[trigger] reads_at(ns, ii, c2, j2) && keep@[j2] implies
                                (memo@[j2] is Some && h >= hval(memo@, j2) + 1) || upstream(ns, j2, ii) by {
                                if c2 < k {
                                    if mb[j2] is Some {
                                        assert(memo@[j2] == mb[j2]);
                                    }
                                } else {
                                    assert(j2 == j);
                                    if memo@[j2] is None {
                                        assert(v1[j2]);
                                    }
                                }
                            }
                            if h > 0 {
                                if h == c + 1 {
                                    assert(reads_at(ns, ii, k as int, j as int) && keep@[j as int] && h <= hval(memo@, j as int) + 1);
                                } else {
                                    let (c2, j2) = choose|c2: int, j2: int| 0 <= c2 < k && #[trigger] reads_at(ns, ii, c2, j2) && keep@[j2] && hb <= hval(mb, j2) + 1;
                                    lemma_read_range(ns, ii, j2);
                                    assert(hval(mb, j2) <= hval(memo@, j2));
                                }
                            }
                        }
                    }
                }
            }
            assert(heights_in(ns, keep@, (fuel - 1) as nat, ii, k as int, mk, v1, hk)
                == heights_in(ns, keep@, (fuel - 1) as nat, ii, k + 1, memo@, v1, h));
            k += 1;
        }
        let ghost mpre = memo@;
        assert(heights_in(ns, keep@, (fuel - 1) as nat, ii, 0, m0, v1, 0) == (mpre, h));
        visiting.set(i, false);
        memo.set(i, Some(h));
        assert(memo@ =~= mpre.update(ii, Some(h)));
        proof {
            assert(visiting@ =~= v0);
            let m = memo@;
            assert forall|y: int| 0 <= y < mpre.len() && mpre[y] is Some implies m[y] == mpre[y] by {}
            assert(done(m) =~= done(mpre).insert(ii));
            assert(!done(mpre).contains(ii));
            lemma_int_range(0, ns.len() as int);
            lemma_len_subset(done(mpre), set_int_range(0, ns.len() as int));
            assert(done(m).len() == done(mpre).len() + 1);
            assert forall|x: int| 0 <= x < ns.len() && m[x] is Some implies #[trigger] height_ok(ns, keep@, m, x) by {
                if x == ii {
                    assert forall|j: int| #![trigger reads(ns, ii, j)] reads(ns, ii, j) && keep@[j] implies
                        (m[j] is Some && h >= hval(m, j) + 1) || upstream(ns, j, ii) by {
                        let c = choose|c: int| reads_at(ns, ii, c, j);
                        lemma_read_range(ns, ii, j);
                        if j == ii {
                        } else if mpre[j] is Some {
                            assert(m[j] == mpre[j]);
                        }
                    }
                    assert((h == 0) <==> forall|j: int| #![trigger reads(ns, ii, j)] reads(ns, ii, j) ==> !keep@[j]) by {
                        if h == 0 {
                            assert forall|j: int| #![trigger reads(ns, ii, j)] reads(ns, ii, j) implies !keep@[j] by {
                                let c = choose|c: int| reads_at(ns, ii, c, j);
                            }
                        } else {
                            let (c, j) = choose|c: int, j: int| 0 <= c < len && #[trigger] reads_at(ns, ii, c, j) && keep@[j] && h <= hval(mpre, j) + 1;
                            assert(reads(ns, ii, j));
                        }
                    }
                    if h > 0 {
                        let (c, j) = choose|c: int, j: int| 0 <= c < len && #[trigger] reads_at(ns, ii, c, j) && keep@[j] && h <= hval(mpre, j) + 1;
                        assert(reads(ns, ii, j));
                        lemma_read_range(ns, ii, j);
                        if j != ii {
                            assert(hval(m, j) == hval(mpre, j));
                        }
                        assert(h <= hval(m, j) + 1);
                    }
                } else {
                    lemma_height_ok_grow(ns, keep@, mpre, m, x);
                }
            }
            assert forall|x: int| 0 <= x < ns.len() && m[x] is Some implies (m[x]->0 as int) <= done(m).len() by {
                if x != ii {
                    assert(mpre[x] == m[x]);
                }
            }
            assert(fresh(m, visiting@) =~= fresh(mpre, v1));
        }
        h
    }
}

/// The first track at or after `t` that node `i` depends on, or the number of tracks.
pub open spec fn first_dep_from(ns: Seq<NodeView>, tids: Seq<u32>, i: int, t: int) -> int
    decreases tids.len() - t,
{
    if t >= tids.len() || t < 0 {
        tids.len() as int
    } else if depends(ns, tids, i, t) {
        t
    } else {
        first_dep_from(ns, tids, i, t + 1)
    }
}

/// The group a node is drawn in: the first track it depends on (after all tracks if none).
pub open spec fn group_of(ns: Seq<NodeView>, tids: Seq<u32>, i: int) -> int {
    first_dep_from(ns, tids, i, 0)
}

/// Node `j` is drawn above node `i` in the same column: smaller (group, id), ties by index.
pub open spec fn drawn_before(ns: Seq<NodeView>, tids: Seq<u32>, keep: Seq<bool>, cols: Seq<usize>, j: int, i: int) -> bool {
    let (gj, gi) = (group_of(ns, tids, j), group_of(ns, tids, i));
    &&& keep[j]
    &&& cols[j] == cols[i]
    &&& (gj < gi || (gj == gi && (ns[j].id < ns[i].id || (ns[j].id == ns[i].id && j < i))))
}

/// How many of the first `m` nodes are drawn above node `i`.
pub open spec fn rank(ns: Seq<NodeView>, tids: Seq<u32>, keep: Seq<bool>, cols: Seq<usize>, i: int, m: int) -> int
    decreases m,
{
    if m <= 0 {
        0
    } else {
        rank(ns, tids, keep, cols, i, m - 1) + if drawn_before(ns, tids, keep, cols, m - 1, i) { 1int } else { 0int }
    }
}

/// The columns of a layout: hidden nodes have none (`usize::MAX`); a shown node sits right of
/// every shown node it reads unless that one depends on it (feedback), in column 0 exactly when
/// it reads no shown node, and at most one column right of some shown node it reads.
pub open spec fn columns_ok(ns: Seq<NodeView>, keep: Seq<bool>, cols: Seq<usize>) -> bool {
    &&& cols.len() == ns.len()
    &&& forall|i: int| 0 <= i < ns.len() && !keep[i] ==> cols[i] == usize::MAX
    &&& forall|i: int| 0 <= i < ns.len() && keep[i] ==> cols[i] <= ns.len()
    &&& forall|i: int, j: int| #![trigger reads(ns, i, j), keep[i], keep[j]]
        0 <= i < ns.len() && keep[i] && reads(ns, i, j) && keep[j] && !upstream(ns, j, i) ==> cols[i] > cols[j]
    &&& forall|i: int| 0 <= i < ns.len() && keep[i] ==>
        (cols[i] == 0 <==> forall|j: int| #![trigger reads(ns, i, j)] reads(ns, i, j) ==> !keep[j])
    &&& forall|i: int| 0 <= i < ns.len() && keep[i] && cols[i] > 0 ==>
        exists|j: int| #![trigger reads(ns, i, j)] reads(ns, i, j) && keep[j] && cols[i] <= cols[j] + 1
}

impl Graph {
    pub fn layout(&self, track_ids: &[u32]) -> (r: Vec<(usize, usize)>)
        ensures
            r@.len() == self@.nodes.len(),
            r@.map_values(|p: (usize, usize)| p.0) == placed_cols(self@.nodes, Seq::new(self@.nodes.len(), |i: int| true)),
            columns_ok(self@.nodes, Seq::new(self@.nodes.len(), |i: int| true), layout_cols(self@.nodes, Seq::new(self@.nodes.len(), |i: int| true))),
            match out_pos(self@.nodes) {
                Some(o) => forall|i: int| 0 <= i < self@.nodes.len() ==> r@[i].0 <= r@[o].0,
                None => true,
            },
            forall|i: int| 0 <= i < self@.nodes.len() ==> r@[i].1 == rank(self@.nodes, track_ids@,
                Seq::new(self@.nodes.len(), |i: int| true), r@.map_values(|p: (usize, usize)| p.0), i, self@.nodes.len() as int) as usize,
    {
        let mut all: Vec<bool> = Vec::new();
        let mut c: usize = 0;
        while c < self.nodes.len()
            invariant
                c <= self@.nodes.len(),
                all@.len() == c,
                forall|x: int| 0 <= x < c ==> all@[x],
            decreases self@.nodes.len() - c,
        {
            all.push(true);
            c += 1;
        }
        assert(all@ =~= Seq::new(self@.nodes.len(), |i: int| true));
        self.layout_masked(track_ids, &all)
    }

    /// (column, row) per node for display: track inputs on the left, OUT on the right.
    /// Rows within a column are grouped by the first track the node depends on.
    /// Nodes with keep=false are hidden (usize::MAX) and ignored for spacing.
    pub fn layout_masked(&self, track_ids: &[u32], keep: &[bool]) -> (r: Vec<(usize, usize)>)
        requires
            keep@.len() >= self@.nodes.len(),
        ensures
            r@.len() == self@.nodes.len(),
            r@.map_values(|p: (usize, usize)| p.0) == placed_cols(self@.nodes, keep@),
            columns_ok(self@.nodes, keep@, layout_cols(self@.nodes, keep@)),
            match out_pos(self@.nodes) {
                Some(o) => keep@[o] ==> forall|i: int| 0 <= i < self@.nodes.len() && keep@[i] ==> r@[i].0 <= r@[o].0,
                None => true,
            },
            forall|i: int| 0 <= i < self@.nodes.len() ==> r@[i].1 == (if keep@[i] {
                rank(self@.nodes, track_ids@, keep@, r@.map_values(|p: (usize, usize)| p.0), i, self@.nodes.len() as int) as usize
            } else {
                usize::MAX
            }),
    {
        let ghost ns = self@.nodes;
        let ghost tids = track_ids@;
        let n = self.nodes.len();
        let mut memo: Vec<Option<usize>> = Vec::new();
        let mut visiting: Vec<bool> = Vec::new();
        let mut c: usize = 0;
        while c < n
            invariant
                c <= n,
                memo@.len() == c,
                visiting@.len() == c,
                forall|x: int| 0 <= x < c ==> #[trigger] memo@[x] == None::<usize>,
                forall|x: int| 0 <= x < c ==> !#[trigger] visiting@[x],
            decreases n - c,
        {
            let ghost m1 = memo@;
            let ghost v1 = visiting@;
            memo.push(None);
            visiting.push(false);
            assert(memo@ == m1.push(None));
            assert(visiting@ == v1.push(false));
            c += 1;
        }
        proof {
            assert(done(memo@) =~= Set::<int>::empty());
            assert(memo_inv(ns, keep@, memo@, visiting@));
        }
        let ghost m0 = Seq::new(n as nat, |x: int| None::<usize>);
        let ghost v0 = Seq::new(n as nat, |x: int| false);
        assert(memo@ =~= m0);
        assert(visiting@ =~= v0);
        proof {
            lemma_int_range(0, n as int);
            lemma_len_subset(fresh(memo@, visiting@), set_int_range(0, n as int));
        }
        if let Some(out) = self.out_id() {
            if let Some(o) = self.idx(out) {
                if keep[o] {
                    self.height(o, keep, &mut memo, &mut visiting, Ghost(n as nat));
                }
            }
        }
        let ghost m1 = memo@;
        assert(m1 == match crate::graph::id_at(ns, crate::graph::is_out()) {
            Some(out) => match find(ns, out) {
                Some(o) => if keep@[o] { height_of(ns, keep@, n as nat, o, m0, v0).0 } else { m0 },
                None => m0,
            },
            None => m0,
        });
        let mut cols: Vec<usize> = Vec::new();
        let mut i: usize = 0;
        while i < n
            invariant
                ns == self@.nodes,
                n == ns.len(),
                i <= n,
                memo_inv(ns, keep@, memo@, visiting@),
                forall|x: int| 0 <= x < n ==> !visiting@[x],
                cols@.len() == i,
                forall|x: int| 0 <= x < i ==> cols@[x] == (if keep@[x] { memo@[x]->0 } else { usize::MAX }),
                forall|x: int| 0 <= x < i && keep@[x] ==> memo@[x] is Some,
                v0 == Seq::new(n as nat, |x: int| false),
                heights_from(ns, keep@, n as nat, 0, n as int, m1, v0) == heights_from(ns, keep@, n as nat, i as int, n as int, memo@, v0),
            decreases n - i,
        {
            assert(visiting@ =~= v0);
            proof {
                lemma_int_range(0, n as int);
                lemma_len_subset(fresh(memo@, visiting@), set_int_range(0, n as int));
            }
            if keep[i] {
                let ghost mb = memo@;
                let h = self.height(i, keep, &mut memo, &mut visiting, Ghost(n as nat));
                proof {
                    assert forall|x: int| 0 <= x < i implies cols@[x] == (if keep@[x] { memo@[x]->0 } else { usize::MAX }) by {
                        if keep@[x] {
                            assert(memo@[x] == mb[x]);
                        }
                    }
                }
                cols.push(h);
            } else {
                cols.push(usize::MAX);
            }
            i += 1;
        }
        let ghost cv = cols@;
        assert(cv =~= layout_cols(ns, keep@)) by {
            assert(memo@ == heights_from(ns, keep@, n as nat, 0, n as int, m1, v0));
        }
        proof {
            lemma_int_range(0, n as int);
            lemma_len_subset(done(memo@), set_int_range(0, n as int));
            assert forall|x: int| 0 <= x < n && keep@[x] implies #[trigger] height_ok(ns, keep@, memo@, x) && cv[x] as int == hval(memo@, x) by {}
            assert forall|x: int| 0 <= x < n && keep@[x] implies hval(memo@, x) == cv[x] as int by {}
            assert(columns_ok(ns, keep@, cv)) by {
                assert forall|a: int, j: int| #![trigger reads(ns, a, j), keep@[a], keep@[j]]
                    0 <= a < n && keep@[a] && reads(ns, a, j) && keep@[j] && !upstream(ns, j, a) implies cv[a] > cv[j] by {
                    assert(height_ok(ns, keep@, memo@, a));
                    lemma_read_range(ns, a, j);
                }
                assert forall|a: int| 0 <= a < n && keep@[a] implies
                    (cv[a] == 0 <==> forall|j: int| #![trigger reads(ns, a, j)] reads(ns, a, j) ==> !keep@[j]) by {
                    assert(height_ok(ns, keep@, memo@, a));
                }
                assert forall|a: int| 0 <= a < n && keep@[a] && cv[a] > 0 implies
                    exists|j: int| #![trigger reads(ns, a, j)] reads(ns, a, j) && keep@[j] && cv[a] <= cv[j] + 1 by {
                    assert(height_ok(ns, keep@, memo@, a));
                    let j = choose|j: int| #![trigger reads(ns, a, j)] reads(ns, a, j) && keep@[j] && (memo@[a]->0 as int) <= hval(memo@, j) + 1;
                    lemma_read_range(ns, a, j);
                }
            }
        }
        let mut m: usize = 0;
        let mut x: usize = 0;
        while x < n
            invariant
                x <= n,
                n == ns.len(),
                cols@ == cv,
                cv.len() == n,
                keep@.len() >= n,
                m as int == max_shown(cv, keep@, x as int),
            decreases n - x,
        {
            if keep[x] && cols[x] > m {
                m = cols[x];
            }
            x += 1;
        }
        if let Some(out) = self.out_id() {
            if let Some(o) = self.idx(out) {
                if keep[o] {
                    cols.set(o, m);
                }
            }
        }
        let ghost pv = cols@;
        proof {
            lemma_max_shown(cv, keep@, n as int);
            assert(pv =~= placed_cols(ns, keep@));
        }
        let deps = self.deps(track_ids);
        let w = track_ids.len();
        let mut groups: Vec<usize> = Vec::new();
        let mut i: usize = 0;
        while i < n
            invariant
                n == ns.len(),
                ns == self@.nodes,
                tids == track_ids@,
                w == tids.len(),
                i <= n,
                table(deps@, n as int, w as int),
                forall|a: int, u: int| 0 <= a < n && 0 <= u < w ==> (deps@[a]@[u] <==> depends(ns, tids, a, u)),
                groups@.len() == i,
                forall|x: int| 0 <= x < i ==> groups@[x] as int == group_of(ns, tids, x),
            decreases n - i,
        {
            let mut u: usize = 0;
            while u < w && !deps[i][u]
                invariant
                    n == ns.len(),
                    i < n,
                    w == tids.len(),
                    u <= w,
                    table(deps@, n as int, w as int),
                    forall|a: int, v: int| 0 <= a < n && 0 <= v < w ==> (deps@[a]@[v] <==> depends(ns, tids, a, v)),
                    group_of(ns, tids, i as int) == first_dep_from(ns, tids, i as int, u as int),
                decreases w - u,
            {
                u += 1;
            }
            groups.push(u);
            i += 1;
        }
        let mut r: Vec<(usize, usize)> = Vec::new();
        let mut i: usize = 0;
        while i < n
            invariant
                n == ns.len(),
                ns == self@.nodes,
                tids == track_ids@,
                i <= n,
                keep@.len() >= n,
                cols@ == pv,
                pv.len() == n,
                forall|x: int| 0 <= x < n && keep@[x] ==> pv[x] <= n,
                groups@.len() == n,
                forall|x: int| 0 <= x < n ==> groups@[x] as int == group_of(ns, tids, x),
                r@.len() == i,
                forall|x: int| 0 <= x < i ==> r@[x].0 == pv[x],
                forall|x: int| 0 <= x < i ==> r@[x].1 == (if keep@[x] { rank(ns, tids, keep@, pv, x, n as int) as usize } else { usize::MAX }),
            decreases n - i,
        {
            if keep[i] {
                let mut cnt: usize = 0;
                let mut j: usize = 0;
                while j < n
                    invariant
                        n == ns.len(),
                        ns == self@.nodes,
                        i < n,
                        j <= n,
                        keep@.len() >= n,
                        cols@ == pv,
                        pv.len() == n,
                        groups@.len() == n,
                        forall|x: int| 0 <= x < n ==> groups@[x] as int == group_of(ns, tids, x),
                        cnt as int == rank(ns, tids, keep@, pv, i as int, j as int),
                        cnt <= j,
                    decreases n - j,
                {
                    let gj = groups[j];
                    let gi = groups[i];
                    let idj = self.nodes[j].id;
                    let idi = self.nodes[i].id;
                    if keep[j] && cols[j] == cols[i] && (gj < gi || (gj == gi && (idj < idi || (idj == idi && j < i)))) {
                        cnt += 1;
                    }
                    j += 1;
                }
                r.push((cols[i], cnt));
            } else {
                r.push((cols[i], usize::MAX));
            }
            i += 1;
        }
        assert(r@.map_values(|p: (usize, usize)| p.0) =~= pv);
        r
    }
}

/// No shown node reads a shown node that depends on it: the shown part of the graph has no feedback.
pub open spec fn no_feedback(ns: Seq<NodeView>, keep: Seq<bool>) -> bool {
    forall|i: int, j: int| #![trigger reads(ns, i, j), keep[i], keep[j]]
        0 <= i < ns.len() && keep[i] && reads(ns, i, j) && keep[j] ==> !upstream(ns, j, i)
}

proof fn lemma_read_in_range(ns: Seq<NodeView>, i: int, j: int)
    requires
        reads(ns, i, j),
    ensures
        0 <= j < ns.len(),
{
    broadcast use lemma_position;

    let k = choose|k: int| reads_at(ns, i, k, j);
}

/// What `columns_ok` says about one shown node `i`.
pub open spec fn column_at(ns: Seq<NodeView>, keep: Seq<bool>, c: Seq<usize>, i: int) -> bool {
    &&& forall|j: int| #![trigger reads(ns, i, j)] reads(ns, i, j) && keep[j] && !upstream(ns, j, i) ==> c[i] > c[j]
    &&& (c[i] == 0 <==> forall|j: int| #![trigger reads(ns, i, j)] reads(ns, i, j) ==> !keep[j])
    &&& c[i] > 0 ==> exists|j: int| #![trigger reads(ns, i, j)] reads(ns, i, j) && keep[j] && c[i] <= c[j] + 1
}

proof fn lemma_column_agrees(ns: Seq<NodeView>, keep: Seq<bool>, c1: Seq<usize>, c2: Seq<usize>, i: int)
    requires
        column_at(ns, keep, c1, i),
        column_at(ns, keep, c2, i),
        forall|j: int| #![trigger reads(ns, i, j)] reads(ns, i, j) && keep[j] ==> !upstream(ns, j, i),
        forall|j: int| #![trigger reads(ns, i, j)] reads(ns, i, j) && keep[j] && c1[j] < c1[i] ==> c2[j] == c1[j],
    ensures
        c2[i] == c1[i],
{
    if c1[i] != 0 {
        let j1 = choose|j: int| #![trigger reads(ns, i, j)] reads(ns, i, j) && keep[j] && c1[i] <= c1[j] + 1;
        assert(c2[i] > c1[j1]);
        let j2 = choose|j: int| #![trigger reads(ns, i, j)] reads(ns, i, j) && keep[j] && c2[i] <= c2[j] + 1;
        assert(c1[i] > c2[j2]);
    }
}

proof fn lemma_columns_agree_upto(ns: Seq<NodeView>, keep: Seq<bool>, c1: Seq<usize>, c2: Seq<usize>, h: int)
    requires
        columns_ok(ns, keep, c1),
        columns_ok(ns, keep, c2),
        no_feedback(ns, keep),
        h >= 0,
    ensures
        forall|i: int| 0 <= i < ns.len() && keep[i] && c1[i] <= h ==> #[trigger] c2[i] == c1[i],
    decreases h,
{
    if h > 0 {
        lemma_columns_agree_upto(ns, keep, c1, c2, h - 1);
    }
    assert forall|i: int| 0 <= i < ns.len() && keep[i] && c1[i] <= h implies #[trigger] c2[i] == c1[i] by {
        if c1[i] == h {
            assert(column_at(ns, keep, c1, i));
            assert(column_at(ns, keep, c2, i));
            assert forall|j: int| #![trigger reads(ns, i, j)] reads(ns, i, j) && keep[j] && c1[j] < c1[i] implies c2[j] == c1[j] by {
                lemma_read_in_range(ns, i, j);
            }
            lemma_column_agrees(ns, keep, c1, c2, i);
        }
    }
}

/// Without feedback among the shown nodes, the column heights of a layout are determined: any
/// two column assignments that satisfy `columns_ok` are the same (each shown node sits one
/// column right of its rightmost shown input).
pub proof fn lemma_columns_unique(ns: Seq<NodeView>, keep: Seq<bool>, c1: Seq<usize>, c2: Seq<usize>)
    requires
        columns_ok(ns, keep, c1),
        columns_ok(ns, keep, c2),
        no_feedback(ns, keep),
    ensures
        c1 == c2,
{
    lemma_columns_agree_upto(ns, keep, c1, c2, usize::MAX as int);
    assert forall|i: int| 0 <= i < c1.len() implies c1[i] == c2[i] by {
        if keep[i] {
            assert(c2[i] == c1[i]);
        }
    }
    assert(c1 =~= c2);
}

} // verus!