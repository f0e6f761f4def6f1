//! Signal flow through the graph: which nodes read which, and which tracks each node
//! (transitively) depends on.
use vstd::prelude::*;
use vstd::set_lib::*;
use crate::graph::{Graph, Input, Kind, NodeView, find, lemma_position, position, is_out, short_text};
use crate::text::{push_str};

verus! {

broadcast use lemma_position;

/// Input `k` of node `i` links to the node at position `j`.
pub open spec fn reads_at(ns: Seq<NodeView>, i: int, k: int, j: int) -> bool {
    &&& 0 <= i < ns.len()
    &&& 0 <= k < ns[i].inputs.len()
    &&& ns[i].inputs[k] matches Input::Link(id) && find(ns, id) == Some(j)
}

/// Node `i` reads the output of node `j` through one of its inputs.
pub open spec fn reads(ns: Seq<NodeView>, i: int, j: int) -> bool {
    exists|k: int| reads_at(ns, i, k, j)
}

/// `p` is a walk through the graph against the signal flow: each node reads the next.
pub open spec fn walk(ns: Seq<NodeView>, p: Seq<int>) -> bool {
    &&& p.len() >= 1
    &&& forall|m: int| 0 <= m < p.len() ==> 0 <= #[trigger] p[m] < ns.len()
    &&& forall|m: int| 0 <= m < p.len() - 1 ==> reads(ns, #[trigger] p[m], p[m + 1])
}

/// Node `j` is upstream of node `i` (or `i` itself): `i` depends on `j`'s output.
pub open spec fn upstream(ns: Seq<NodeView>, i: int, j: int) -> bool {
    exists|p: Seq<int>| walk(ns, p) && p[0] == i && p.last() == j
}

/// Node `j` is a TRK node of the track listed at `t` (the first listing of its track).
pub open spec fn seed(ns: Seq<NodeView>, tids: Seq<u32>, j: int, t: int) -> bool {
    &&& 0 <= j < ns.len()
    &&& ns[j].kind == Kind::Trk
    &&& 0 <= t < tids.len()
    &&& tids[t] == ns[j].track
    &&& forall|u: int| 0 <= u < t ==> tids[u] != ns[j].track
}

/// `p` is a walk from `i` to a TRK node of track `t`.
pub open spec fn chain(ns: Seq<NodeView>, tids: Seq<u32>, i: int, t: int, p: Seq<int>) -> bool {
    walk(ns, p) && p[0] == i && seed(ns, tids, p.last(), t)
}

/// Node `i` depends on track `t`: a TRK node of that track is upstream of it.
pub open spec fn depends(ns: Seq<NodeView>, tids: Seq<u32>, i: int, t: int) -> bool {
    exists|p: Seq<int>| chain(ns, tids, i, t, p)
}

/// Node `i` depends on track `t` through a walk of at most `len` nodes.
pub open spec fn depends_within(ns: Seq<NodeView>, tids: Seq<u32>, i: int, t: int, len: int) -> bool {
    exists|p: Seq<int>| chain(ns, tids, i, t, p) && p.len() <= len
}

/// A table of one row per node and one column per track.
pub open spec fn table(d: Seq<Vec<bool>>, n: int, w: int) -> bool {
    &&& d.len() == n
    &&& forall|i: int| 0 <= i < n ==> (#[trigger] d[i])@.len() == w
}

/// A marked node whose input reads another node carries that node's marks.
pub open spec fn closed(ns: Seq<NodeView>, w: int, d: Seq<Vec<bool>>) -> bool {
    forall|i: int, j: int, t: int| #![trigger reads(ns, i, j), d[j]@[t]]
        reads(ns, i, j) && 0 <= t < w && d[j]@[t] ==> d[i]@[t]
}

proof fn lemma_chain_step(ns: Seq<NodeView>, tids: Seq<u32>, i: int, j: int, t: int, p: Seq<int>)
    requires
        reads(ns, i, j),
        0 <= i < ns.len(),
        chain(ns, tids, j, t, p),
    ensures
        chain(ns, tids, i, t, seq![i] + p),
{
    let q = seq![i] + p;
    assert forall|m: int| 0 <= m < q.len() - 1 implies reads(ns, #[trigger] q[m], q[m + 1]) by {
        if m > 0 {
            assert(q[m] == p[m - 1] && q[m + 1] == p[m]);
        }
    }
    assert(q.last() == p.last());
}

proof fn lemma_chain_tail(ns: Seq<NodeView>, tids: Seq<u32>, i: int, t: int, p: Seq<int>)
    requires
        chain(ns, tids, i, t, p),
        p.len() >= 2,
    ensures
        reads(ns, i, p[1]),
        chain(ns, tids, p[1], t, p.drop_first()),
{
    let q = p.drop_first();
    assert(reads(ns, p[0], p[1]));
    assert forall|m: int| 0 <= m < q.len() - 1 implies reads(ns, #[trigger] q[m], q[m + 1]) by {
        assert(q[m] == p[m + 1] && q[m + 1] == p[m + 2]);
        assert(reads(ns, p[m + 1], p[m + 2]));
    }
    assert forall|m: int| 0 <= m < q.len() implies 0 <= #[trigger] q[m] < ns.len() by {
        assert(q[m] == p[m + 1]);
    }
}

/// In a closed table whose TRK nodes are marked, every node is marked for every track it depends on.
proof fn lemma_closed_complete(ns: Seq<NodeView>, tids: Seq<u32>, d: Seq<Vec<bool>>, i: int, t: int, p: Seq<int>)
    requires
        table(d, ns.len() as int, tids.len() as int),
        closed(ns, tids.len() as int, d),
        forall|j: int, u: int| #[trigger] seed(ns, tids, j, u) ==> d[j]@[u],
        chain(ns, tids, i, t, p),
    ensures
        d[i]@[t],
    decreases p.len(),
{
    if p.len() == 1 {
        assert(seed(ns, tids, p.last(), t));
    } else {
        lemma_chain_tail(ns, tids, i, t, p);
        lemma_closed_complete(ns, tids, d, p[1], t, p.drop_first());
        assert(reads(ns, i, p[1]) && d[p[1]]@[t]);
    }
}

/// A sequence of more than `n` values in `[0, n)` repeats a value.
proof fn lemma_repeat(p: Seq<int>, n: int)
    requires
        0 <= n < p.len(),
        forall|m: int| 0 <= m < p.len() ==> 0 <= #[trigger] p[m] < n,
    ensures
        exists|a: int, b: int| 0 <= a < b < p.len() && p[a] == p[b],
{
    lemma_int_range(0, n);
    assert(p.to_set().subset_of(set_int_range(0, n))) by {
        assert forall|x: int| p.to_set().contains(x) implies set_int_range(0, n).contains(x) by {
            let m = choose|m: int| 0 <= m < p.len() && p[m] == x;
            assert(0 <= p[m] < n);
        }
    }
    vstd::set_lib::lemma_len_subset(p.to_set(), set_int_range(0, n));
    if p.no_duplicates() {
        p.unique_seq_to_set();
        assert(false);
    }
    let (a, b) = choose|a: int, b: int| 0 <= a < p.len() && 0 <= b < p.len() && a != b && p[a] == p[b];
    if a < b {
        assert(0 <= a < b < p.len() && p[a] == p[b]);
    } else {
        assert(0 <= b < a < p.len() && p[b] == p[a]);
    }
}

/// Cutting the loop between two visits of the same node out of a chain leaves a chain.
#[verifier::rlimit(40)]
proof fn lemma_chain_cut(ns: Seq<NodeView>, tids: Seq<u32>, i: int, t: int, p: Seq<int>, a: int, b: int)
    requires
        chain(ns, tids, i, t, p),
        0 <= a < b < p.len(),
        p[a] == p[b],
    ensures
        chain(ns, tids, i, t, p.subrange(0, a) + p.subrange(b, p.len() as int)),
{
    let q = p.subrange(0, a) + p.subrange(b, p.len() as int);
    assert forall|m: int| 0 <= m < q.len() implies 0 <= #[trigger] q[m] < ns.len() by {
        if m < a { assert(q[m] == p[m]); } else { assert(q[m] == p[m - a + b]); }
    }
    assert forall|m: int| 0 <= m < q.len() - 1 implies reads(ns, #[trigger] q[m], q[m + 1]) by {
        if m < a - 1 {
            assert(q[m] == p[m] && q[m + 1] == p[m + 1]);
        } else if m == a - 1 {
            assert(q[m] == p[a - 1] && q[m + 1] == p[b]);
            assert(reads(ns, p[a - 1], p[a]));
        } else {
            assert(q[m] == p[m - a + b] && q[m + 1] == p[m - a + b + 1]);
            assert(reads(ns, p[m - a + b], p[m - a + b + 1]));
        }
    }
    assert(q[0] == i) by {
        if a == 0 { assert(q[0] == p[b]); }
    }
    assert(q.last() == p.last());
}

/// A chain can be cut down to at most as many nodes as the graph has.
proof fn lemma_chain_short(ns: Seq<NodeView>, tids: Seq<u32>, i: int, t: int, p: Seq<int>) -> (q: Seq<int>)
    requires
        chain(ns, tids, i, t, p),
    ensures
        chain(ns, tids, i, t, q),
        q.len() <= ns.len(),
    decreases p.len(),
{
    if p.len() <= ns.len() {
        p
    } else {
        lemma_repeat(p, ns.len() as int);
        let (a, b) = choose|a: int, b: int| 0 <= a < b < p.len() && p[a] == p[b];
        lemma_chain_cut(ns, tids, i, t, p, a, b);
        lemma_chain_short(ns, tids, i, t, p.subrange(0, a) + p.subrange(b, p.len() as int))
    }
}

impl Graph {
    /// which tracks each node (transitively) depends on
    pub fn deps(&self, track_ids: &[u32]) -> (d: Vec<Vec<bool>>)
        ensures
            table(d@, self@.nodes.len() as int, track_ids@.len() as int),
            forall|i: int, t: int| 0 <= i < self@.nodes.len() && 0 <= t < track_ids@.len() ==>
                (d@[i]@[t] <==> depends(self@.nodes, track_ids@, i, t)),
    {
        let ghost ns = self@.nodes;
        let ghost tids = track_ids@;
        let n = self.nodes.len();
        let w = track_ids.len();
        let mut deps: Vec<Vec<bool>> = Vec::new();
        let mut i: usize = 0;
        while i < n
            invariant
                n == ns.len(),
                ns == self@.nodes,
                tids == track_ids@,
                w == tids.len(),
                i <= n,
                table(deps@, i as int, w as int),
                forall|a: int, t: int| 0 <= a < i && 0 <= t < w ==> (deps@[a]@[t] <==> seed(ns, tids, a, t)),
            decreases n - i,
        {
            let node = &self.nodes[i];
            let mut row: Vec<bool> = Vec::new();
            let mut seeded: bool = false;
            let mut t: usize = 0;
            while t < w
                invariant
                    i < n,
                    n == ns.len(),
                    ns == self@.nodes,
                    tids == track_ids@,
                    w == tids.len(),
                    node@ == ns[i as int],
                    t <= w,
                    row@.len() == t,
                    seeded == exists|u: int| 0 <= u < t && tids[u] == node.track,
                    forall|u: int| 0 <= u < t ==> (row@[u] <==> seed(ns, tids, i as int, u)),
                decreases w - t,
            {
                let hit = node.kind == Kind::Trk && !seeded && track_ids[t] == node.track;
                row.push(hit);
                if track_ids[t] == node.track {
                    seeded = true;
                }
                t += 1;
            }
            deps.push(row);
            i += 1;
        }
        proof {
            assert forall|a: int, u: int| 0 <= a < n && 0 <= u < w && deps@[a]@[u] implies depends(ns, tids, a, u) by {
                assert(chain(ns, tids, a, u, seq![a]));
            }
            assert forall|a: int, u: int| #[trigger] depends_within(ns, tids, a, u, 1) && 0 <= a < n && 0 <= u < w
                implies deps@[a]@[u] by {
                let p = choose|p: Seq<int>| chain(ns, tids, a, u, p) && p.len() <= 1;
                assert(p.last() == a);
            }
        }
        let mut round: usize = 0;
        let mut stable = false;
        while !stable && round < n
            invariant
                n == ns.len(),
                ns == self@.nodes,
                tids == track_ids@,
                w == tids.len(),
                round <= n,
                table(deps@, n as int, w as int),
                forall|a: int, u: int| 0 <= a < n && 0 <= u < w && deps@[a]@[u] ==> depends(ns, tids, a, u),
                forall|a: int, u: int| 0 <= a < n && 0 <= u < w && #[trigger] depends_within(ns, tids, a, u, round + 1) ==> deps@[a]@[u],
                stable ==> closed(ns, w as int, deps@),
            decreases n - round,
        {
            let ghost start = deps@;
            let mut changed = false;
            let mut i: usize = 0;
            while i < n
                invariant
                    n == ns.len(),
                    ns == self@.nodes,
                    tids == track_ids@,
                    w == tids.len(),
                    i <= n,
                    table(deps@, n as int, w as int),
                    table(start, n as int, w as int),
                    forall|a: int, u: int| 0 <= a < n && 0 <= u < w && deps@[a]@[u] ==> depends(ns, tids, a, u),
                    forall|a: int, u: int| 0 <= a < n && 0 <= u < w && start[a]@[u] ==> deps@[a]@[u],
                    forall|a: int, u: int| 0 <= a < n && 0 <= u < w && #[trigger] depends_within(ns, tids, a, u, round + 1) ==> start[a]@[u],
                    forall|a: int, j: int, u: int| #![trigger reads(ns, a, j), start[j]@[u]]
                        0 <= a < i && reads(ns, a, j) && 0 <= u < w && start[j]@[u] ==> deps@[a]@[u],
                    !changed ==> deps@ == start,
                decreases n - i,
            {
                let ghost before_i = deps@;
                let ghost ii = i as int;
                let len = self.nodes[i].inputs.len();
                let mut k: usize = 0;
                while k < len
                    invariant
                        n == ns.len(),
                        ns == self@.nodes,
                        tids == track_ids@,
                        w == tids.len(),
                        i < n,
                        len == ns[i as int].inputs.len(),
                        k <= len,
                        table(deps@, n as int, w as int),
                        table(start, n as int, w as int),
                        forall|a: int, u: int| 0 <= a < n && 0 <= u < w && deps@[a]@[u] ==> depends(ns, tids, a, u),
                        forall|a: int, u: int| 0 <= a < n && 0 <= u < w && before_i[a]@[u] ==> deps@[a]@[u],
                        forall|a: int, u: int| 0 <= a < n && 0 <= u < w && start[a]@[u] ==> before_i[a]@[u],
                        table(before_i, n as int, w as int),
                        forall|a: int| 0 <= a < n && a != i ==> deps@[a] == before_i[a],
                        ii == i,
                        forall|c: int, j: int, u: int|
                            0 <= c < k && #[trigger] reads_at(ns, ii, c, j) && 0 <= u < w && #[trigger] start[j]@[u] ==> deps@[ii]@[u],
                        !changed ==> deps@ == start,
                    decreases len - k,
                {
                    if let Input::Link(id) = self.nodes[i].inputs[k] {
                        if let Some(j) = self.idx(id) {
                            assert(reads_at(ns, i as int, k as int, j as int));
                            let ghost before_k = deps@;
                            let mut t: usize = 0;
                            while t < w
                                invariant
                                    n == ns.len(),
                                    ns == self@.nodes,
                                    tids == track_ids@,
                                    w == tids.len(),
                                    i < n,
                                    j < n,
                                    reads(ns, i as int, j as int),
                                    t <= w,
                                    table(deps@, n as int, w as int),
                                    table(before_k, n as int, w as int),
                                    forall|a: int, u: int| 0 <= a < n && 0 <= u < w && deps@[a]@[u] ==> depends(ns, tids, a, u),
                                    forall|a: int, u: int| 0 <= a < n && 0 <= u < w && before_k[a]@[u] ==> deps@[a]@[u],
                                    forall|a: int| 0 <= a < n && a != i ==> deps@[a] == before_k[a],
                                    forall|u: int| 0 <= u < t && before_k[j as int]@[u] ==> deps@[i as int]@[u],
                                    table(start, n as int, w as int),
                                    !changed ==> deps@ == start,
                                decreases w - t,
                            {
                                if deps[j][t] && !deps[i][t] {
                                    proof {
                                        assert(deps@[j as int]@[t as int]);
                                        assert(depends(ns, tids, j as int, t as int));
                                        let p = choose|p: Seq<int>| chain(ns, tids, j as int, t as int, p);
                                        lemma_chain_step(ns, tids, i as int, j as int, t as int, p);
                                    }
                                    let ghost before_set = deps@;
                                    deps[i].set(t, true);
                                    changed = true;
                                    assert forall|a: int| 0 <= a < n && a != i implies deps@[a] == before_k[a] by {
                                        assert(deps@[a] == before_set[a]);
                                    }
                                }
                                t += 1;
                            }
                        }
                    }
                    k += 1;
                }
                assert forall|j: int, u: int| #![trigger reads(ns, ii, j), start[j]@[u]]
                    reads(ns, ii, j) && 0 <= u < w && start[j]@[u] implies deps@[ii]@[u] by {
                    let c = choose|c: int| reads_at(ns, ii, c, j);
                }
                i += 1;
            }
            proof {
                assert forall|a: int, u: int| 0 <= a < n && 0 <= u < w && #[trigger] depends_within(ns, tids, a, u, round + 2)
                    implies deps@[a]@[u] by {
                    let p = choose|p: Seq<int>| chain(ns, tids, a, u, p) && p.len() <= round + 2;
                    if p.len() == 1 {
                        assert(depends_within(ns, tids, a, u, round + 1));
                    } else {
                        lemma_chain_tail(ns, tids, a, u, p);
                        assert(depends_within(ns, tids, p[1], u, round + 1));
                        assert(start[p[1]]@[u]);
                    }
                }
                if !changed {
                    assert forall|a: int, j: int, u: int| #![trigger reads(ns, a, j), deps@[j]@[u]]
                        reads(ns, a, j) && 0 <= u < w && deps@[j]@[u] implies deps@[a]@[u] by {
                        assert(0 <= a < n);
                    }
                }
            }
            if !changed {
                stable = true;
            }
            round += 1;
        }
        proof {
            assert forall|a: int, u: int| 0 <= a < n && 0 <= u < w && depends(ns, tids, a, u) implies deps@[a]@[u] by {
                let p = choose|p: Seq<int>| chain(ns, tids, a, u, p);
                if stable {
                    assert forall|j: int, v: int| #[trigger] seed(ns, tids, j, v) implies deps@[j]@[v] by {
                        assert(chain(ns, tids, j, v, seq![j]));
                        assert(depends_within(ns, tids, j, v, round + 1));
                    }
                    lemma_closed_complete(ns, tids, deps@, a, u, p);
                } else {
                    let q = lemma_chain_short(ns, tids, a, u, p);
                    assert(depends_within(ns, tids, a, u, round + 1));
                }
            }
        }
        deps
    }
}

/// Node `y` reads the output of node `x` by its id.
pub open spec fn feeds(ns: Seq<NodeView>, x: int, y: int) -> bool {
    0 <= x < ns.len() && 0 <= y < ns.len() && ns[y].inputs.contains(Input::Link(ns[x].id))
}

/// One step against the signal flow (`up`: to a node that `x` reads) or along it.
pub open spec fn step(ns: Seq<NodeView>, up: bool, x: int, y: int) -> bool {
    if up { reads(ns, x, y) } else { feeds(ns, x, y) }
}

pub open spec fn trail(ns: Seq<NodeView>, up: bool, p: Seq<int>) -> bool {
    &&& p.len() >= 1
    &&& forall|m: int| 0 <= m < p.len() ==> 0 <= #[trigger] p[m] < ns.len()
    &&& forall|m: int| 0 <= m < p.len() - 1 ==> step(ns, up, #[trigger] p[m], p[m + 1])
}

/// Node `i` can be reached from node `s` in steps of one direction.
pub open spec fn reachable(ns: Seq<NodeView>, up: bool, s: int, i: int) -> bool {
    exists|p: Seq<int>| trail(ns, up, p) && p[0] == s && p.last() == i
}

/// `s` is the position of a marked node.
pub open spec fn marked_pos(ns: Seq<NodeView>, marks: Seq<u32>, s: int) -> bool {
    exists|m: int| 0 <= m < marks.len() && find(ns, marks[m]) == Some(s)
}

/// Node `i` is upstream or downstream of a marked node, or marked itself.
pub open spec fn related_to(ns: Seq<NodeView>, marks: Seq<u32>, i: int) -> bool {
    exists|s: int| marked_pos(ns, marks, s) && (reachable(ns, true, s, i) || reachable(ns, false, s, i))
}

pub open spec fn in_list(st: Seq<usize>, s: int) -> bool {
    exists|q: int| 0 <= q < st.len() && st[q] == s
}

pub open spec fn marked_upto(ns: Seq<NodeView>, marks: Seq<u32>, m: int, s: int) -> bool {
    exists|c: int| 0 <= c < m && find(ns, marks[c]) == Some(s)
}

proof fn lemma_trail_closed(ns: Seq<NodeView>, up: bool, seen: Seq<bool>, p: Seq<int>)
    requires
        seen.len() == ns.len(),
        forall|x: int, y: int| 0 <= x < ns.len() && seen[x] && #[trigger] step(ns, up, x, y) ==> seen[y],
        trail(ns, up, p),
        seen[p[0]],
    ensures
        seen[p.last()],
    decreases p.len(),
{
    if p.len() > 1 {
        let q = p.drop_first();
        assert(step(ns, up, p[0], p[1]));
        assert forall|m: int| 0 <= m < q.len() - 1 implies step(ns, up, #[trigger] q[m], q[m + 1]) by {
            assert(q[m] == p[m + 1] && q[m + 1] == p[m + 2]);
            assert(step(ns, up, p[m + 1], p[m + 2]));
        }
        assert forall|m: int| 0 <= m < q.len() implies 0 <= #[trigger] q[m] < ns.len() by {
            assert(q[m] == p[m + 1]);
        }
        lemma_trail_closed(ns, up, seen, q);
    }
}

proof fn lemma_trail_extend(ns: Seq<NodeView>, up: bool, p: Seq<int>, y: int)
    requires
        trail(ns, up, p),
        step(ns, up, p.last(), y),
        0 <= y < ns.len(),
    ensures
        trail(ns, up, p.push(y)),
        p.push(y)[0] == p[0],
        p.push(y).last() == y,
{
    let q = p.push(y);
    assert forall|m: int| 0 <= m < q.len() - 1 implies step(ns, up, #[trigger] q[m], q[m + 1]) by {
        if m < p.len() - 1 {
            assert(q[m] == p[m] && q[m + 1] == p[m + 1]);
        } else {
            assert(q[m] == p.last());
        }
    }
}

fn has_link(ins: &Vec<Input>, id: u32) -> (r: bool)
    ensures
        r == ins@.contains(Input::Link(id)),
{
    let mut k: usize = 0;
    while k < ins.len()
        invariant
            k <= ins@.len(),
            forall|m: int| 0 <= m < k ==> ins@[m] != Input::Link(id),
        decreases ins@.len() - k,
    {
        if ins[k] == Input::Link(id) {
            return true;
        }
        k += 1;
    }
    false
}

/// Node `x` can be reached from one of `starts`.
pub open spec fn from_starts(ns: Seq<NodeView>, up: bool, starts: Seq<usize>, x: int) -> bool {
    exists|m: int| 0 <= m < starts.len() && reachable(ns, up, starts[m] as int, x)
}

proof fn lemma_step_range(ns: Seq<NodeView>, up: bool, x: int, y: int)
    requires
        step(ns, up, x, y),
    ensures
        0 <= y < ns.len(),
{
    if up {
        let k = choose|k: int| reads_at(ns, x, k, y);
    }
}

/// The bookkeeping of `explore`: what is seen or still to visit.
pub open spec fn explore_inv(ns: Seq<NodeView>, up: bool, n: int, seen: Seq<bool>, stack: Seq<usize>, starts: Seq<usize>) -> bool {
    &&& forall|q: int| 0 <= q < stack.len() ==> from_starts(ns, up, starts, #[trigger] stack[q] as int)
    &&& forall|x: int, y: int| 0 <= x < n && seen[x] && #[trigger] step(ns, up, x, y) ==> seen[y] || stack.contains(y as usize)
    &&& forall|m: int| 0 <= m < starts.len() ==> seen[starts[m] as int] || stack.contains(#[trigger] starts[m])
}

proof fn lemma_pop_seen(ns: Seq<NodeView>, up: bool, n: int, seen: Seq<bool>, old_stack: Seq<usize>, stack: Seq<usize>, starts: Seq<usize>, i: usize)
    requires
        n == ns.len(),
        n <= usize::MAX,
        seen.len() == n,
        0 <= i < n,
        seen[i as int],
        old_stack == stack.push(i),
        explore_inv(ns, up, n, seen, old_stack, starts),
    ensures
        explore_inv(ns, up, n, seen, stack, starts),
{
    assert forall|q: int| 0 <= q < stack.len() implies from_starts(ns, up, starts, #[trigger] stack[q] as int) by {
        assert(old_stack[q] == stack.push(i)[q]);
    }
    assert forall|x: int, y: int| 0 <= x < n && seen[x] && #[trigger] step(ns, up, x, y) implies
        seen[y] || stack.contains(y as usize) by {
        lemma_step_range(ns, up, x, y);
        if !seen[y] {
            assert(old_stack.contains(y as usize));
            let q = choose|q: int| 0 <= q < old_stack.len() && old_stack[q] == y as usize;
            assert(old_stack[q] == stack.push(i)[q]);
            if q < stack.len() { assert(stack[q] == y as usize); } else { assert(y == i); }
        }
    }
    assert forall|m: int| 0 <= m < starts.len() implies seen[starts[m] as int] || stack.contains(#[trigger] starts[m]) by {
        if !seen[starts[m] as int] {
            let q = choose|q: int| 0 <= q < old_stack.len() && old_stack[q] == starts[m];
            assert(old_stack[q] == stack.push(i)[q]);
            if q < stack.len() { assert(stack[q] == starts[m]); } else { assert(starts[m] == i); }
        }
    }
}

proof fn lemma_expanded(
    ns: Seq<NodeView>,
    up: bool,
    n: int,
    before_seen: Seq<bool>,
    seen: Seq<bool>,
    old_stack: Seq<usize>,
    before_stack: Seq<usize>,
    stack: Seq<usize>,
    starts: Seq<usize>,
    i: usize,
)
    requires
        n == ns.len(),
        n <= usize::MAX,
        before_seen.len() == n,
        0 <= i < n,
        seen == before_seen.update(i as int, true),
        old_stack == before_stack.push(i),
        explore_inv(ns, up, n, before_seen, old_stack, starts),
        forall|m: int| 0 <= m < starts.len() ==> starts[m] < n,
        stack.len() >= before_stack.len(),
        forall|q: int| 0 <= q < before_stack.len() ==> stack[q] == before_stack[q],
        forall|q: int| before_stack.len() <= q < stack.len() ==> step(ns, up, i as int, #[trigger] stack[q] as int) && stack[q] < n,
        forall|y: int| #[trigger] step(ns, up, i as int, y) ==> stack.contains(y as usize),
    ensures
        explore_inv(ns, up, n, seen, stack, starts),
{
    assert(from_starts(ns, up, starts, i as int)) by {
        assert(old_stack[old_stack.len() - 1] == i);
    }
    assert forall|q: int| 0 <= q < stack.len() implies from_starts(ns, up, starts, #[trigger] stack[q] as int) by {
        if q < before_stack.len() {
            assert(stack[q] == before_stack[q]);
            assert(old_stack[q] == before_stack.push(i)[q]);
        } else {
            let y = stack[q] as int;
            assert(step(ns, up, i as int, y));
            let m = choose|m: int| 0 <= m < starts.len() && reachable(ns, up, starts[m] as int, i as int);
            let p = choose|p: Seq<int>| trail(ns, up, p) && p[0] == starts[m] as int && p.last() == i as int;
            lemma_trail_extend(ns, up, p, y);
            assert(reachable(ns, up, starts[m] as int, y));
        }
    }
    assert forall|x: int, y: int| 0 <= x < n && seen[x] && #[trigger] step(ns, up, x, y) implies
        seen[y] || stack.contains(y as usize) by {
        lemma_step_range(ns, up, x, y);
        if x == i {
            assert(stack.contains(y as usize));
        } else if !seen[y] {
            assert(before_seen[x]);
            assert(old_stack.contains(y as usize));
            let q = choose|q: int| 0 <= q < old_stack.len() && old_stack[q] == y as usize;
            assert(old_stack[q] == before_stack.push(i)[q]);
            if q < before_stack.len() {
                assert(stack[q] == y as usize);
            } else {
                assert(old_stack[q] == i);
                assert(seen[i as int]);
            }
        }
    }
    assert forall|m: int| 0 <= m < starts.len() implies seen[starts[m] as int] || stack.contains(#[trigger] starts[m]) by {
        if !seen[starts[m] as int] {
            let q = choose|q: int| 0 <= q < old_stack.len() && old_stack[q] == starts[m];
            assert(old_stack[q] == before_stack.push(i)[q]);
            if q < before_stack.len() {
                assert(before_stack[q] == starts[m]);
                assert(stack[q] == before_stack[q]);
                assert(stack[q] == starts[m]);
            } else {
                assert(old_stack[q] == i);
                assert(seen[i as int]);
            }
        }
    }
}

impl Graph {
    /// Push every node one step from node `i` onto `stack`.
    fn push_steps(&self, i: usize, up: bool, stack: &mut Vec<usize>)
        requires
            i < self@.nodes.len(),
        ensures
            final(stack)@.len() >= old(stack)@.len(),
            forall|q: int| 0 <= q < old(stack)@.len() ==> final(stack)@[q] == old(stack)@[q],
            forall|q: int| old(stack)@.len() <= q < final(stack)@.len() ==>
                step(self@.nodes, up, i as int, #[trigger] final(stack)@[q] as int) && final(stack)@[q] < self@.nodes.len(),
            forall|y: int| #[trigger] step(self@.nodes, up, i as int, y) ==> final(stack)@.contains(y as usize),
    {
        let ghost ns = self@.nodes;
        let ghost st0 = stack@;
        let ghost ii = i as int;
        if up {
            let len = self.nodes[i].inputs.len();
            let mut k: usize = 0;
            while k < len
                invariant
                    ns == self@.nodes,
                    up,
                    i < ns.len(),
                    ii == i,
                    len == ns[ii].inputs.len(),
                    k <= len,
                    stack@.len() >= st0.len(),
                    forall|q: int| 0 <= q < st0.len() ==> stack@[q] == st0[q],
                    forall|q: int| st0.len() <= q < stack@.len() ==> step(ns, up, ii, #[trigger] stack@[q] as int) && stack@[q] < ns.len(),
                    forall|c: int, y: int| 0 <= c < k && #[trigger] reads_at(ns, ii, c, y) ==> stack@.contains(y as usize),
                decreases len - k,
            {
                if let Input::Link(id) = self.nodes[i].inputs[k] {
                    if let Some(j) = self.idx(id) {
                        assert(reads_at(ns, ii, k as int, j as int));
                        let ghost st = stack@;
                        stack.push(j);
                        assert(stack@[stack@.len() - 1] == j);
                        assert forall|c: int, y: int| 0 <= c < k + 1 && #[trigger] reads_at(ns, ii, c, y) implies stack@.contains(y as usize) by {
                            if c < k {
                                let q = choose|q: int| 0 <= q < st.len() && st[q] == y as usize;
                                assert(stack@[q] == y as usize);
                            }
                        }
                    }
                }
                k += 1;
            }
            assert forall|y: int| #[trigger] step(ns, up, ii, y) implies stack@.contains(y as usize) by {
                let c = choose|c: int| reads_at(ns, ii, c, y);
            }
        } else {
            let n = self.nodes.len();
            let id = self.nodes[i].id;
            let mut j: usize = 0;
            while j < n
                invariant
                    ns == self@.nodes,
                    n == ns.len(),
                    !up,
                    i < n,
                    ii == i,
                    id == ns[ii].id,
                    j <= n,
                    stack@.len() >= st0.len(),
                    forall|q: int| 0 <= q < st0.len() ==> stack@[q] == st0[q],
                    forall|q: int| st0.len() <= q < stack@.len() ==> step(ns, up, ii, #[trigger] stack@[q] as int) && stack@[q] < ns.len(),
                    forall|y: int| 0 <= y < j && #[trigger] feeds(ns, ii, y) ==> stack@.contains(y as usize),
                decreases n - j,
            {
                if has_link(&self.nodes[j].inputs, id) {
                    assert(feeds(ns, ii, j as int));
                    let ghost st = stack@;
                    stack.push(j);
                    assert(stack@[stack@.len() - 1] == j);
                    assert forall|y: int| 0 <= y < j + 1 && #[trigger] feeds(ns, ii, y) implies stack@.contains(y as usize) by {
                        if y < j {
                            let q = choose|q: int| 0 <= q < st.len() && st[q] == y as usize;
                            assert(stack@[q] == y as usize);
                        }
                    }
                }
                j += 1;
            }
            assert forall|y: int| #[trigger] step(ns, up, ii, y) implies stack@.contains(y as usize) by {
                assert(feeds(ns, ii, y));
            }
        }
    }

    /// Every node reachable from `starts` in steps of one direction.
    #[verifier::rlimit(80)]
    fn explore(&self, starts: &Vec<usize>, up: bool) -> (seen: Vec<bool>)
        requires
            forall|m: int| 0 <= m < starts@.len() ==> starts@[m] < self@.nodes.len(),
        ensures
            seen@.len() == self@.nodes.len(),
            forall|i: int| 0 <= i < self@.nodes.len() ==> (seen@[i] <==> from_starts(self@.nodes, up, starts@, i)),
    {
        let ghost ns = self@.nodes;
        let n = self.nodes.len();
        let mut seen: Vec<bool> = Vec::new();
        let mut c: usize = 0;
        while c < n
            invariant
                c <= n,
                seen@.len() == c,
                forall|x: int| 0 <= x < c ==> !seen@[x],
            decreases n - c,
        {
            seen.push(false);
            c += 1;
        }
        let mut stack: Vec<usize> = starts.clone();
        assert(stack@ =~= starts@);
        proof {
            assert forall|q: int| 0 <= q < stack@.len() implies from_starts(ns, up, starts@, #[trigger] stack@[q] as int) by {
                let x = starts@[q] as int;
                let p = seq![x];
                assert(trail(ns, up, p) && p[0] == x && p.last() == x);
                assert(reachable(ns, up, x, x));
                assert(0 <= q < starts@.len() && reachable(ns, up, starts@[q] as int, x));
            }
            lemma_int_range(0, n as int);
        }
        let ghost mut vis: Set<int> = Set::empty();
        while stack.len() > 0
            invariant
                n == ns.len(),
                ns == self@.nodes,
                seen@.len() == n,
                forall|m: int| 0 <= m < starts@.len() ==> starts@[m] < n,
                forall|m: int| 0 <= m < stack@.len() ==> stack@[m] < n,
                vis.finite(),
                forall|x: int| #[trigger] vis.contains(x) <==> (0 <= x < n && seen@[x]),
                vis.subset_of(set_int_range(0, n as int)),
                vis.len() <= n,
                forall|x: int| 0 <= x < n && seen@[x] ==> from_starts(ns, up, starts@, x),
                explore_inv(ns, up, n as int, seen@, stack@, starts@),
            decreases n - vis.len(), stack@.len(),
        {
            let ghost old_stack = stack@;
            let i = stack.pop().unwrap();
            assert(old_stack =~= stack@.push(i));
            if seen[i] {
                proof {
                    lemma_pop_seen(ns, up, n as int, seen@, old_stack, stack@, starts@, i);
                }
                continue;
            }
            let ghost before_seen = seen@;
            let ghost before_stack = stack@;
            assert(from_starts(ns, up, starts@, i as int)) by {
                assert(old_stack[old_stack.len() - 1] == i);
            }
            seen.set(i, true);
            proof {
                assert(!vis.contains(i as int));
                let ghost old_vis = vis;
                vis = vis.insert(i as int);
                assert(vis.len() == old_vis.len() + 1);
                assert(vis.subset_of(set_int_range(0, n as int)));
                lemma_int_range(0, n as int);
                vstd::set_lib::lemma_len_subset(vis, set_int_range(0, n as int));
            }
            self.push_steps(i, up, &mut stack);
            proof {
                lemma_expanded(ns, up, n as int, before_seen, seen@, old_stack, before_stack, stack@, starts@, i);
            }
        }
        proof {
            assert forall|i: int| 0 <= i < n && from_starts(ns, up, starts@, i) implies seen@[i] by {
                let m = choose|m: int| 0 <= m < starts@.len() && reachable(ns, up, starts@[m] as int, i);
                let p = choose|p: Seq<int>| trail(ns, up, p) && p[0] == starts@[m] as int && p.last() == i;
                assert(seen@[starts@[m] as int] || stack@.contains(starts@[m]));
                lemma_trail_closed(ns, up, seen@, p);
            }
        }
        seen
    }

    /// nodes upstream or downstream of any marked node (plus the marks themselves)
    pub fn related(&self, marks: &[u32]) -> (r: Vec<bool>)
        ensures
            r@.len() == self@.nodes.len(),
            forall|i: int| 0 <= i < self@.nodes.len() ==> (r@[i] <==> related_to(self@.nodes, marks@, i)),
    {
        let ghost ns = self@.nodes;
        let n = self.nodes.len();
        let mut starts: Vec<usize> = Vec::new();
        let mut m: usize = 0;
        while m < marks.len()
            invariant
                m <= marks@.len(),
                ns == self@.nodes,
                forall|q: int| 0 <= q < starts@.len() ==> starts@[q] < ns.len(),
                forall|s: int| #[trigger] in_list(starts@, s) <==> marked_upto(ns, marks@, m as int, s),
            decreases marks@.len() - m,
        {
            let ghost st = starts@;
            if let Some(j) = self.idx(marks[m]) {
                starts.push(j);
                assert forall|s: int| #[trigger] in_list(starts@, s) <==> marked_upto(ns, marks@, m + 1, s) by {
                    if in_list(starts@, s) {
                        let q = choose|q: int| 0 <= q < starts@.len() && starts@[q] == s;
                        if q < st.len() {
                            assert(st[q] == s);
                            assert(in_list(st, s));
                            let c = choose|c: int| 0 <= c < m && find(ns, marks@[c]) == Some(s);
                            assert(0 <= c < m + 1 && find(ns, marks@[c]) == Some(s));
                        } else {
                            assert(find(ns, marks@[m as int]) == Some(s));
                        }
                    }
                    if marked_upto(ns, marks@, m + 1, s) {
                        let c = choose|c: int| 0 <= c < m + 1 && find(ns, marks@[c]) == Some(s);
                        if c < m {
                            assert(marked_upto(ns, marks@, m as int, s));
                            assert(in_list(st, s));
                            let q = choose|q: int| 0 <= q < st.len() && st[q] == s;
                            assert(starts@[q] == s);
                        } else {
                            assert(starts@[st.len() as int] == s);
                        }
                    }
                }
            } else {
                assert forall|s: int| #[trigger] in_list(starts@, s) <==> marked_upto(ns, marks@, m + 1, s) by {
                    if marked_upto(ns, marks@, m + 1, s) {
                        let c = choose|c: int| 0 <= c < m + 1 && find(ns, marks@[c]) == Some(s);
                        assert(c < m);
                        assert(marked_upto(ns, marks@, m as int, s));
                    }
                    if in_list(st, s) {
                        let c = choose|c: int| 0 <= c < m && find(ns, marks@[c]) == Some(s);
                        assert(0 <= c < m + 1 && find(ns, marks@[c]) == Some(s));
                    }
                }
            }
            m += 1;
        }
        let anc = self.explore(&starts, true);
        let desc = self.explore(&starts, false);
        let mut r: Vec<bool> = Vec::new();
        let mut i: usize = 0;
        while i < n
            invariant
                i <= n,
                n == ns.len(),
                ns == self@.nodes,
                anc@.len() == n,
                desc@.len() == n,
                r@.len() == i,
                forall|x: int| 0 <= x < i ==> r@[x] == (anc@[x] || desc@[x]),
            decreases n - i,
        {
            r.push(anc[i] || desc[i]);
            i += 1;
        }
        proof {
            assert forall|x: int| 0 <= x < n implies (r@[x] <==> related_to(ns, marks@, x)) by {
                if r@[x] {
                    let up = anc@[x];
                    assert(from_starts(ns, up, starts@, x));
                    let m = choose|m: int| 0 <= m < starts@.len() && reachable(ns, up, starts@[m] as int, x);
                    let s = starts@[m] as int;
                    assert(in_list(starts@, s));
                    assert(marked_upto(ns, marks@, marks@.len() as int, s));
                    assert(marked_pos(ns, marks@, s));
                }
                if related_to(ns, marks@, x) {
                    let s = choose|s: int| marked_pos(ns, marks@, s) && (reachable(ns, true, s, x) || reachable(ns, false, s, x));
                    let c = choose|c: int| 0 <= c < marks@.len() && find(ns, marks@[c]) == Some(s);
                    assert(marked_upto(ns, marks@, marks@.len() as int, s));
                    assert(in_list(starts@, s));
                    let q = choose|q: int| 0 <= q < starts@.len() && starts@[q] == s;
                    assert(starts@[q] as int == s);
                    if reachable(ns, true, s, x) {
                        assert(from_starts(ns, true, starts@, x));
                    } else {
                        assert(from_starts(ns, false, starts@, x));
                    }
                }
            }
        }
        r
    }
}

/// Track `t` has a TRK node.
pub open spec fn has_trk(ns: Seq<NodeView>, tid: u32) -> bool {
    exists|j: int| 0 <= j < ns.len() && ns[j].kind == Kind::Trk && ns[j].track == tid
}

/// The silent-track messages for the first `m` names.
pub open spec fn path_msgs(ns: Seq<NodeView>, tids: Seq<u32>, names: Seq<Seq<char>>, o: int, m: int) -> Seq<Seq<char>>
    decreases m,
{
    if m <= 0 {
        seq![]
    } else {
        path_msgs(ns, tids, names, o, m - 1) + if has_trk(ns, tids[m - 1]) && !depends(ns, tids, o, m - 1) {
            seq!["track "@ + names[m - 1] + " has no path to OUT: build a chain from its TRK nodes and press o on the last node (or :voice)"@]
        } else {
            seq![]
        }
    }
}

/// An oscillator's frequency comes from a 0..1 signal.
pub open spec fn slow_freq(ns: Seq<NodeView>, i: int) -> bool {
    &&& ns[i].kind == Kind::Osc
    &&& ns[i].inputs[0] is Link
    &&& find(ns, ns[i].inputs[0]->Link_0) matches Some(j) && {
        let sn = ns[j];
        sn.kind == Kind::Env || sn.kind == Kind::Key || (sn.kind == Kind::Trk && sn.var != 0)
    }
}

/// The oscillator messages for the first `m` nodes.
pub open spec fn freq_msgs(ns: Seq<NodeView>, m: int) -> Seq<Seq<char>>
    decreases m,
{
    if m <= 0 {
        seq![]
    } else {
        freq_msgs(ns, m - 1) + if slow_freq(ns, m - 1) {
            let sn = ns[find(ns, ns[m - 1].inputs[0]->Link_0)->0];
            seq![short_text(ns[m - 1]) + " freq is driven by "@ + short_text(sn) + " (a 0..1 signal, so 0..1 Hz): wire TRK freq into freq, or scale it with MATH * first"@]
        } else {
            seq![]
        }
    }
}

/// What `diagnose` reports.
pub open spec fn diagnosis(ns: Seq<NodeView>, tids: Seq<u32>, names: Seq<Seq<char>>) -> Seq<Seq<char>> {
    match position(ns, is_out()) {
        None => seq!["no OUT node"@],
        Some(p) => {
            let o = find(ns, ns[p].id)->0;
            let out_msg = if ns[o].inputs[0] is Const { seq!["OUT has nothing connected (press o on a node)"@] } else { seq![] };
            path_msgs(ns, tids, names, o, names.len() as int) + out_msg + freq_msgs(ns, ns.len() as int)
        },
    }
}

/// What `diagnose` needs: a name per listed track at most, and a first input on OUT and on each oscillator.
pub open spec fn diagnose_ok(ns: Seq<NodeView>, tids: Seq<u32>, names: Seq<Seq<char>>) -> bool {
    &&& names.len() <= tids.len()
    &&& forall|i: int| 0 <= i < ns.len() && ns[i].kind == Kind::Osc ==> ns[i].inputs.len() > 0
    &&& position(ns, is_out()) matches Some(p) ==> ns[find(ns, ns[p].id)->0].inputs.len() > 0
}

fn has_trk_exec(g: &Graph, tid: u32) -> (r: bool)
    ensures
        r == has_trk(g@.nodes, tid),
{
    let mut j: usize = 0;
    while j < g.nodes.len()
        invariant
            j <= g@.nodes.len(),
            forall|q: int| 0 <= q < j ==> !(g@.nodes[q].kind == Kind::Trk && g@.nodes[q].track == tid),
        decreases g@.nodes.len() - j,
    {
        if g.nodes[j].kind == Kind::Trk && g.nodes[j].track == tid {
            assert(g.nodes@[j as int]@ == g@.nodes[j as int]);
            return true;
        }
        j += 1;
    }
    false
}

impl Graph {
    /// human-readable reasons a track might be silent
    pub fn diagnose(&self, track_ids: &[u32], names: &[String]) -> (out: Vec<String>)
        requires
            diagnose_ok(self@.nodes, track_ids@, names@.map_values(|s: String| s@)),
        ensures
            out@.map_values(|s: String| s@) == diagnosis(self@.nodes, track_ids@, names@.map_values(|s: String| s@)),
    {
        broadcast use lemma_position;

        let ghost ns = self@.nodes;
        let ghost tids = track_ids@;
        let ghost nm = names@.map_values(|s: String| s@);
        let mut out: Vec<String> = Vec::new();
        let deps = self.deps(track_ids);
        let o = match self.out_id() {
            Some(id) => match self.idx(id) {
                Some(o) => o,
                None => {
                    assert(id_is_out(ns, id));
                    return out;
                },
            },
            None => {
                let mut m = String::new();
                push_str(&mut m, "no OUT node");
                out.push(m);
                assert(out@.map_values(|s: String| s@) =~= seq!["no OUT node"@]);
                return out;
            },
        };
        let ghost oi = o as int;
        let mut t: usize = 0;
        while t < names.len()
            invariant
                ns == self@.nodes,
                tids == track_ids@,
                nm == names@.map_values(|s: String| s@),
                names@.len() <= tids.len(),
                o < ns.len(),
                oi == o,
                t <= names@.len(),
                table(deps@, ns.len() as int, tids.len() as int),
                forall|a: int, u: int| 0 <= a < ns.len() && 0 <= u < tids.len() ==> (deps@[a]@[u] <==> depends(ns, tids, a, u)),
                out@.map_values(|s: String| s@) == path_msgs(ns, tids, nm, oi, t as int),
            decreases names@.len() - t,
        {
            let has = has_trk_exec(self, track_ids[t]);
            let ghost before = out@;
            if has && !deps[o][t] {
                let mut m = String::new();
                push_str(&mut m, "track ");
                push_str(&mut m, names[t].as_str());
                push_str(&mut m, " has no path to OUT: build a chain from its TRK nodes and press o on the last node (or :voice)");
                out.push(m);
            }
            assert(out@.map_values(|s: String| s@) =~= path_msgs(ns, tids, nm, oi, t + 1));
            t += 1;
        }
        let ghost after_paths = out@;
        proof {
            let p = position(ns, is_out())->0;
            assert(find(ns, ns[p].id) == Some(oi));
        }
        if let Input::Const(_) = self.nodes[o].inputs[0] {
            let mut m = String::new();
            push_str(&mut m, "OUT has nothing connected (press o on a node)");
            out.push(m);
        }
        let ghost after_out = out@.map_values(|s: String| s@);
        let mut i: usize = 0;
        while i < self.nodes.len()
            invariant
                ns == self@.nodes,
                i <= ns.len(),
                forall|x: int| 0 <= x < ns.len() && ns[x].kind == Kind::Osc ==> ns[x].inputs.len() > 0,
                out@.map_values(|s: String| s@) == after_out + freq_msgs(ns, i as int),
            decreases ns.len() - i,
        {
            let n = &self.nodes[i];
            let ghost before = out@.map_values(|s: String| s@);
            let ghost ii = i as int;
            let mut pushed = false;
            if n.kind == Kind::Osc {
                if let Input::Link(src) = n.inputs[0] {
                    if let Some(j) = self.idx(src) {
                        let sn = &self.nodes[j];
                        if sn.kind == Kind::Env || sn.kind == Kind::Key || (sn.kind == Kind::Trk && sn.var != 0) {
                            let mut m = n.short();
                            push_str(&mut m, " freq is driven by ");
                            let t2 = sn.short();
                            push_str(&mut m, t2.as_str());
                            push_str(&mut m, " (a 0..1 signal, so 0..1 Hz): wire TRK freq into freq, or scale it with MATH * first");
                            assert(slow_freq(ns, ii));
                            assert(m@ == short_text(ns[ii]) + " freq is driven by "@ + short_text(ns[j as int])
                                + " (a 0..1 signal, so 0..1 Hz): wire TRK freq into freq, or scale it with MATH * first"@);
                            out.push(m);
                            pushed = true;
                            assert(out@.map_values(|s: String| s@) =~= before.push(short_text(ns[ii]) + " freq is driven by "@ + short_text(ns[j as int])
                                + " (a 0..1 signal, so 0..1 Hz): wire TRK freq into freq, or scale it with MATH * first"@));
                        }
                    }
                }
            }
            if !pushed {
                assert(!slow_freq(ns, ii));
                assert(out@.map_values(|s: String| s@) =~= before);
            }
            assert(out@.map_values(|s: String| s@) =~= after_out + freq_msgs(ns, i + 1));
            i += 1;
        }
        proof {
            let p = position(ns, is_out())->0;
            assert(find(ns, ns[p].id) == Some(oi));
        }
        out
    }
}

pub open spec fn id_is_out(ns: Seq<NodeView>, id: u32) -> bool {
    position(ns, is_out()) matches Some(p) && ns[p].id == id
}

} // verus!