//! Compiling the graph: an evaluation order and one flat program per track.
use vstd::prelude::*;
use vstd::set_lib::*;
use crate::graph::{Graph, Input, Kind, NodeView, find, lemma_position, arity, variant_names};
use crate::flow::{reads, reads_at, walk, upstream, depends, table};
use crate::dsp::{Bin, Filt, Op, Program, Un, Wave};
use crate::value::Bits32;

verus! {

broadcast use lemma_position;

pub open spec fn zeros(s: Seq<u8>) -> Set<int> {
    Set::new(|x: int| 0 <= x < s.len() && s[x] == 0)
}

pub open spec fn in_order(o: Seq<usize>, x: int) -> bool {
    exists|a: int| 0 <= a < o.len() && o[a] == x
}

/// Every node in `o` whose input reads a kept node either comes after it, or the node it reads
/// depends on it (a feedback edge).
pub open spec fn forward(ns: Seq<NodeView>, keep: Seq<bool>, o: Seq<usize>) -> bool {
    forall|a: int, y: int| #![trigger reads(ns, o[a] as int, y), keep[y]]
        0 <= a < o.len() && reads(ns, o[a] as int, y) && keep[y] ==>
            (exists|b: int| 0 <= b < a && o[b] == y) || upstream(ns, y, o[a] as int)
}

/// The bookkeeping of the depth-first walk: 0 unvisited, 1 on the stack, 2 finished and in `o`.
pub open spec fn dfs_inv(ns: Seq<NodeView>, keep: Seq<bool>, state: Seq<u8>, o: Seq<usize>) -> bool {
    &&& state.len() == ns.len()
    &&& keep.len() >= ns.len()
    &&& forall|x: int| 0 <= x < state.len() ==> state[x] <= 2
    &&& forall|x: int| 0 <= x < state.len() && state[x] == 1 ==> keep[x]
    &&& forall|a: int| 0 <= a < o.len() ==> (o[a] as int) < ns.len() && state[o[a] as int] == 2 && keep[o[a] as int]
    &&& forall|x: int| 0 <= x < state.len() && state[x] == 2 ==> in_order(o, x)
    &&& o.no_duplicates()
    &&& forward(ns, keep, o)
}

/// The depth-first walk from node `i`: unless `i` is already visited or not kept, mark it as
/// on the stack, walk the nodes its inputs read in input order, then mark it finished and
/// append it. `fuel` bounds the depth (the number of unvisited nodes is always enough).
pub open spec fn visit(ns: Seq<NodeView>, keep: Seq<bool>, fuel: nat, i: int, st: Seq<u8>, o: Seq<usize>) -> (Seq<u8>, Seq<usize>)
    decreases fuel, 0int, 0int,
{
    if !(0 <= i < st.len()) || st[i] != 0 || !keep[i] || fuel == 0 {
        (st, o)
    } else {
        let r = visit_inputs(ns, keep, (fuel - 1) as nat, i, 0, st.update(i, 1u8), o);
        (r.0.update(i, 2u8), r.1.push(i as usize))
    }
}

/// The walk through the inputs of node `i` from input `k` on.
pub open spec fn visit_inputs(ns: Seq<NodeView>, keep: Seq<bool>, fuel: nat, i: int, k: int, st: Seq<u8>, o: Seq<usize>) -> (Seq<u8>, Seq<usize>)
    decreases fuel, 1int, (if 0 <= i < ns.len() && 0 <= k <= ns[i].inputs.len() { ns[i].inputs.len() - k } else { 0 }),
{
    if !(0 <= i < ns.len()) || k < 0 || k >= ns[i].inputs.len() {
        (st, o)
    } else {
        let r = match ns[i].inputs[k] {
            Input::Link(id) => match find(ns, id) {
                Some(j) => visit(ns, keep, fuel, j, st, o),
                None => (st, o),
            },
            Input::Const(_) => (st, o),
        };
        visit_inputs(ns, keep, fuel, i, k + 1, r.0, r.1)
    }
}

/// The walks started from nodes `i..n` in turn.
pub open spec fn visit_from(ns: Seq<NodeView>, keep: Seq<bool>, fuel: nat, i: int, n: int, st: Seq<u8>, o: Seq<usize>) -> (Seq<u8>, Seq<usize>)
    decreases n - i,
{
    if i >= n {
        (st, o)
    } else {
        let r = visit(ns, keep, fuel, i, st, o);
        visit_from(ns, keep, fuel, i + 1, n, r.0, r.1)
    }
}

/// The evaluation order of the kept nodes: the depth-first walk from OUT, then from every node
/// in index order, each node appended once all the nodes it reads are (feedback aside).
pub open spec fn eval_order(ns: Seq<NodeView>, keep: Seq<bool>) -> Seq<usize> {
    let n = ns.len();
    let st0 = Seq::new(n, |x: int| 0u8);
    let start = match crate::graph::id_at(ns, crate::graph::is_out()) {
        Some(out) => match find(ns, out) {
            Some(j) => visit(ns, keep, n, j, st0, seq![]),
            None => (st0, seq![]),
        },
        None => (st0, seq![]),
    };
    visit_from(ns, keep, n, 0, n as int, start.0, start.1).1
}

pub proof fn lemma_walk_step(ns: Seq<NodeView>, g: int, i: int, j: int)
    requires
        upstream(ns, g, i),
        reads(ns, i, j),
        0 <= j < ns.len(),
    ensures
        upstream(ns, g, j),
{
    let p = choose|p: Seq<int>| walk(ns, p) && p[0] == g && p.last() == i;
    let q = p.push(j);
    assert forall|m: int| 0 <= m < q.len() - 1 implies reads(ns, #[trigger] q[m], q[m + 1]) by {
        if m < p.len() - 1 {
            assert(q[m] == p[m] && q[m + 1] == p[m + 1]);
        } else {
            assert(q[m] == i);
        }
    }
    assert(walk(ns, q) && q[0] == g && q.last() == j);
}

pub proof fn lemma_upstream_self(ns: Seq<NodeView>, i: int)
    requires
        0 <= i < ns.len(),
    ensures
        upstream(ns, i, i),
{
    let p = seq![i];
    assert(walk(ns, p) && p[0] == i && p.last() == i);
}

impl Graph {
    fn dfs(&self, i: usize, keep: &[bool], state: &mut Vec<u8>, order: &mut Vec<usize>, Ghost(fuel): Ghost<nat>)
        requires
            i < self@.nodes.len(),
            dfs_inv(self@.nodes, keep@, old(state)@, old(order)@),
            forall|g: int| 0 <= g < old(state)@.len() && old(state)@[g] == 1 ==> upstream(self@.nodes, g, i as int),
            fuel >= zeros(old(state)@).len(),
        ensures
            (final(state)@, final(order)@) == visit(self@.nodes, keep@, fuel, i as int, old(state)@, old(order)@),
            dfs_inv(self@.nodes, keep@, final(state)@, final(order)@),
            forall|x: int| 0 <= x < final(state)@.len() ==> (final(state)@[x] == 1 <==> old(state)@[x] == 1),
            forall|x: int| 0 <= x < final(state)@.len() && old(state)@[x] == 2 ==> final(state)@[x] == 2,
            final(order)@.len() >= old(order)@.len(),
            forall|a: int| 0 <= a < old(order)@.len() ==> final(order)@[a] == old(order)@[a],
            keep@[i as int] ==> final(state)@[i as int] != 0,
            zeros(final(state)@).subset_of(zeros(old(state)@)),
        decreases zeros(old(state)@).len(),
    {
        let ghost ns = self@.nodes;
        let ghost s0 = state@;
        let ghost o0 = order@;
        if state[i] != 0 || !keep[i] {
            return;
        }
        assert(zeros(s0).contains(i as int));
        assert(fuel >= 1) by {
            lemma_int_range(0, ns.len() as int);
            lemma_len_subset(zeros(s0), set_int_range(0, ns.len() as int));
            assert(zeros(s0).len() > 0) by {
                if zeros(s0).len() == 0 {
                    assert(zeros(s0) =~= Set::<int>::empty());
                }
            }
        }
        proof {
            lemma_int_range(0, ns.len() as int);
            assert(zeros(s0).subset_of(set_int_range(0, ns.len() as int)));
            lemma_len_subset(zeros(s0), set_int_range(0, ns.len() as int));
        }
        state.set(i, 1);
        proof {
            assert(zeros(state@) =~= zeros(s0).remove(i as int));
            assert(zeros(s0).contains(i as int));
            assert(forall|a: int| 0 <= a < order@.len() ==> order@[a] != i) by {
                assert forall|a: int| 0 <= a < order@.len() implies order@[a] != i by {
                    assert(s0[order@[a] as int] == 2);
                }
            }
            lemma_upstream_self(ns, i as int);
        }
        let ghost s1 = state@;
        let ghost ii = i as int;
        proof {
            assert(s1 =~= s0.update(ii, 1u8));
            assert forall|g: int| 0 <= g < s1.len() && s1[g] == 1 implies upstream(ns, g, ii) by {
                if g != ii {
                    assert(s0[g] == 1);
                }
            }
            lemma_len_subset(zeros(s1), set_int_range(0, ns.len() as int));
        }
        let len = self.nodes[i].inputs.len();
        let mut k: usize = 0;
        while k < len
            invariant
                ns == self@.nodes,
                i < ns.len(),
                ii == i,
                len == ns[ii].inputs.len(),
                k <= len,
                keep@[ii],
                dfs_inv(ns, keep@, state@, order@),
                state@[ii] == 1,
                forall|x: int| 0 <= x < state@.len() ==> (state@[x] == 1 <==> s1[x] == 1),
                forall|x: int| 0 <= x < state@.len() && s0[x] == 2 ==> state@[x] == 2,
                forall|g: int| 0 <= g < s1.len() && s1[g] == 1 ==> upstream(ns, g, ii),
                order@.len() >= o0.len(),
                forall|a: int| 0 <= a < o0.len() ==> order@[a] == o0[a],
                zeros(state@).subset_of(zeros(s1)),
                zeros(s1) =~= zeros(s0).remove(ii),
                s1 == s0.update(ii, 1u8),
                s0.len() == ns.len(),
                s0 == old(state)@,
                zeros(s1).finite(),
                zeros(s0).finite(),
                zeros(s0).len() == zeros(s1).len() + 1,
                forall|a: int| 0 <= a < order@.len() ==> order@[a] != i,
                forall|c: int, y: int| 0 <= c < k && #[trigger] reads_at(ns, ii, c, y) && keep@[y] ==>
                    in_order(order@, y) || (state@[y] == 1 && upstream(ns, y, ii)),
                fuel >= 1,
                fuel >= zeros(s0).len(),
                visit_inputs(ns, keep@, (fuel - 1) as nat, ii, 0, s1, o0)
                    == visit_inputs(ns, keep@, (fuel - 1) as nat, ii, k as int, state@, order@),
            decreases len - k,
        {
            let ghost sk = state@;
            let ghost ok = order@;
            if let Input::Link(id) = self.nodes[i].inputs[k] {
                if let Some(j) = self.idx(id) {
                    let ghost sb = state@;
                    let ghost ob = order@;
                    proof {
                        assert(reads_at(ns, ii, k as int, j as int));
                        assert forall|g: int| 0 <= g < state@.len() && state@[g] == 1 implies upstream(ns, g, j as int) by {
                            assert(s1[g] == 1);
                            assert(upstream(ns, g, ii));
                            lemma_walk_step(ns, g, ii, j as int);
                        }
                        assert(zeros(state@).len() < zeros(s0).len()) by {
                            lemma_len_subset(zeros(state@), zeros(s1));
                        }
                    }
                    self.dfs(j, keep, state, order, Ghost((fuel - 1) as nat));
                    proof {
                        assert forall|c: int, y: int| 0 <= c < k + 1 && #[trigger] reads_at(ns, ii, c, y) && keep@[y] implies
                            in_order(order@, y) || (state@[y] == 1 && upstream(ns, y, ii)) by {
                            if c < k {
                                if in_order(ob, y) {
                                    let a = choose|a: int| 0 <= a < ob.len() && ob[a] == y;
                                    assert(order@[a] == y);
                                } else {
                                    assert(sb[y] == 1);
                                    assert(state@[y] == 1);
                                }
                            } else {
                                assert(y == j);
                                assert(state@[y] != 0);
                                if state@[y] == 2 {
                                    assert(in_order(order@, y));
                                } else {
                                    assert(state@[y] == 1);
                                    assert(sb[y] == 1);
                                    assert(s1[y] == 1);
                                    assert(upstream(ns, y, ii));
                                }
                            }
                        }
                    }
                }
            }
            assert(visit_inputs(ns, keep@, (fuel - 1) as nat, ii, k as int, sk, ok)
                == visit_inputs(ns, keep@, (fuel - 1) as nat, ii, k + 1, state@, order@));
            k += 1;
        }
        let ghost ob = order@;
        let ghost sb = state@;
        order.push(i);
        state.set(i, 2);
        proof {
            assert(visit_inputs(ns, keep@, (fuel - 1) as nat, ii, 0, s1, o0) == (sb, ob));
            assert(state@ =~= sb.update(ii, 2u8));
            let o = order@;
            assert(o.no_duplicates()) by {
                assert forall|a: int, b: int| 0 <= a < o.len() && 0 <= b < o.len() && a != b implies o[a] != o[b] by {
                    if a < ob.len() && b < ob.len() {
                        assert(ob[a] != ob[b]);
                    }
                }
            }
            assert forall|x: int| 0 <= x < state@.len() && state@[x] == 2 implies in_order(o, x) by {
                if x == ii {
                    assert(o[ob.len() as int] == i);
                } else {
                    let a = choose|a: int| 0 <= a < ob.len() && ob[a] == x;
                    assert(o[a] == x);
                }
            }
            assert forall|a: int, y: int| #![trigger reads(ns, o[a] as int, y), keep@[y]]
                0 <= a < o.len() && reads(ns, o[a] as int, y) && keep@[y] implies
                    (exists|b: int| 0 <= b < a && o[b] == y) || upstream(ns, y, o[a] as int) by {
                if a < ob.len() {
                    assert(o[a] == ob[a]);
                    if exists|b: int| 0 <= b < a && ob[b] == y {
                        let b = choose|b: int| 0 <= b < a && ob[b] == y;
                        assert(o[b] == y);
                    }
                } else {
                    let c = choose|c: int| reads_at(ns, ii, c, y);
                    if in_order(ob, y) {
                        let b = choose|b: int| 0 <= b < ob.len() && ob[b] == y;
                        assert(o[b] == y);
                    }
                }
            }
            assert forall|x: int| 0 <= x < state@.len() implies (state@[x] == 1 <==> s0[x] == 1) by {
                if x != ii {
                    assert(s1[x] == s0[x]);
                }
            }
            assert(zeros(state@).subset_of(zeros(s0)));
        }
    }

    /// evaluation order: depth-first from OUT so forward signal flow has no latency;
    /// only back-edges (feedback) read the previous sample.
    fn order(&self, keep: &[bool]) -> (o: Vec<usize>)
        requires
            keep@.len() >= self@.nodes.len(),
        ensures
            forall|a: int| 0 <= a < o@.len() ==> (o@[a] as int) < self@.nodes.len() && keep@[o@[a] as int],
            o@.no_duplicates(),
            forall|x: int| 0 <= x < self@.nodes.len() && keep@[x] ==> in_order(o@, x),
            forall|a: int, b: int| 0 <= a < b < o@.len() && reads(self@.nodes, o@[a] as int, o@[b] as int) ==>
                upstream(self@.nodes, o@[b] as int, o@[a] as int),
            o@ == eval_order(self@.nodes, keep@),
    {
        let ghost ns = self@.nodes;
        let n = self.nodes.len();
        let mut state: Vec<u8> = Vec::new();
        let mut c: usize = 0;
        while c < n
            invariant
                c <= n,
                state@.len() == c,
                forall|x: int| 0 <= x < c ==> state@[x] == 0,
            decreases n - c,
        {
            state.push(0);
            c += 1;
        }
        let mut order: Vec<usize> = Vec::new();
        assert(dfs_inv(ns, keep@, state@, order@));
        let ghost st0 = Seq::new(n as nat, |x: int| 0u8);
        assert(state@ =~= st0);
        proof {
            lemma_int_range(0, n as int);
            lemma_len_subset(zeros(state@), set_int_range(0, n as int));
        }
        if let Some(out) = self.out_id() {
            if let Some(o) = self.idx(out) {
                self.dfs(o, keep, &mut state, &mut order, Ghost(n as nat));
            }
        }
        let ghost start = (state@, order@);
        assert(start == match crate::graph::id_at(ns, crate::graph::is_out()) {
            Some(out) => match find(ns, out) {
                Some(j) => visit(ns, keep@, n as nat, j, st0, seq![]),
                None => (st0, seq![]),
            },
            None => (st0, seq![]),
        });
        let mut i: usize = 0;
        while i < n
            invariant
                ns == self@.nodes,
                n == ns.len(),
                i <= n,
                dfs_inv(ns, keep@, state@, order@),
                forall|x: int| 0 <= x < n ==> state@[x] != 1,
                forall|x: int| 0 <= x < i && keep@[x] ==> state@[x] != 0,
                visit_from(ns, keep@, n as nat, 0, n as int, start.0, start.1)
                    == visit_from(ns, keep@, n as nat, i as int, n as int, state@, order@),
            decreases n - i,
        {
            proof {
                lemma_int_range(0, n as int);
                lemma_len_subset(zeros(state@), set_int_range(0, n as int));
            }
            self.dfs(i, keep, &mut state, &mut order, Ghost(n as nat));
            i += 1;
        }
        proof {
            let o = order@;
            assert forall|a: int, b: int| 0 <= a < b < o.len() && reads(ns, o[a] as int, o[b] as int) implies
                upstream(ns, o[b] as int, o[a] as int) by {
                let y = o[b] as int;
                assert(keep@[y]);
                if exists|c: int| 0 <= c < a && o[c] == y {
                    let c = choose|c: int| 0 <= c < a && o[c] == y;
                    assert(o[c] == o[b]);
                }
            }
        }
        order
    }
}

/// The row of node `j` in the order `o`.
pub open spec fn row_in(o: Seq<usize>, j: int) -> int {
    choose|r: int| 0 <= r < o.len() && o[r] == j
}

/// Op `s` is a parameter slot holding `v`.
pub open spec fn param_slot(ops: Seq<Op>, params: Seq<Bits32>, s: int, v: Bits32) -> bool {
    &&& 0 <= s < ops.len()
    &&& ops[s] matches Op::Param(q) && q < params.len() && params[q as int] == v
}

/// Op `s` supplies input `inp`: the row of the node it links to when that node is compiled,
/// otherwise a parameter holding the constant (a dangling or pruned link reads `0.0`).
pub open spec fn supplies(ns: Seq<NodeView>, o: Seq<usize>, ops: Seq<Op>, params: Seq<Bits32>, inp: Input, s: int) -> bool {
    match inp {
        Input::Link(id) => match find(ns, id) {
            Some(j) => if in_order(o, j) {
                0 <= s < ops.len() && ops[s] == Op::Row(row_in(o, j) as usize)
            } else {
                param_slot(ops, params, s, Bits32(0))
            },
            None => param_slot(ops, params, s, Bits32(0)),
        },
        Input::Const(v) => param_slot(ops, params, s, v),
    }
}

pub open spec fn wave_of(v: usize) -> Wave {
    let m = v % 6;
    if m == 0 { Wave::Sin } else if m == 1 { Wave::Saw } else if m == 2 { Wave::Sqr } else if m == 3 { Wave::Tri } else if m == 4 { Wave::Pulse } else { Wave::Phase }
}

pub open spec fn filt_of(v: usize) -> Filt {
    let m = v % 3;
    if m == 0 { Filt::Lp } else if m == 1 { Filt::Hp } else { Filt::Bp }
}

pub open spec fn bin_of(v: usize) -> Bin {
    let m = v % 9;
    if m == 0 { Bin::Add } else if m == 1 { Bin::Sub } else if m == 2 { Bin::Mul } else if m == 3 { Bin::Div }
    else if m == 4 { Bin::Min } else if m == 5 { Bin::Max } else if m == 6 { Bin::Pow } else if m == 7 { Bin::Gt } else { Bin::Lt }
}

pub open spec fn un_of(v: usize) -> Un {
    let m = v % 5;
    if m == 0 { Un::Tanh } else if m == 1 { Un::Clip } else if m == 2 { Un::Abs } else if m == 3 { Un::Sqrt } else { Un::Neg }
}

pub open spec fn trk_op(v: usize) -> Op {
    let m = v % 4;
    if m == 0 { Op::Freq } else if m == 1 { Op::Gate } else if m == 2 { Op::Vel } else { Op::Note }
}

/// The op a node of a processing kind computes, reading its inputs from slots `s`.
pub open spec fn node_op(n: NodeView, s: Seq<usize>) -> Op {
    match n.kind {
        Kind::Osc => Op::Osc(wave_of(n.var), s[0], s[1], s[2]),
        Kind::Noise => Op::Noise(s[0]),
        Kind::Env => Op::Env(s[0], s[1], s[2], s[3], s[4]),
        Kind::Filt => Op::Filt(filt_of(n.var), s[0], s[1], s[2]),
        Kind::Delay => Op::Delay(s[0], s[1]),
        Kind::Math => Op::Bin(bin_of(n.var), s[0], s[1]),
        Kind::Shape => Op::Un(un_of(n.var), s[0]),
        Kind::Sh => Op::Sh(s[0], s[1]),
        Kind::Buf => Op::Buf(s[0], s[1], s[2], s[3], s[4]),
        Kind::Key => Op::Key(s[0], s[1], s[2]),
        _ => Op::Freq,
    }
}

/// How many ops the row of node `n` takes: one per input, then the node's own op (OUT has none).
pub open spec fn width(n: NodeView) -> int {
    n.inputs.len() + if n.kind == Kind::Out { 0int } else { 1int }
}

/// Where the ops of row `r` begin: after the ops of all earlier rows.
pub open spec fn row_start(ns: Seq<NodeView>, o: Seq<usize>, r: int) -> int
    decreases r,
{
    if r <= 0 { 0 } else { row_start(ns, o, r - 1) + width(ns[o[r - 1] as int]) }
}

/// Every op at position `q` reads only ops before `q` (a row's own inputs come first).
pub open spec fn reads_below(op: Op, q: int) -> bool {
    match op {
        Op::Bin(_, a, b) => a < q && b < q,
        Op::Un(_, a) => a < q,
        Op::Osc(_, a, b, c) => a < q && b < q && c < q,
        Op::Noise(a) => a < q,
        Op::Env(a, b, c, d, e) => a < q && b < q && c < q && d < q && e < q,
        Op::Filt(_, a, b, c) => a < q && b < q && c < q,
        Op::Delay(a, b) => a < q && b < q,
        Op::Sh(a, b) => a < q && b < q,
        Op::Buf(a, b, c, d, e) => a < q && b < q && c < q && d < q && e < q,
        Op::Key(a, b, c) => a < q && b < q && c < q,
        _ => true,
    }
}

/// The ops of a program are well formed: each reads only earlier ops, a `Row` names a row, and
/// a `Param` names a parameter.
pub open spec fn ops_ok(ops: Seq<Op>, params: Seq<Bits32>, rows: int) -> bool {
    forall|q: int| 0 <= q < ops.len() ==> {
        &&& reads_below(#[trigger] ops[q], q)
        &&& (ops[q] matches Op::Row(x) ==> x < rows)
        &&& (ops[q] matches Op::Param(k) ==> k < params.len())
    }
}

/// Row `r` of program `p` computes node `o[r]`: its inputs are supplied by the slots `s` that
/// begin its block of ops, and the row's value is the node's op right after them (a TRK node of
/// another track reads `0.0`; OUT passes its first input on).
pub open spec fn row_computes(ns: Seq<NodeView>, o: Seq<usize>, track: u32, ops: Seq<Op>, params: Seq<Bits32>, row_slot: Seq<usize>, r: int, s: Seq<usize>) -> bool {
    let n = ns[o[r] as int];
    &&& s.len() == n.inputs.len()
    &&& forall|k: int| 0 <= k < s.len() ==> #[trigger] s[k] == row_start(ns, o, r) + k
    &&& forall|k: int| 0 <= k < s.len() ==> supplies(ns, o, ops, params, n.inputs[k], #[trigger] s[k] as int)
    &&& n.kind != Kind::Out ==> row_slot[r] == row_start(ns, o, r) + n.inputs.len()
    &&& match n.kind {
        Kind::Out => row_slot[r] == s[0],
        Kind::Trk => if n.track == track {
            row_slot[r] < ops.len() && ops[row_slot[r] as int] == trk_op(n.var)
        } else {
            param_slot(ops, params, row_slot[r] as int, Bits32(0))
        },
        _ => row_slot[r] < ops.len() && ops[row_slot[r] as int] == node_op(n, s),
    }
}

/// Row `r` computes its node, through some slots for its inputs.
pub open spec fn row_ok(ns: Seq<NodeView>, o: Seq<usize>, track: u32, ops: Seq<Op>, params: Seq<Bits32>, row_slot: Seq<usize>, r: int) -> bool {
    exists|s: Seq<usize>| row_computes(ns, o, track, ops, params, row_slot, r, s)
}

/// The first row of `o` that is an OUT node.
pub open spec fn first_out_row(ns: Seq<NodeView>, o: Seq<usize>, r: int) -> bool {
    &&& 0 <= r < o.len()
    &&& ns[o[r] as int].kind == Kind::Out
    &&& forall|q: int| 0 <= q < r ==> ns[o[q] as int].kind != Kind::Out
}

/// `p` is the program of the nodes marked in `keep`, for a voice of `track`: one block of ops
/// per row in evaluation order and nothing else, each op reading only earlier ops (a link to a
/// later row is a `Row` read, which gives the previous sample: feedback).
pub open spec fn compiled(ns: Seq<NodeView>, keep: Seq<bool>, track: u32, p: Program) -> bool {
    let o = p.row_node@;
    &&& forall|a: int| 0 <= a < o.len() ==> (o[a] as int) < ns.len() && keep[o[a] as int]
    &&& o.no_duplicates()
    &&& forall|x: int| 0 <= x < ns.len() && keep[x] ==> in_order(o, x)
    &&& forall|a: int, b: int| 0 <= a < b < o.len() && reads(ns, o[a] as int, o[b] as int) ==> upstream(ns, o[b] as int, o[a] as int)
    &&& p.row_slot@.len() == o.len()
    &&& forall|r: int| 0 <= r < o.len() ==> #[trigger] row_ok(ns, o, track, p.ops@, p.params@, p.row_slot@, r)
    &&& p.ops@.len() == row_start(ns, o, o.len() as int)
    &&& ops_ok(p.ops@, p.params@, o.len() as int)
    &&& forall|r: int| 0 <= r < o.len() ==> (#[trigger] p.row_slot@[r]) < p.ops@.len()
    &&& (p.out matches Some(x) ==> exists|r: int| first_out_row(ns, o, r) && x == p.row_slot@[r])
    &&& (p.out is None ==> forall|r: int| 0 <= r < o.len() ==> ns[o[r] as int].kind != Kind::Out)
}

/// The nodes a voice of track `t` computes: those that depend on it, and those that depend on no track.
pub open spec fn kept_for(ns: Seq<NodeView>, tids: Seq<u32>, t: int, i: int) -> bool {
    depends(ns, tids, i, t) || forall|u: int| 0 <= u < tids.len() ==> !depends(ns, tids, i, u)
}

proof fn lemma_supplies_grow(ns: Seq<NodeView>, o: Seq<usize>, ops: Seq<Op>, params: Seq<Bits32>, ops2: Seq<Op>, params2: Seq<Bits32>, inp: Input, s: int)
    requires
        supplies(ns, o, ops, params, inp, s),
        ops2.len() >= ops.len(),
        params2.len() >= params.len(),
        forall|q: int| 0 <= q < ops.len() ==> ops2[q] == ops[q],
        forall|q: int| 0 <= q < params.len() ==> params2[q] == params[q],
    ensures
        supplies(ns, o, ops2, params2, inp, s),
{
}

/// Distinct indices below `n` are at most `n` many.
proof fn lemma_distinct_bound(o: Seq<usize>, n: int)
    requires
        0 <= n,
        o.no_duplicates(),
        forall|a: int| 0 <= a < o.len() ==> (o[a] as int) < n,
    ensures
        o.len() <= n,
{
    let os = o.map_values(|x: usize| x as int);
    assert(os.no_duplicates()) by {
        assert forall|a: int, b: int| 0 <= a < os.len() && 0 <= b < os.len() && a != b implies os[a] != os[b] by {
            assert(o[a] != o[b]);
        }
    }
    lemma_int_range(0, n);
    assert(os.to_set().subset_of(set_int_range(0, n))) by {
        assert forall|x: int| os.to_set().contains(x) implies set_int_range(0, n).contains(x) by {
            let a = choose|a: int| 0 <= a < os.len() && os[a] == x;
        }
    }
    lemma_len_subset(os.to_set(), set_int_range(0, n));
    os.unique_seq_to_set();
}

impl Graph {
    /// The ops of one row of `compile_subset`: one slot per input, appended to `p`.
    fn input_slots(&self, i: usize, row_of: &Vec<usize>, order: &Vec<usize>, ops: &mut Vec<Op>, params: &mut Vec<Bits32>) -> (ins: Vec<usize>)
        requires
            i < self@.nodes.len(),
            row_of@.len() == self@.nodes.len(),
            order@.no_duplicates(),
            forall|j: int| 0 <= j < self@.nodes.len() ==> row_of@[j] == (if in_order(order@, j) { row_in(order@, j) as usize } else { usize::MAX }),
            forall|a: int| 0 <= a < order@.len() ==> (order@[a] as int) < self@.nodes.len(),
            order@.len() <= usize::MAX,
        ensures
            ins@.len() == self@.nodes[i as int].inputs.len(),
            forall|k: int| 0 <= k < ins@.len() ==> supplies(self@.nodes, order@, final(ops)@, final(params)@, self@.nodes[i as int].inputs[k], #[trigger] ins@[k] as int),
            final(ops)@.len() >= old(ops)@.len(),
            final(params)@.len() >= old(params)@.len(),
            forall|q: int| 0 <= q < old(ops)@.len() ==> final(ops)@[q] == old(ops)@[q],
            forall|q: int| 0 <= q < old(params)@.len() ==> final(params)@[q] == old(params)@[q],
            final(ops)@.len() == old(ops)@.len() + ins@.len(),
            forall|k: int| 0 <= k < ins@.len() ==> #[trigger] ins@[k] == old(ops)@.len() + k,
            forall|q: int| old(ops)@.len() <= q < final(ops)@.len() ==> match #[trigger] final(ops)@[q] {
                Op::Row(x) => x < order@.len(),
                Op::Param(k) => k < final(params)@.len(),
                _ => false,
            },
    {
        let ghost ns = self@.nodes;
        let ghost o = order@;
        let ghost ops0 = ops@;
        let ghost params0 = params@;
        let mut ins: Vec<usize> = Vec::new();
        let len = self.nodes[i].inputs.len();
        let mut k: usize = 0;
        while k < len
            invariant
                ns == self@.nodes,
                o == order@,
                o.len() <= usize::MAX,
                i < ns.len(),
                len == ns[i as int].inputs.len(),
                k <= len,
                row_of@.len() == ns.len(),
                forall|j: int| 0 <= j < ns.len() ==> row_of@[j] == (if in_order(o, j) { row_in(o, j) as usize } else { usize::MAX }),
                ins@.len() == k,
                forall|c: int| 0 <= c < k ==> supplies(ns, o, ops@, params@, ns[i as int].inputs[c], #[trigger] ins@[c] as int),
                ops@.len() >= ops0.len(),
                params@.len() >= params0.len(),
                forall|q: int| 0 <= q < ops0.len() ==> ops@[q] == ops0[q],
                forall|q: int| 0 <= q < params0.len() ==> params@[q] == params0[q],
                ops0 == old(ops)@,
                params0 == old(params)@,
                ops@.len() == ops0.len() + k,
                forall|c: int| 0 <= c < k ==> #[trigger] ins@[c] == ops0.len() + c,
                forall|q: int| ops0.len() <= q < ops@.len() ==> match #[trigger] ops@[q] {
                    Op::Row(x) => x < o.len(),
                    Op::Param(k) => k < params@.len(),
                    _ => false,
                },
            decreases len - k,
        {
            let ghost ops1 = ops@;
            let ghost params1 = params@;
            let inp = self.nodes[i].inputs[k];
            match inp {
                Input::Link(id) => match self.idx(id) {
                    Some(j) => if row_of[j] != usize::MAX {
                        ops.push(Op::Row(row_of[j]));
                        assert(in_order(o, j as int));
                    } else {
                        proof {
                            if in_order(o, j as int) {
                                let r = row_in(o, j as int);
                                assert(0 <= r < o.len());
                                assert(r as usize == r);
                                assert(row_of@[j as int] == r as usize);
                                assert(false);
                            }
                        }
                        params.push(Bits32(0));
                        let q = params.len() - 1;
                        ops.push(Op::Param(q));
                    },
                    None => {
                        params.push(Bits32(0));
                        let q = params.len() - 1;
                        ops.push(Op::Param(q));
                    },
                },
                Input::Const(v) => {
                    params.push(v);
                    let q = params.len() - 1;
                    ops.push(Op::Param(q));
                },
            }
            assert(supplies(ns, o, ops@, params@, inp, ops@.len() - 1));
            let slot = ops.len() - 1;
            ins.push(slot);
            proof {
                assert forall|c: int| 0 <= c < k + 1 implies supplies(ns, o, ops@, params@, ns[i as int].inputs[c], #[trigger] ins@[c] as int) by {
                    if c < k {
                        lemma_supplies_grow(ns, o, ops1, params1, ops@, params@, ns[i as int].inputs[c], ins@[c] as int);
                    }
                }
            }
            k += 1;
        }
        ins
    }

    fn compile_subset(&self, keep: &[bool], track: u32) -> (p: Program)
        requires
            keep@.len() >= self@.nodes.len(),
            forall|i: int| 0 <= i < self@.nodes.len() && keep@[i] ==> self@.nodes[i].inputs.len() >= arity(self@.nodes[i].kind),
        ensures
            compiled(self@.nodes, keep@, track, p),
            p.row_node@ == eval_order(self@.nodes, keep@),
    {
        let ghost ns = self@.nodes;
        let n = self.nodes.len();
        let order = self.order(keep);
        let ghost o = order@;
        proof {
            lemma_distinct_bound(o, n as int);
        }
        let mut row_of: Vec<usize> = Vec::new();
        let mut c: usize = 0;
        while c < n
            invariant
                c <= n,
                row_of@.len() == c,
                forall|x: int| 0 <= x < c ==> row_of@[x] == usize::MAX,
            decreases n - c,
        {
            row_of.push(usize::MAX);
            c += 1;
        }
        let mut r: usize = 0;
        while r < order.len()
            invariant
                n == ns.len(),
                o == order@,
                o.no_duplicates(),
                o.len() <= n,
                forall|a: int| 0 <= a < o.len() ==> (o[a] as int) < n,
                r <= o.len(),
                row_of@.len() == n,
                forall|j: int| 0 <= j < n ==> row_of@[j] == (if exists|a: int| 0 <= a < r && o[a] == j { row_in(o, j) as usize } else { usize::MAX }),
            decreases o.len() - r,
        {
            let ghost before = row_of@;
            row_of.set(order[r], r);
            proof {
                assert forall|j: int| 0 <= j < n implies row_of@[j] == (if exists|a: int| 0 <= a < r + 1 && o[a] == j { row_in(o, j) as usize } else { usize::MAX }) by {
                    if j == o[r as int] {
                        assert(row_in(o, j) == r) by {
                            let q = row_in(o, j);
                            assert(0 <= q < o.len() && o[q] == j);
                        }
                    } else {
                        if exists|a: int| 0 <= a < r + 1 && o[a] == j {
                            let a = choose|a: int| 0 <= a < r + 1 && o[a] == j;
                            assert(a < r);
                        }
                    }
                }
            }
            r += 1;
        }
        let mut row_slot: Vec<usize> = Vec::new();
        let mut c: usize = 0;
        while c < order.len()
            invariant
                c <= order@.len(),
                row_slot@.len() == c,
            decreases order@.len() - c,
        {
            row_slot.push(0);
            c += 1;
        }
        let mut ops: Vec<Op> = Vec::new();
        let mut params: Vec<Bits32> = Vec::new();
        let mut out: Option<usize> = None;
        let mut r: usize = 0;
        while r < order.len()
            invariant
                n == ns.len(),
                ns == self@.nodes,
                keep@.len() >= n,
                forall|i: int| 0 <= i < n && keep@[i] ==> ns[i].inputs.len() >= arity(ns[i].kind),
                o == order@,
                o.no_duplicates(),
                o.len() <= n,
                forall|a: int| 0 <= a < o.len() ==> (o[a] as int) < n && keep@[o[a] as int],
                forall|x: int| 0 <= x < n && keep@[x] ==> in_order(o, x),
                forall|a: int, b: int| 0 <= a < b < o.len() && reads(ns, o[a] as int, o[b] as int) ==> upstream(ns, o[b] as int, o[a] as int),
                row_of@.len() == n,
                forall|j: int| 0 <= j < n ==> row_of@[j] == (if in_order(o, j) { row_in(o, j) as usize } else { usize::MAX }),
                r <= o.len(),
                row_slot@.len() == o.len(),
                forall|q: int| 0 <= q < r ==> #[trigger] row_ok(ns, o, track, ops@, params@, row_slot@, q),
                (out matches Some(x) ==> exists|q: int| first_out_row(ns, o, q) && q < r && x == row_slot@[q]),
                (out is None ==> forall|q: int| 0 <= q < r ==> ns[o[q] as int].kind != Kind::Out),
                ops@.len() == row_start(ns, o, r as int),
                ops_ok(ops@, params@, o.len() as int),
                forall|q: int| 0 <= q < r ==> (#[trigger] row_slot@[q]) < ops@.len(),
            decreases o.len() - r,
        {
            proof {
                assert forall|j: int| 0 <= j < n implies row_of@[j] == (if in_order(o, j) { row_in(o, j) as usize } else { usize::MAX }) by {}
            }
            let ghost ops0 = ops@;
            let ghost params0 = params@;
            let ghost slots0 = row_slot@;
            let i = order[r];
            let ins = self.input_slots(i, &row_of, &order, &mut ops, &mut params);
            let node = &self.nodes[i];
            let v = node.var;
            let ghost ii = i as int;
            let op: Option<Op> = match node.kind {
                Kind::Trk => if node.track == track {
                    let m = v % 4;
                    Some(if m == 0 { Op::Freq } else if m == 1 { Op::Gate } else if m == 2 { Op::Vel } else { Op::Note })
                } else {
                    params.push(Bits32(0));
                    let q = params.len() - 1;
                    Some(Op::Param(q))
                },
                Kind::Osc => {
                    let m = v % 6;
                    let w = if m == 0 { Wave::Sin } else if m == 1 { Wave::Saw } else if m == 2 { Wave::Sqr } else if m == 3 { Wave::Tri } else if m == 4 { Wave::Pulse } else { Wave::Phase };
                    Some(Op::Osc(w, ins[0], ins[1], ins[2]))
                },
                Kind::Noise => Some(Op::Noise(ins[0])),
                Kind::Env => Some(Op::Env(ins[0], ins[1], ins[2], ins[3], ins[4])),
                Kind::Filt => {
                    let m = v % 3;
                    let f = if m == 0 { Filt::Lp } else if m == 1 { Filt::Hp } else { Filt::Bp };
                    Some(Op::Filt(f, ins[0], ins[1], ins[2]))
                },
                Kind::Delay => Some(Op::Delay(ins[0], ins[1])),
                Kind::Math => {
                    let m = v % 9;
                    let b = if m == 0 { Bin::Add } else if m == 1 { Bin::Sub } else if m == 2 { Bin::Mul } else if m == 3 { Bin::Div }
                        else if m == 4 { Bin::Min } else if m == 5 { Bin::Max } else if m == 6 { Bin::Pow } else if m == 7 { Bin::Gt } else { Bin::Lt };
                    Some(Op::Bin(b, ins[0], ins[1]))
                },
                Kind::Shape => {
                    let m = v % 5;
                    let u = if m == 0 { Un::Tanh } else if m == 1 { Un::Clip } else if m == 2 { Un::Abs } else if m == 3 { Un::Sqrt } else { Un::Neg };
                    Some(Op::Un(u, ins[0]))
                },
                Kind::Sh => Some(Op::Sh(ins[0], ins[1])),
                Kind::Buf => Some(Op::Buf(ins[0], ins[1], ins[2], ins[3], ins[4])),
                Kind::Key => Some(Op::Key(ins[0], ins[1], ins[2])),
                Kind::Out => None,
            };
            let ghost ops1 = ops@;
            let ghost params1 = params@;
            match op {
                Some(op) => {
                    ops.push(op);
                    let slot = ops.len() - 1;
                    row_slot.set(r, slot);
                },
                None => {
                    row_slot.set(r, ins[0]);
                    if out.is_none() {
                        out = Some(ins[0]);
                    }
                },
            }
            proof {
                let s = ins@;
                assert(ops@.len() == row_start(ns, o, r as int + 1));
                assert forall|q: int| 0 <= q < ops@.len() implies {
                    &&& reads_below(#[trigger] ops@[q], q)
                    &&& (ops@[q] matches Op::Row(x) ==> x < o.len())
                    &&& (ops@[q] matches Op::Param(k) ==> k < params@.len())
                } by {
                    if q < ops0.len() {
                        assert(ops@[q] == ops0[q]);
                        assert(ops0[q] == ops1[q]);
                    } else if q < ops1.len() {
                        assert(ops@[q] == ops1[q]);
                    }
                }
                assert forall|k: int| 0 <= k < s.len() implies supplies(ns, o, ops@, params@, ns[ii].inputs[k], #[trigger] s[k] as int) by {
                    lemma_supplies_grow(ns, o, ops1, params1, ops@, params@, ns[ii].inputs[k], s[k] as int);
                }
                assert(row_computes(ns, o, track, ops@, params@, row_slot@, r as int, s));
                assert forall|q: int| 0 <= q < r + 1 implies #[trigger] row_ok(ns, o, track, ops@, params@, row_slot@, q) by {
                    if q < r {
                        assert(row_ok(ns, o, track, ops0, params0, slots0, q));
                        let s2 = choose|s2: Seq<usize>| row_computes(ns, o, track, ops0, params0, slots0, q, s2);
                        assert forall|k: int| 0 <= k < s2.len() implies supplies(ns, o, ops@, params@, ns[o[q] as int].inputs[k], #[trigger] s2[k] as int) by {
                            lemma_supplies_grow(ns, o, ops0, params0, ops@, params@, ns[o[q] as int].inputs[k], s2[k] as int);
                        }
                        assert(row_computes(ns, o, track, ops@, params@, row_slot@, q, s2));
                    } else {
                        assert(row_computes(ns, o, track, ops@, params@, row_slot@, q, s));
                    }
                }
            }
            r += 1;
        }
        Program { ops, params, row_slot, row_node: order, out }
    }
}

/// The nodes a voice of track `t` computes, as a table.
pub open spec fn kept_seq(ns: Seq<NodeView>, tids: Seq<u32>, t: int) -> Seq<bool> {
    Seq::new(ns.len(), |i: int| kept_for(ns, tids, t, i))
}

fn no_true(d: &Vec<bool>) -> (r: bool)
    ensures
        r == forall|u: int| 0 <= u < d@.len() ==> !d@[u],
{
    let mut u: usize = 0;
    while u < d.len()
        invariant
            u <= d@.len(),
            forall|v: int| 0 <= v < u ==> !d@[v],
        decreases d@.len() - u,
    {
        if d[u] {
            return false;
        }
        u += 1;
    }
    true
}

impl Graph {
    /// one program per track, each containing only the nodes that track can influence
    pub fn compile_all(&self, track_ids: &[u32]) -> (progs: Vec<Program>)
        requires
            track_ids@.len() > 0 ==> forall|i: int| 0 <= i < self@.nodes.len() ==> self@.nodes[i].inputs.len() >= arity(#[trigger] self@.nodes[i].kind),
        ensures
            progs@.len() == track_ids@.len(),
            forall|t: int| 0 <= t < track_ids@.len() ==> compiled(self@.nodes, kept_seq(self@.nodes, track_ids@, t), track_ids@[t], #[trigger] progs@[t]),
            forall|t: int| 0 <= t < track_ids@.len() ==> (#[trigger] progs@[t]).row_node@ == eval_order(self@.nodes, kept_seq(self@.nodes, track_ids@, t)),
    {
        let ghost ns = self@.nodes;
        let ghost tids = track_ids@;
        let n = self.nodes.len();
        let deps = self.deps(track_ids);
        let mut progs: Vec<Program> = Vec::new();
        let mut t: usize = 0;
        while t < track_ids.len()
            invariant
                ns == self@.nodes,
                tids == track_ids@,
                n == ns.len(),
                t <= tids.len(),
                table(deps@, n as int, tids.len() as int),
                forall|i: int, u: int| 0 <= i < n && 0 <= u < tids.len() ==> (deps@[i]@[u] <==> depends(ns, tids, i, u)),
                tids.len() > 0 ==> forall|i: int| 0 <= i < n ==> ns[i].inputs.len() >= arity(#[trigger] ns[i].kind),
                progs@.len() == t,
                forall|q: int| 0 <= q < t ==> compiled(ns, kept_seq(ns, tids, q), tids[q], #[trigger] progs@[q]),
                forall|q: int| 0 <= q < t ==> (#[trigger] progs@[q]).row_node@ == eval_order(ns, kept_seq(ns, tids, q)),
            decreases tids.len() - t,
        {
            let mut keep: Vec<bool> = Vec::new();
            let mut i: usize = 0;
            while i < n
                invariant
                    n == ns.len(),
                    t < tids.len(),
                    i <= n,
                    table(deps@, n as int, tids.len() as int),
                    forall|a: int, u: int| 0 <= a < n && 0 <= u < tids.len() ==> (deps@[a]@[u] <==> depends(ns, tids, a, u)),
                    keep@.len() == i,
                    forall|a: int| 0 <= a < i ==> keep@[a] == kept_for(ns, tids, t as int, a),
                decreases n - i,
            {
                let d = &deps[i];
                let k = d[t] || no_true(d);
                proof {
                    assert(d@.len() == tids.len());
                    assert(d@ == deps@[i as int]@);
                    assert((forall|u: int| 0 <= u < d@.len() ==> !d@[u]) <==> (forall|u: int| 0 <= u < tids.len() ==> !depends(ns, tids, i as int, u))) by {
                        if forall|u: int| 0 <= u < d@.len() ==> !d@[u] {
                            assert forall|u: int| 0 <= u < tids.len() implies !depends(ns, tids, i as int, u) by {
                                assert(!d@[u]);
                            }
                        }
                        if forall|u: int| 0 <= u < tids.len() ==> !depends(ns, tids, i as int, u) {
                            assert forall|u: int| 0 <= u < d@.len() implies !d@[u] by {
                                assert(!depends(ns, tids, i as int, u));
                            }
                        }
                    }
                    assert(k == kept_for(ns, tids, t as int, i as int));
                }
                keep.push(k);
                i += 1;
            }
            assert(keep@ =~= kept_seq(ns, tids, t as int));
            let p = self.compile_subset(&keep, track_ids[t]);
            progs.push(p);
            t += 1;
        }
        progs
    }
}

/// Pruning: a voice of track `t` computes every node that depends on `t` (and every node that
/// depends on no track), and never a node that only other tracks drive.
pub proof fn lemma_program_is_the_tracks_chain(ns: Seq<NodeView>, tids: Seq<u32>, t: int, p: Program, i: int)
    requires
        0 <= t < tids.len(),
        0 <= i < ns.len(),
        compiled(ns, kept_seq(ns, tids, t), tids[t], p),
    ensures
        in_order(p.row_node@, i) <==> (depends(ns, tids, i, t) || forall|u: int| 0 <= u < tids.len() ==> !depends(ns, tids, i, u)),
{
    let keep = kept_seq(ns, tids, t);
    assert(keep[i] == kept_for(ns, tids, t, i));
    if in_order(p.row_node@, i) {
        let a = choose|a: int| 0 <= a < p.row_node@.len() && p.row_node@[a] == i;
        assert(keep[p.row_node@[a] as int]);
    }
}


/// The name a filter mode is shown by.
pub open spec fn filt_name(f: Filt) -> Seq<char> {
    match f {
        Filt::Lp => "lp"@,
        Filt::Hp => "hp"@,
        Filt::Bp => "bp"@,
    }
}

/// The name a waveform is shown by.
pub open spec fn wave_name(w: Wave) -> Seq<char> {
    match w {
        Wave::Sin => "sin"@,
        Wave::Saw => "saw"@,
        Wave::Sqr => "sqr"@,
        Wave::Tri => "tri"@,
        Wave::Pulse => "pulse"@,
        Wave::Phase => "phase"@,
    }
}

/// The name an arithmetic operation is shown by.
pub open spec fn bin_name(b: Bin) -> Seq<char> {
    match b {
        Bin::Add => "+"@,
        Bin::Sub => "-"@,
        Bin::Mul => "*"@,
        Bin::Div => "/"@,
        Bin::Min => "min"@,
        Bin::Max => "max"@,
        Bin::Pow => "pow"@,
        Bin::Gt => ">"@,
        Bin::Lt => "<"@,
    }
}

/// The name a shaping function is shown by.
pub open spec fn un_name(u: Un) -> Seq<char> {
    match u {
        Un::Tanh => "tanh"@,
        Un::Clip => "clip"@,
        Un::Abs => "abs"@,
        Un::Sqrt => "sqrt"@,
        Un::Neg => "neg"@,
    }
}

/// The name of the variant an op computes (empty for ops without variants).
pub open spec fn op_name(op: Op) -> Seq<char> {
    match op {
        Op::Osc(w, _, _, _) => wave_name(w),
        Op::Filt(f, _, _, _) => filt_name(f),
        Op::Bin(b, _, _) => bin_name(b),
        Op::Un(u, _) => un_name(u),
        Op::Freq => "freq"@,
        Op::Gate => "gate"@,
        Op::Vel => "vel"@,
        Op::Note => "note"@,
        _ => seq![],
    }
}

/// The variant a node of a kind with variants is shown as (its variant number wraps around).
pub open spec fn shown_variant(n: NodeView) -> Seq<char> {
    let names = variant_names(n.kind);
    names[(n.var as int) % (names.len() as int)]
}

/// What a node computes is what it shows: for an oscillator, filter, math or shaper node, the
/// op it compiles to is the variant its name shows (a FILT shown as "hp" is a high-pass filter,
/// a MATH shown as "+" adds).
pub proof fn lemma_node_op_is_shown_variant(n: NodeView, s: Seq<usize>)
    requires
        n.kind == Kind::Osc || n.kind == Kind::Filt || n.kind == Kind::Math || n.kind == Kind::Shape,
    ensures
        op_name(node_op(n, s)) == shown_variant(n),
        n.kind == Kind::Osc ==> node_op(n, s) is Osc,
        n.kind == Kind::Filt ==> node_op(n, s) is Filt,
        n.kind == Kind::Math ==> node_op(n, s) is Bin,
        n.kind == Kind::Shape ==> node_op(n, s) is Un,
{
    let v = n.var;
    if n.kind == Kind::Osc {
        assert(variant_names(Kind::Osc).len() == 6);
        let m = v % 6;
        assert(0 <= m < 6);
    } else if n.kind == Kind::Filt {
        assert(variant_names(Kind::Filt).len() == 3);
        let m = v % 3;
        assert(0 <= m < 3);
    } else if n.kind == Kind::Math {
        assert(variant_names(Kind::Math).len() == 9);
        let m = v % 9;
        assert(0 <= m < 9);
    } else {
        assert(variant_names(Kind::Shape).len() == 5);
        let m = v % 5;
        assert(0 <= m < 5);
    }
}

/// In a compiled program, each oscillator, filter, math or shaper row computes the variant its
/// node shows, and so does each TRK row of the program's own track (freq, gate, vel or note).
pub proof fn lemma_compiled_rows_match_shown(ns: Seq<NodeView>, keep: Seq<bool>, track: u32, p: Program, r: int)
    requires
        compiled(ns, keep, track, p),
        0 <= r < p.row_node@.len(),
        ({
            let n = ns[p.row_node@[r] as int];
            n.kind == Kind::Osc || n.kind == Kind::Filt || n.kind == Kind::Math || n.kind == Kind::Shape
                || (n.kind == Kind::Trk && n.track == track)
        }),
    ensures
        op_name(p.ops@[p.row_slot@[r] as int]) == shown_variant(ns[p.row_node@[r] as int]),
{
    assert(row_ok(ns, p.row_node@, track, p.ops@, p.params@, p.row_slot@, r));
    let s = choose|s: Seq<usize>| row_computes(ns, p.row_node@, track, p.ops@, p.params@, p.row_slot@, r, s);
    let n = ns[p.row_node@[r] as int];
    if n.kind == Kind::Trk {
        assert(variant_names(Kind::Trk).len() == 4);
        let m = n.var % 4;
        assert(0 <= m < 4);
    } else {
        lemma_node_op_is_shown_variant(n, s);
    }
}

} // verus!