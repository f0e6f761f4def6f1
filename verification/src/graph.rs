//! One synth graph shared by the whole song. Tracks appear as TRK source nodes
//! (freq/gate/vel/note of the notes on that track). Any topology is allowed, including
//! cycles (feedback). Each track gets its own pruned program: nodes that depend only on
//! other tracks are left out, so a voice of track A never computes track B's chain.
use vstd::prelude::*;
use crate::value::{Bits32, finite32};
use crate::text::{push_char, push_decimal, push_lower, push_str, decimal, lower};

verus! {

/// The kinds of node in the synth graph.
#[derive(Clone, Copy, Debug, PartialEq, Eq, Structural)]
pub enum Kind {
    Trk,
    Osc,
    Noise,
    Env,
    Filt,
    Delay,
    Math,
    Shape,
    Sh,
    Buf,
    Key,
    Out,
}

pub open spec fn kind_name(k: Kind) -> Seq<char> {
    match k {
        Kind::Trk => "TRK"@,
        Kind::Osc => "OSC"@,
        Kind::Noise => "NOISE"@,
        Kind::Env => "ENV"@,
        Kind::Filt => "FILT"@,
        Kind::Delay => "DELAY"@,
        Kind::Math => "MATH"@,
        Kind::Shape => "SHAPE"@,
        Kind::Sh => "S&H"@,
        Kind::Buf => "BUF"@,
        Kind::Key => "KEY"@,
        Kind::Out => "OUT"@,
    }
}

pub open spec fn param_names(k: Kind) -> Seq<Seq<char>> {
    match k {
        Kind::Trk => seq!["track"@],
        Kind::Osc => seq!["freq"@, "pw"@, "amp"@],
        Kind::Noise => seq!["amp"@],
        Kind::Env => seq!["gate"@, "att"@, "dec"@, "sus"@, "rel"@],
        Kind::Filt => seq!["in"@, "cut"@, "q"@],
        Kind::Delay => seq!["in"@, "time"@],
        Kind::Math => seq!["a"@, "b"@],
        Kind::Shape => seq!["x"@],
        Kind::Sh => seq!["x"@, "trig"@],
        Kind::Buf => seq!["in"@, "wpos"@, "rpos"@, "rec"@, "size"@],
        Kind::Key => seq!["gate"@, "note"@, "key"@],
        Kind::Out => seq!["in"@],
    }
}

/// The number of inputs a node of this kind has.
pub open spec fn arity(k: Kind) -> nat {
    match k {
        Kind::Trk => 1,
        Kind::Osc => 3,
        Kind::Noise => 1,
        Kind::Env => 5,
        Kind::Filt => 3,
        Kind::Delay => 2,
        Kind::Math => 2,
        Kind::Shape => 1,
        Kind::Sh => 2,
        Kind::Buf => 5,
        Kind::Key => 3,
        Kind::Out => 1,
    }
}

/// Bit patterns of the `f32` constants that the default inputs use.
pub const F_0: u32 = 0x0000_0000u32;
pub const F_0_01: u32 = 0x3c23_d70au32;
pub const F_0_2: u32 = 0x3e4c_cccdu32;
pub const F_0_25: u32 = 0x3e80_0000u32;
pub const F_0_5: u32 = 0x3f00_0000u32;
pub const F_0_6: u32 = 0x3f19_999au32;
pub const F_0_7: u32 = 0x3f33_3333u32;
pub const F_1: u32 = 0x3f80_0000u32;
pub const F_60: u32 = 0x4270_0000u32;
pub const F_440: u32 = 0x43dc_0000u32;
pub const F_1000: u32 = 0x447a_0000u32;
pub const F_0_3: u32 = 0x3e99_999au32;

pub open spec fn default_values(k: Kind) -> Seq<Bits32> {
    match k {
        Kind::Trk => seq![Bits32(F_0)],
        Kind::Osc => seq![Bits32(F_440), Bits32(F_0_5), Bits32(F_1)],
        Kind::Noise => seq![Bits32(F_1)],
        Kind::Env => seq![Bits32(F_0), Bits32(F_0_01), Bits32(F_0_2), Bits32(F_0_6), Bits32(F_0_2)],
        Kind::Filt => seq![Bits32(F_0), Bits32(F_1000), Bits32(F_0_7)],
        Kind::Delay => seq![Bits32(F_0), Bits32(F_0_25)],
        Kind::Math => seq![Bits32(F_0), Bits32(F_1)],
        Kind::Shape => seq![Bits32(F_0)],
        Kind::Sh => seq![Bits32(F_0), Bits32(F_0)],
        Kind::Buf => seq![Bits32(F_0), Bits32(F_0), Bits32(F_0), Bits32(F_1), Bits32(F_1)],
        Kind::Key => seq![Bits32(F_0), Bits32(F_0), Bits32(F_60)],
        Kind::Out => seq![Bits32(F_0)],
    }
}

pub open spec fn default_texts(k: Kind) -> Seq<Seq<char>> {
    match k {
        Kind::Trk => seq!["0"@],
        Kind::Osc => seq!["440"@, "0.5"@, "1"@],
        Kind::Noise => seq!["1"@],
        Kind::Env => seq!["0"@, "0.01"@, "0.2"@, "0.6"@, "0.2"@],
        Kind::Filt => seq!["0"@, "1000"@, "0.7"@],
        Kind::Delay => seq!["0"@, "0.25"@],
        Kind::Math => seq!["0"@, "1"@],
        Kind::Shape => seq!["0"@],
        Kind::Sh => seq!["0"@, "0"@],
        Kind::Buf => seq!["0"@, "0"@, "0"@, "1"@, "1"@],
        Kind::Key => seq!["0"@, "0"@, "60"@],
        Kind::Out => seq!["0"@],
    }
}

pub open spec fn variant_names(k: Kind) -> Seq<Seq<char>> {
    match k {
        Kind::Trk => seq!["freq"@, "gate"@, "vel"@, "note"@],
        Kind::Osc => seq!["sin"@, "saw"@, "sqr"@, "tri"@, "pulse"@, "phase"@],
        Kind::Filt => seq!["lp"@, "hp"@, "bp"@],
        Kind::Math => seq!["+"@, "-"@, "*"@, "/"@, "min"@, "max"@, "pow"@, ">"@, "<"@],
        Kind::Shape => seq!["tanh"@, "clip"@, "abs"@, "sqrt"@, "neg"@],
        _ => seq![],
    }
}

impl Kind {
    pub fn name(self) -> (r: &'static str)
        ensures
            r@ == kind_name(self),
    {
        match self {
            Kind::Trk => "TRK",
            Kind::Osc => "OSC",
            Kind::Noise => "NOISE",
            Kind::Env => "ENV",
            Kind::Filt => "FILT",
            Kind::Delay => "DELAY",
            Kind::Math => "MATH",
            Kind::Shape => "SHAPE",
            Kind::Sh => "S&H",
            Kind::Buf => "BUF",
            Kind::Key => "KEY",
            Kind::Out => "OUT",
        }
    }

    pub fn params(self) -> (r: &'static [&'static str])
        ensures
            r@.len() == arity(self),
            r@.map_values(|s: &str| s@) == param_names(self),
    {
        match self {
            Kind::Trk => &["track"],
            Kind::Osc => &["freq", "pw", "amp"],
            Kind::Noise => &["amp"],
            Kind::Env => &["gate", "att", "dec", "sus", "rel"],
            Kind::Filt => &["in", "cut", "q"],
            Kind::Delay => &["in", "time"],
            Kind::Math => &["a", "b"],
            Kind::Shape => &["x"],
            Kind::Sh => &["x", "trig"],
            Kind::Buf => &["in", "wpos", "rpos", "rec", "size"],
            Kind::Key => &["gate", "note", "key"],
            Kind::Out => &["in"],
        }
    }

    /// The default constant of each input, in the order of `params`.
    pub fn defaults(self) -> (r: &'static [Bits32])
        ensures
            r@.len() == arity(self),
            r@ == default_values(self),
    {
        match self {
            Kind::Trk => &[Bits32(F_0)],
            Kind::Osc => &[Bits32(F_440), Bits32(F_0_5), Bits32(F_1)],
            Kind::Noise => &[Bits32(F_1)],
            Kind::Env => &[Bits32(F_0), Bits32(F_0_01), Bits32(F_0_2), Bits32(F_0_6), Bits32(F_0_2)],
            Kind::Filt => &[Bits32(F_0), Bits32(F_1000), Bits32(F_0_7)],
            Kind::Delay => &[Bits32(F_0), Bits32(F_0_25)],
            Kind::Math => &[Bits32(F_0), Bits32(F_1)],
            Kind::Shape => &[Bits32(F_0)],
            Kind::Sh => &[Bits32(F_0), Bits32(F_0)],
            Kind::Buf => &[Bits32(F_0), Bits32(F_0), Bits32(F_0), Bits32(F_1), Bits32(F_1)],
            Kind::Key => &[Bits32(F_0), Bits32(F_0), Bits32(F_60)],
            Kind::Out => &[Bits32(F_0)],
        }
    }

    /// How the manual prints each default of `defaults`, in the same order.
    pub fn default_labels(self) -> (r: &'static [&'static str])
        ensures
            r@.len() == arity(self),
            r@.map_values(|s: &str| s@) == default_texts(self),
    {
        match self {
            Kind::Trk => &["0"],
            Kind::Osc => &["440", "0.5", "1"],
            Kind::Noise => &["1"],
            Kind::Env => &["0", "0.01", "0.2", "0.6", "0.2"],
            Kind::Filt => &["0", "1000", "0.7"],
            Kind::Delay => &["0", "0.25"],
            Kind::Math => &["0", "1"],
            Kind::Shape => &["0"],
            Kind::Sh => &["0", "0"],
            Kind::Buf => &["0", "0", "0", "1", "1"],
            Kind::Key => &["0", "0", "60"],
            Kind::Out => &["0"],
        }
    }

    pub fn variants(self) -> (r: &'static [&'static str])
        ensures
            r@.map_values(|s: &str| s@) == variant_names(self),
    {
        match self {
            Kind::Trk => &["freq", "gate", "vel", "note"],
            Kind::Osc => &["sin", "saw", "sqr", "tri", "pulse", "phase"],
            Kind::Filt => &["lp", "hp", "bp"],
            Kind::Math => &["+", "-", "*", "/", "min", "max", "pow", ">", "<"],
            Kind::Shape => &["tanh", "clip", "abs", "sqrt", "neg"],
            _ => &[],
        }
    }

    pub open spec fn is_chainable(self) -> bool {
        self is Filt || self is Delay || self is Math || self is Shape || self is Sh || self is Buf
    }

    /// Nodes with a primary audio input at index 0 get spliced into a chain when added.
    #[verifier::when_used_as_spec(is_chainable)]
    pub fn chainable(self) -> (r: bool)
        ensures
            r == self.is_chainable(),
    {
        match self {
            Kind::Filt | Kind::Delay | Kind::Math | Kind::Shape | Kind::Sh | Kind::Buf => true,
            _ => false,
        }
    }
}

/// An input of a node: a constant, or a link that reads the output of the node with that id.
#[derive(Clone, Copy, Debug, PartialEq, Eq, Structural)]
pub enum Input {
    Const(Bits32),
    Link(u32),
}

#[derive(Clone, Debug)]
pub struct Node {
    pub id: u32,
    pub kind: Kind,
    pub var: usize,
    pub inputs: Vec<Input>,
    /// TRK only: which track feeds this node
    pub track: u32,
}

/// The mathematical value of a node.
#[verifier::ext_equal]
pub struct NodeView {
    pub id: u32,
    pub kind: Kind,
    pub var: usize,
    pub inputs: Seq<Input>,
    pub track: u32,
}

impl View for Node {
    type V = NodeView;

    open spec fn view(&self) -> NodeView {
        NodeView { id: self.id, kind: self.kind, var: self.var, inputs: self.inputs@, track: self.track }
    }
}

#[derive(Clone, Debug)]
pub struct Graph {
    pub nodes: Vec<Node>,
    pub next_id: u32,
}

/// The mathematical value of a graph: its nodes in order, and the id the next new node gets.
#[verifier::ext_equal]
pub struct GraphView {
    pub nodes: Seq<NodeView>,
    pub next_id: u32,
}

impl View for Graph {
    type V = GraphView;

    open spec fn view(&self) -> GraphView {
        GraphView { nodes: self.nodes@.map_values(|n: Node| n@), next_id: self.next_id }
    }
}

impl Default for Graph {
    fn default() -> (g: Graph)
        ensures
            g@.nodes.len() == 0,
            g.next_id == 0,
    {
        Graph { nodes: Vec::new(), next_id: 0 }
    }
}

/// `i` is the first position in `ns` whose node satisfies `p`.
pub open spec fn first_pos(ns: Seq<NodeView>, p: spec_fn(NodeView) -> bool, i: int) -> bool {
    &&& 0 <= i < ns.len()
    &&& p(ns[i])
    &&& forall|j: int| 0 <= j < i ==> !p(#[trigger] ns[j])
}

/// The first position in `ns` whose node satisfies `p`, if any.
pub open spec fn position(ns: Seq<NodeView>, p: spec_fn(NodeView) -> bool) -> Option<int> {
    if exists|i: int| first_pos(ns, p, i) {
        Some(choose|i: int| first_pos(ns, p, i))
    } else {
        None
    }
}

pub open spec fn id_is(id: u32) -> spec_fn(NodeView) -> bool {
    |n: NodeView| n.id == id
}

pub open spec fn is_out() -> spec_fn(NodeView) -> bool {
    |n: NodeView| n.kind == Kind::Out
}

pub open spec fn is_trk_of(track: u32, var: usize) -> spec_fn(NodeView) -> bool {
    |n: NodeView| n.kind == Kind::Trk && n.track == track && n.var == var
}

/// The position of the node that a link to `id` reads: the first node with that id.
pub open spec fn find(ns: Seq<NodeView>, id: u32) -> Option<int> {
    position(ns, id_is(id))
}

proof fn lemma_first_exists(ns: Seq<NodeView>, p: spec_fn(NodeView) -> bool, i: int)
    requires
        0 <= i < ns.len(),
        p(ns[i]),
    ensures
        exists|j: int| first_pos(ns, p, j),
    decreases i,
{
    if exists|j: int| 0 <= j < i && p(ns[j]) {
        let j = choose|j: int| 0 <= j < i && p(ns[j]);
        lemma_first_exists(ns, p, j);
    } else {
        assert(first_pos(ns, p, i));
    }
}

/// What `position` is: the unique first match, or `None` when nothing matches.
pub broadcast proof fn lemma_position(ns: Seq<NodeView>, p: spec_fn(NodeView) -> bool)
    ensures
        #[trigger] position(ns, p) matches Some(i) ==> first_pos(ns, p, i),
        position(ns, p) is None <==> forall|j: int| 0 <= j < ns.len() ==> !p(#[trigger] ns[j]),
        forall|k: int| first_pos(ns, p, k) ==> position(ns, p) == Some(k),
{
    if exists|i: int| 0 <= i < ns.len() && p(ns[i]) {
        let i = choose|i: int| 0 <= i < ns.len() && p(ns[i]);
        lemma_first_exists(ns, p, i);
    }
    assert forall|i: int| first_pos(ns, p, i) implies position(ns, p) == Some(i) by {
        let k = choose|k: int| first_pos(ns, p, k);
        if k < i {
            assert(!p(ns[k]));
        } else if i < k {
            assert(!p(ns[i]));
        }
    }
}

/// `g` after appending a node of `kind` with id `g.next_id`.
pub open spec fn added(g: GraphView, kind: Kind, var: usize, given: Seq<Input>) -> GraphView {
    GraphView {
        nodes: g.nodes.push(NodeView { id: g.next_id, kind, var, inputs: with_defaults(kind, given), track: 0 }),
        next_id: (g.next_id + 1) as u32,
    }
}

/// Fill `given` up to the kind's arity with its default constants; extra inputs are dropped.
pub open spec fn with_defaults(kind: Kind, given: Seq<Input>) -> Seq<Input> {
    Seq::new(
        arity(kind),
        |i: int|
            if i < given.len() {
                given[i]
            } else {
                Input::Const(default_values(kind)[i])
            },
    )
}

impl Graph {
    /// The index of the first node with id `id`.
    pub fn idx(&self, id: u32) -> (r: Option<usize>)
        ensures
            r matches Some(i) ==> find(self@.nodes, id) == Some(i as int),
            r is None ==> find(self@.nodes, id) is None,
    {
        broadcast use lemma_position;

        let mut i: usize = 0;
        while i < self.nodes.len()
            invariant
                i <= self.nodes@.len(),
                forall|j: int| 0 <= j < i ==> self@.nodes[j].id != id,
            decreases self.nodes@.len() - i,
        {
            if self.nodes[i].id == id {
                assert(first_pos(self@.nodes, id_is(id), i as int));
                return Some(i);
            }
            i += 1;
        }
        assert forall|j: int| 0 <= j < self@.nodes.len() implies !id_is(id)(#[trigger] self@.nodes[j]) by {}
        None
    }

    pub fn get(&self, id: u32) -> (r: Option<&Node>)
        ensures
            r matches Some(n) ==> find(self@.nodes, id) matches Some(i) && n@ == self@.nodes[i],
            r is None ==> find(self@.nodes, id) is None,
    {
        match self.idx(id) {
            Some(i) => Some(&self.nodes[i]),
            None => None,
        }
    }

    /// The id of the first OUT node.
    pub fn out_id(&self) -> (r: Option<u32>)
        ensures
            r matches Some(id) ==> position(self@.nodes, is_out()) matches Some(i) && self@.nodes[i].id == id,
            r is None ==> position(self@.nodes, is_out()) is None,
    {
        broadcast use lemma_position;

        let mut i: usize = 0;
        while i < self.nodes.len()
            invariant
                i <= self.nodes@.len(),
                forall|j: int| 0 <= j < i ==> self@.nodes[j].kind != Kind::Out,
            decreases self.nodes@.len() - i,
        {
            if self.nodes[i].kind == Kind::Out {
                assert(first_pos(self@.nodes, is_out(), i as int));
                return Some(self.nodes[i].id);
            }
            i += 1;
        }
        assert forall|j: int| 0 <= j < self@.nodes.len() implies !is_out()(#[trigger] self@.nodes[j]) by {}
        None
    }

    /// The id of the first TRK node of `track` with variant `var`.
    pub fn find_trk(&self, track: u32, var: usize) -> (r: Option<u32>)
        ensures
            r matches Some(id) ==> position(self@.nodes, is_trk_of(track, var)) matches Some(i) && self@.nodes[i].id == id,
            r is None ==> position(self@.nodes, is_trk_of(track, var)) is None,
    {
        broadcast use lemma_position;

        let mut i: usize = 0;
        while i < self.nodes.len()
            invariant
                i <= self.nodes@.len(),
                forall|j: int| 0 <= j < i ==> !is_trk_of(track, var)(#[trigger] self@.nodes[j]),
            decreases self.nodes@.len() - i,
        {
            let n = &self.nodes[i];
            if n.kind == Kind::Trk && n.track == track && n.var == var {
                assert(first_pos(self@.nodes, is_trk_of(track, var), i as int));
                return Some(n.id);
            }
            i += 1;
        }
        None
    }

    /// Append a node of `kind` with the next id; `inputs` override its default inputs from the start.
    pub fn add(&mut self, kind: Kind, var: usize, inputs: Vec<Input>) -> (id: u32)
        requires
            old(self).next_id < u32::MAX,
        ensures
            id == old(self).next_id,
            final(self).next_id == id + 1,
            final(self)@ == added(old(self)@, kind, var, inputs@),
    {
        let id = self.next_id;
        self.next_id = self.next_id + 1;
        let d = kind.defaults();
        let mut inp: Vec<Input> = Vec::new();
        let mut i: usize = 0;
        while i < d.len()
            invariant
                i <= d@.len(),
                d@ == default_values(kind),
                inp@ =~= with_defaults(kind, inputs@).take(i as int),
            decreases d@.len() - i,
        {
            if i < inputs.len() {
                inp.push(inputs[i]);
            } else {
                inp.push(Input::Const(d[i]));
            }
            i += 1;
        }
        assert(inp@ =~= with_defaults(kind, inputs@));
        let ghost before = self@.nodes;
        self.nodes.push(Node { id, kind, var, inputs: inp, track: 0 });
        assert(self@.nodes =~= before.push(NodeView { id, kind, var, inputs: with_defaults(kind, inputs@), track: 0 }));
        id
    }
}

/// `ns` with input `k` of node `i` replaced by `x`.
pub open spec fn set_input(ns: Seq<NodeView>, i: int, k: int, x: Input) -> Seq<NodeView> {
    ns.update(i, NodeView { inputs: ns[i].inputs.update(k, x), ..ns[i] })
}

pub open spec fn link_or_zero(x: Option<u32>) -> Input {
    match x {
        Some(id) => Input::Link(id),
        None => Input::Const(Bits32(F_0)),
    }
}

/// The id of the first node satisfying `p`, if any.
pub open spec fn id_at(ns: Seq<NodeView>, p: spec_fn(NodeView) -> bool) -> Option<u32> {
    match position(ns, p) {
        Some(i) => Some(ns[i].id),
        None => None,
    }
}

pub(crate) fn link_or_zero_exec(x: Option<u32>) -> (r: Input)
    ensures
        r == link_or_zero(x),
{
    match x {
        Some(id) => Input::Link(id),
        None => Input::Const(Bits32(F_0)),
    }
}

impl Graph {
    /// Replace input `k` of the node at index `i`.
    fn put_input(&mut self, i: usize, k: usize, x: Input)
        requires
            i < old(self)@.nodes.len(),
            k < old(self)@.nodes[i as int].inputs.len(),
        ensures
            final(self)@ == (GraphView { nodes: set_input(old(self)@.nodes, i as int, k as int, x), ..old(self)@ }),
    {
        let ghost before = self@.nodes;
        self.nodes[i].inputs.set(k, x);
        assert(self@.nodes =~= set_input(before, i as int, k as int, x));
    }

    /// Rewire every link to `from` in the inputs of the node at index `i` (see `rewire`).
    fn rewire_node(&mut self, i: usize, from: u32, repl: Option<Input>)
        requires
            i < old(self)@.nodes.len(),
        ensures
            final(self)@ == (GraphView { nodes: old(self)@.nodes.update(i as int, rewire(old(self)@.nodes[i as int], from, repl)), ..old(self)@ }),
    {
        let ghost g0 = self@;
        let kind = self.nodes[i].kind;
        let d = kind.defaults();
        let mut k: usize = 0;
        while k < self.nodes[i].inputs.len()
            invariant
                i < g0.nodes.len(),
                kind == g0.nodes[i as int].kind,
                d@ == default_values(kind),
                self@.next_id == g0.next_id,
                self@.nodes.len() == g0.nodes.len(),
                forall|j: int| 0 <= j < g0.nodes.len() && j != i ==> self@.nodes[j] == g0.nodes[j],
                self@.nodes[i as int].id == g0.nodes[i as int].id,
                self@.nodes[i as int].kind == g0.nodes[i as int].kind,
                self@.nodes[i as int].var == g0.nodes[i as int].var,
                self@.nodes[i as int].track == g0.nodes[i as int].track,
                self@.nodes[i as int].inputs.len() == g0.nodes[i as int].inputs.len(),
                k <= g0.nodes[i as int].inputs.len(),
                forall|m: int| 0 <= m < k ==> #[trigger] self@.nodes[i as int].inputs[m]
                    == rewire(g0.nodes[i as int], from, repl).inputs[m],
                forall|m: int| k <= m < g0.nodes[i as int].inputs.len() ==> #[trigger] self@.nodes[i as int].inputs[m]
                    == g0.nodes[i as int].inputs[m],
            decreases g0.nodes[i as int].inputs.len() - k,
        {
            if self.nodes[i].inputs[k] == Input::Link(from) {
                let x = match repl {
                    Some(x) => x,
                    None => if k < d.len() { Input::Const(d[k]) } else { Input::Const(Bits32(F_0)) },
                };
                self.put_input(i, k, x);
            }
            k += 1;
        }
        assert(self@.nodes[i as int] =~= rewire(g0.nodes[i as int], from, repl));
        assert(self@.nodes =~= g0.nodes.update(i as int, rewire(g0.nodes[i as int], from, repl)));
    }

    pub fn get_mut(&mut self, id: u32) -> (r: Option<&mut Node>)
        ensures
            r matches Some(n) ==> find(old(self)@.nodes, id) matches Some(i) && n@ == old(self)@.nodes[i]
                && final(self).next_id == old(self).next_id
                && final(self)@.nodes == old(self)@.nodes.update(i, final(n)@),
            r is None ==> find(old(self)@.nodes, id) is None && final(self)@ == old(self)@,
    {
        match self.idx(id) {
            Some(i) => Some(&mut self.nodes[i]),
            None => None,
        }
    }
}

/// Default constant `k` of a kind, or `0.0` past its arity.
pub open spec fn default_or_zero(kind: Kind, k: int) -> Input {
    if 0 <= k < arity(kind) { Input::Const(default_values(kind)[k]) } else { Input::Const(Bits32(F_0)) }
}

/// `n` with every link to `from` replaced by `repl`, or by the input's default when `repl` is `None`.
pub open spec fn rewire(n: NodeView, from: u32, repl: Option<Input>) -> NodeView {
    NodeView {
        inputs: Seq::new(
            n.inputs.len(),
            |k: int|
                if n.inputs[k] == Input::Link(from) {
                    match repl {
                        Some(x) => x,
                        None => default_or_zero(n.kind, k),
                    }
                } else {
                    n.inputs[k]
                },
        ),
        ..n
    }
}

/// The result of `to_out(id)` and the graph it leaves.
pub open spec fn to_out_spec(g: GraphView, id: u32) -> (GraphView, Option<u32>) {
    match id_at(g.nodes, is_out()) {
        None => (g, None),
        Some(out) => if id == out {
            (g, None)
        } else {
            let j = find(g.nodes, out)->0;
            match g.nodes[j].inputs[0] {
                Input::Link(x) => if x == id {
                    (g, Some(out))
                } else {
                    let g2 = added(g, Kind::Math, 0, seq![Input::Link(x), Input::Link(id)]);
                    (GraphView { nodes: set_input(g2.nodes, j, 0, Input::Link(g.next_id)), ..g2 }, Some(g.next_id))
                },
                Input::Const(_) => (GraphView { nodes: set_input(g.nodes, j, 0, Input::Link(id)), ..g }, Some(out)),
            }
        },
    }
}

/// What `to_out(id)` needs: OUT's first input exists, and a mix node can get a fresh id.
pub open spec fn to_out_ok(g: GraphView, id: u32) -> bool {
    match id_at(g.nodes, is_out()) {
        None => true,
        Some(out) => id != out ==> {
            let j = find(g.nodes, out)->0;
            &&& g.nodes[j].inputs.len() > 0
            &&& (g.nodes[j].inputs[0] matches Input::Link(x) && x != id) ==> g.next_id < u32::MAX
        },
    }
}

/// `g` after appending a TRK node of variant `var` that `track` feeds.
pub open spec fn trk_added(g: GraphView, track: u32, var: usize) -> GraphView {
    let g2 = added(g, Kind::Trk, var, seq![]);
    GraphView { nodes: g2.nodes.update(g.nodes.len() as int, NodeView { track, ..g2.nodes.last() }), ..g2 }
}

impl Graph {
    pub fn add_trk(&mut self, track: u32, var: usize) -> (id: u32)
        requires
            old(self).next_id < u32::MAX,
        ensures
            id == old(self).next_id,
            final(self)@ == trk_added(old(self)@, track, var),
    {
        let ghost g0 = self@;
        let id = self.add(Kind::Trk, var, Vec::new());
        assert(self@.nodes.len() == g0.nodes.len() + 1);
        let last = self.nodes.len() - 1;
        let ghost before = self@.nodes;
        self.nodes[last].track = track;
        assert(self@.nodes =~= before.update(last as int, NodeView { track, ..before.last() }));
        id
    }

    /// Send `id` to OUT: directly if OUT is free, otherwise through a new MATH + that mixes
    /// it with what's already there. Returns the node that now feeds OUT with it.
    pub fn to_out(&mut self, id: u32) -> (r: Option<u32>)
        requires
            to_out_ok(old(self)@, id),
        ensures
            (final(self)@, r) == to_out_spec(old(self)@, id),
    {
        broadcast use lemma_position;

        let out = match self.out_id() {
            Some(o) => o,
            None => return None,
        };
        if id == out {
            return None;
        }
        let j = match self.idx(out) {
            Some(j) => j,
            None => {
                assert(id_is(out)(self@.nodes[position(self@.nodes, is_out())->0]));
                return None;
            },
        };
        let cur = self.nodes[j].inputs[0];
        match cur {
            Input::Link(x) => {
                if x == id {
                    Some(out)
                } else {
                    let ghost g0 = self@;
                    let ins = vec![Input::Link(x), Input::Link(id)];
                    assert(ins@ =~= seq![Input::Link(x), Input::Link(id)]);
                    let mix = self.add(Kind::Math, 0, ins);
                    self.put_input(j, 0, Input::Link(mix));
                    Some(mix)
                }
            },
            Input::Const(_) => {
                self.put_input(j, 0, Input::Link(id));
                Some(out)
            },
        }
    }
}

/// The selection that `insert` works from: `after`, unless it is missing or OUT.
pub open spec fn insert_after(ns: Seq<NodeView>, after: Option<u32>) -> Option<u32> {
    match after {
        Some(a) => match find(ns, a) {
            Some(i) => if ns[i].kind != Kind::Out { Some(a) } else { None },
            None => None,
        },
        None => None,
    }
}

/// The inputs a new node takes from the current track's TRK nodes.
pub open spec fn track_inputs(ns: Seq<NodeView>, kind: Kind, track: u32) -> Seq<Input> {
    match kind {
        Kind::Osc => seq![link_or_zero(id_at(ns, is_trk_of(track, 0)))],
        Kind::Env => seq![link_or_zero(id_at(ns, is_trk_of(track, 1)))],
        Kind::Key => seq![link_or_zero(id_at(ns, is_trk_of(track, 1))), link_or_zero(id_at(ns, is_trk_of(track, 3)))],
        _ => seq![],
    }
}

/// Whether a node of kind `ak` and variant `av` is a sensible first input for a new `kind` node
/// (an envelope is no frequency, audio is no gate, ...).
pub open spec fn sensible(kind: Kind, ak: Kind, av: usize) -> bool {
    match kind {
        Kind::Osc => (ak == Kind::Trk && av == 0) || ak == Kind::Math || ak == Kind::Sh,
        Kind::Env | Kind::Key => (ak == Kind::Trk && av == 1) || ak == Kind::Key || (ak == Kind::Math && (av == 7 || av == 8)),
        Kind::Trk | Kind::Noise => false,
        _ => true,
    }
}

/// The inputs `insert` gives a new node, before the defaults fill the rest.
pub open spec fn insert_inputs(ns: Seq<NodeView>, kind: Kind, after: Option<u32>, track: u32) -> Seq<Input> {
    let base = track_inputs(ns, kind, track);
    match insert_after(ns, after) {
        None => base,
        Some(a) => {
            let an = ns[find(ns, a)->0];
            let wired = if sensible(kind, an.kind, an.var) {
                if base.len() == 0 { seq![Input::Link(a)] } else { base.update(0, Input::Link(a)) }
            } else {
                base
            };
            if kind == Kind::Osc && an.kind == Kind::Env {
                with_defaults(Kind::Osc, wired).update(2, Input::Link(a))
            } else if kind == Kind::Noise && an.kind == Kind::Env {
                seq![Input::Link(a)]
            } else {
                wired
            }
        },
    }
}

/// The graph that `insert` leaves.
pub open spec fn insert_spec(g: GraphView, kind: Kind, after: Option<u32>, track: u32) -> GraphView {
    let ns = g.nodes;
    let id = g.next_id;
    let a2 = insert_after(ns, after);
    let node = NodeView {
        id,
        kind,
        var: if kind == Kind::Math { 2 } else { 0 },
        inputs: with_defaults(kind, insert_inputs(ns, kind, after, track)),
        track: if kind == Kind::Trk { track } else { 0 },
    };
    let pushed = ns.push(node);
    let nodes = match a2 {
        None => pushed,
        Some(a) => {
            let j = find(ns, a)->0;
            let ak = ns[j].kind;
            if kind == Kind::Env && (ak == Kind::Osc || ak == Kind::Noise) {
                let k: int = if ak == Kind::Osc { 2 } else { 0 };
                if ns[j].inputs[k] is Const { set_input(pushed, j, k, Input::Link(id)) } else { pushed }
            } else if kind.chainable() {
                Seq::new(pushed.len(), |i: int| if pushed[i].id != id { rewire(pushed[i], a, Some(Input::Link(id))) } else { pushed[i] })
            } else {
                pushed
            }
        },
    };
    GraphView { nodes, next_id: (id + 1) as u32 }
}

/// What `insert` needs: a fresh id, and the input an envelope hooks into on the selection exists.
pub open spec fn insert_ok(g: GraphView, kind: Kind, after: Option<u32>) -> bool {
    &&& g.next_id < u32::MAX
    &&& (kind == Kind::Env && insert_after(g.nodes, after) is Some) ==> {
        let n = g.nodes[find(g.nodes, insert_after(g.nodes, after)->0)->0];
        &&& n.kind == Kind::Osc ==> n.inputs.len() > 2
        &&& n.kind == Kind::Noise ==> n.inputs.len() > 0
    }
}

impl Graph {
    /// Add a node wired to the selection: its first input reads `after` (unless `after` is OUT),
    /// OSC/ENV/KEY otherwise follow the track's TRK nodes, and chainable nodes are spliced
    /// after `after` (everything that read `after` now reads the new node).
    pub fn insert(&mut self, kind: Kind, after: Option<u32>, track: u32) -> (id: u32)
        requires
            insert_ok(old(self)@, kind, after),
        ensures
            id == old(self).next_id,
            final(self)@ == insert_spec(old(self)@, kind, after, track),
    {
        broadcast use lemma_position;

        let ghost g0 = self@;
        let sel = match after {
            Some(a) => match self.get(a) {
                Some(n) => if n.kind != Kind::Out { Some(a) } else { None },
                None => None,
            },
            None => None,
        };
        assert(sel == insert_after(g0.nodes, after));
        let mut inputs: Vec<Input> = match kind {
            Kind::Osc => vec![link_or_zero_exec(self.find_trk(track, 0))],
            Kind::Env => vec![link_or_zero_exec(self.find_trk(track, 1))],
            Kind::Key => vec![link_or_zero_exec(self.find_trk(track, 1)), link_or_zero_exec(self.find_trk(track, 3))],
            _ => Vec::new(),
        };
        assert(inputs@ =~= track_inputs(g0.nodes, kind, track));
        let mut ak: Option<Kind> = None;
        let mut aj: usize = 0;
        let ghost base = inputs@;
        if let Some(a) = sel {
            let j = self.idx(a).unwrap();
            assert(find(g0.nodes, a) == Some(j as int));
            aj = j;
            let an_kind = self.nodes[j].kind;
            let an_var = self.nodes[j].var;
            ak = Some(an_kind);
            let sens = match kind {
                Kind::Osc => (an_kind == Kind::Trk && an_var == 0) || an_kind == Kind::Math || an_kind == Kind::Sh,
                Kind::Env | Kind::Key => (an_kind == Kind::Trk && an_var == 1) || an_kind == Kind::Key
                    || (an_kind == Kind::Math && (an_var == 7 || an_var == 8)),
                Kind::Trk | Kind::Noise => false,
                _ => true,
            };
            if sens {
                if inputs.len() == 0 {
                    inputs.push(Input::Link(a));
                } else {
                    inputs.set(0, Input::Link(a));
                }
            }
            let ghost wired = inputs@;
            assert(wired =~= (if sensible(kind, an_kind, an_var) {
                if base.len() == 0 { seq![Input::Link(a)] } else { base.update(0, Input::Link(a)) }
            } else {
                base
            }));
            if kind == Kind::Osc && an_kind == Kind::Env {
                assert(wired.len() == 1);
                let d = kind.defaults();
                while inputs.len() < 3
                    invariant
                        1 <= inputs@.len() <= 3,
                        wired.len() == 1,
                        inputs@[0] == wired[0],
                        d@ == default_values(Kind::Osc),
                        forall|k: int| 1 <= k < inputs@.len() ==> inputs@[k] == Input::Const(d@[k]),
                    decreases 3 - inputs@.len(),
                {
                    let l = inputs.len();
                    inputs.push(Input::Const(d[l]));
                }
                inputs.set(2, Input::Link(a));
                assert(inputs@ =~= with_defaults(Kind::Osc, wired).update(2, Input::Link(a)));
            }
            if kind == Kind::Noise && an_kind == Kind::Env {
                inputs = vec![Input::Link(a)];
            }
        }
        assert(inputs@ =~= insert_inputs(g0.nodes, kind, after, track));
        let var: usize = if kind == Kind::Math { 2 } else { 0 };
        let id = self.add(kind, var, inputs);
        assert(self.nodes@.len() == self@.nodes.len());
        if kind == Kind::Trk {
            let last = self.nodes.len() - 1;
            let ghost before = self@.nodes;
            self.nodes[last].track = track;
            assert(self@.nodes =~= before.update(last as int, NodeView { track, ..before.last() }));
        }
        let ghost pushed = self@.nodes;
        if let Some(a) = sel {
            let k = ak.unwrap();
            if kind == Kind::Env && (k == Kind::Osc || k == Kind::Noise) {
                let ki: usize = if k == Kind::Osc { 2 } else { 0 };
                assert(self@.nodes[aj as int] == g0.nodes[aj as int]);
                assert(self.nodes@[aj as int]@ == self@.nodes[aj as int]);
                if let Input::Const(_) = self.nodes[aj].inputs[ki] {
                    self.put_input(aj, ki, Input::Link(id));
                }
            } else if kind.chainable() {
                let mut i: usize = 0;
                while i < self.nodes.len()
                    invariant
                        self@.nodes.len() == pushed.len(),
                        i <= pushed.len(),
                        self.next_id == id + 1,
                        forall|j: int| 0 <= j < i ==> #[trigger] self@.nodes[j] == (if pushed[j].id != id { rewire(pushed[j], a, Some(Input::Link(id))) } else { pushed[j] }),
                        forall|j: int| i <= j < pushed.len() ==> #[trigger] self@.nodes[j] == pushed[j],
                    decreases pushed.len() - i,
                {
                    if self.nodes[i].id != id {
                        self.rewire_node(i, a, Some(Input::Link(id)));
                    }
                    i += 1;
                }
            }
        }
        assert(self@.nodes =~= insert_spec(g0, kind, after, track).nodes);
        id
    }
}

pub open spec fn kind_of(ns: Seq<NodeView>, sel: Option<u32>) -> Option<Kind> {
    match sel {
        Some(id) => match find(ns, id) {
            Some(i) => Some(ns[i].kind),
            None => None,
        },
        None => None,
    }
}

/// The steps of `voice`: the graph once the envelope and the oscillator exist, and their ids.
pub open spec fn voice_parts(g: GraphView, sel: Option<u32>, track: u32) -> (GraphView, u32, u32) {
    let selk = kind_of(g.nodes, sel);
    let (g1, env) = if selk == Some(Kind::Env) {
        (g, sel->0)
    } else {
        (
            added(g, Kind::Env, 0, seq![
                link_or_zero(id_at(g.nodes, is_trk_of(track, 1))),
                Input::Const(Bits32(F_0_01)),
                Input::Const(Bits32(F_0_2)),
                Input::Const(Bits32(F_0_6)),
                Input::Const(Bits32(F_0_2)),
            ]),
            g.next_id,
        )
    };
    let (g2, osc) = if selk == Some(Kind::Osc) {
        (g1, sel->0)
    } else {
        (added(g1, Kind::Osc, 1, seq![link_or_zero(id_at(g1.nodes, is_trk_of(track, 0)))]), g1.next_id)
    };
    (g2, env, osc)
}

/// The graph once the oscillator's amp reads the envelope and the two MATH * nodes exist.
pub open spec fn voice_chain(g: GraphView, sel: Option<u32>, track: u32) -> GraphView {
    let (g2, env, osc) = voice_parts(g, sel, track);
    let g3 = match find(g2.nodes, osc) {
        Some(i) => GraphView { nodes: set_input(g2.nodes, i, 2, Input::Link(env)), ..g2 },
        None => g2,
    };
    let g4 = added(g3, Kind::Math, 2, seq![Input::Link(osc), link_or_zero(id_at(g3.nodes, is_trk_of(track, 2)))]);
    added(g4, Kind::Math, 2, seq![Input::Link(g3.next_id), Input::Const(Bits32(F_0_3))])
}

/// What `voice` needs: fresh ids, an amp input on the oscillator, and what `to_out` needs.
pub open spec fn voice_ok(g: GraphView, sel: Option<u32>, track: u32) -> bool {
    let (g2, env, osc) = voice_parts(g, sel, track);
    let g5 = voice_chain(g, sel, track);
    &&& g.next_id + 5 <= u32::MAX
    &&& (find(g2.nodes, osc) matches Some(i) ==> g2.nodes[i].inputs.len() > 2)
    &&& to_out_ok(g5, (g5.next_id - 1) as u32)
}

/// The result of `consumers(id)` over the first `m` inputs of `n`.
pub open spec fn hits(n: NodeView, id: u32, m: int) -> Seq<(u32, usize)>
    decreases m,
{
    if m <= 0 {
        seq![]
    } else {
        hits(n, id, m - 1) + if n.inputs[m - 1] == Input::Link(id) { seq![(n.id, (m - 1) as usize)] } else { seq![] }
    }
}

/// Every (node id, input index) that reads `id`, over the first `m` nodes, in order.
pub open spec fn consumers_of(ns: Seq<NodeView>, id: u32, m: int) -> Seq<(u32, usize)>
    decreases m,
{
    if m <= 0 {
        seq![]
    } else {
        consumers_of(ns, id, m - 1) + hits(ns[m - 1], id, ns[m - 1].inputs.len() as int)
    }
}

/// `ns` after pointing input `k` of node `t` at `x` for each `(t, k)` of `ts` that exists, in order.
pub open spec fn retarget(ns: Seq<NodeView>, ts: Seq<(u32, usize)>, x: Input) -> Seq<NodeView>
    decreases ts.len(),
{
    if ts.len() == 0 {
        ns
    } else {
        let prev = retarget(ns, ts.drop_last(), x);
        let (t, k) = ts.last();
        match find(prev, t) {
            Some(i) => if k < prev[i].inputs.len() { set_input(prev, i, k as int, x) } else { prev },
            None => prev,
        }
    }
}

/// The graph that `insert_into` leaves.
pub open spec fn insert_into_spec(g: GraphView, kind: Kind, after: u32, ts: Seq<(u32, usize)>, track: u32) -> GraphView {
    let g1 = insert_spec(g, kind, None, track);
    let id = g.next_id;
    let ns2 = match find(g1.nodes, id) {
        Some(i) => if g1.nodes[i].inputs.len() > 0 { set_input(g1.nodes, i, 0, Input::Link(after)) } else { g1.nodes },
        None => g1.nodes,
    };
    GraphView { nodes: retarget(ns2, ts, Input::Link(id)), ..g1 }
}

/// The first link among `ins`, if any.
pub open spec fn first_link(ins: Seq<Input>) -> Option<Input> {
    if exists|k: int| 0 <= k < ins.len() && ins[k] is Link {
        let k = choose|k: int| 0 <= k < ins.len() && ins[k] is Link && forall|m: int| 0 <= m < k ==> !(ins[m] is Link);
        Some(ins[k])
    } else {
        None
    }
}

/// The graph that `remove(id)` leaves.
pub open spec fn remove_spec(g: GraphView, id: u32) -> GraphView {
    match find(g.nodes, id) {
        None => g,
        Some(i) => if g.nodes[i].kind == Kind::Out {
            g
        } else {
            let repl = first_link(g.nodes[i].inputs);
            GraphView { nodes: g.nodes.remove(i).map_values(|n: NodeView| rewire(n, id, repl)), ..g }
        },
    }
}

fn first_link_exec(ins: &Vec<Input>) -> (r: Option<Input>)
    ensures
        r == first_link(ins@),
{
    let mut k: usize = 0;
    while k < ins.len()
        invariant
            k <= ins@.len(),
            forall|m: int| 0 <= m < k ==> !(ins@[m] is Link),
        decreases ins@.len() - k,
    {
        if let Input::Link(_) = ins[k] {
            let ghost s = ins@;
            assert(0 <= k < s.len() && s[k as int] is Link);
            assert(first_link(s) == Some(s[k as int])) by {
                let c = choose|c: int| 0 <= c < s.len() && s[c] is Link && forall|m: int| 0 <= m < c ==> !(s[m] is Link);
                assert(forall|m: int| 0 <= m < k ==> !(s[m] is Link));
                if c < k {
                } else if k < c {
                    assert(!(s[k as int] is Link));
                }
            }
            return Some(ins[k]);
        }
        k += 1;
    }
    None
}

impl Graph {
    /// the recipe behind `a` `v`: OSC (freq from the track) × ENV (gate from the track) → OUT,
    /// reusing `sel` if it already is an OSC or ENV. Returns the MATH * node.
    pub fn voice(&mut self, sel: Option<u32>, track: u32) -> (vca: u32)
        requires
            voice_ok(old(self)@, sel, track),
        ensures
            vca == voice_parts(old(self)@, sel, track).0.next_id,
            final(self)@ == to_out_spec(voice_chain(old(self)@, sel, track), (voice_chain(old(self)@, sel, track).next_id - 1) as u32).0,
    {
        let ghost g0 = self@;
        let selk = match sel {
            Some(id) => match self.get(id) {
                Some(n) => Some(n.kind),
                None => None,
            },
            None => None,
        };
        assert(selk == kind_of(g0.nodes, sel));
        let env = if selk == Some(Kind::Env) {
            sel.unwrap()
        } else {
            let g = link_or_zero_exec(self.find_trk(track, 1));
            let ins = vec![g, Input::Const(Bits32(F_0_01)), Input::Const(Bits32(F_0_2)), Input::Const(Bits32(F_0_6)), Input::Const(Bits32(F_0_2))];
            assert(ins@ =~= seq![g, Input::Const(Bits32(F_0_01)), Input::Const(Bits32(F_0_2)), Input::Const(Bits32(F_0_6)), Input::Const(Bits32(F_0_2))]);
            self.add(Kind::Env, 0, ins)
        };
        let osc = if selk == Some(Kind::Osc) {
            sel.unwrap()
        } else {
            let f = link_or_zero_exec(self.find_trk(track, 0));
            let ins = vec![f];
            assert(ins@ =~= seq![f]);
            self.add(Kind::Osc, 1, ins)
        };
        let ghost g2 = self@;
        assert(g2 == voice_parts(g0, sel, track).0);
        if let Some(i) = self.idx(osc) {
            self.put_input(i, 2, Input::Link(env));
        }
        let vel = link_or_zero_exec(self.find_trk(track, 2));
        let ins = vec![Input::Link(osc), vel];
        assert(ins@ =~= seq![Input::Link(osc), vel]);
        let vv = self.add(Kind::Math, 2, ins);
        let ins = vec![Input::Link(vv), Input::Const(Bits32(F_0_3))];
        assert(ins@ =~= seq![Input::Link(vv), Input::Const(Bits32(F_0_3))]);
        let gain = self.add(Kind::Math, 2, ins);
        assert(self@ == voice_chain(g0, sel, track));
        self.to_out(gain);
        vv
    }

    /// disconnect input `k` of node `t` (back to its default constant)
    pub fn disconnect(&mut self, t: u32, k: usize)
        requires
            find(old(self)@.nodes, t) matches Some(i) ==> (k < old(self)@.nodes[i].inputs.len() ==> k < arity(old(self)@.nodes[i].kind)),
        ensures
            final(self)@ == match find(old(self)@.nodes, t) {
                Some(i) => if k < old(self)@.nodes[i].inputs.len() {
                    GraphView { nodes: set_input(old(self)@.nodes, i, k as int, Input::Const(default_values(old(self)@.nodes[i].kind)[k as int])), ..old(self)@ }
                } else {
                    old(self)@
                },
                None => old(self)@,
            },
    {
        if let Some(i) = self.idx(t) {
            if k < self.nodes[i].inputs.len() {
                let d = self.nodes[i].kind.defaults()[k];
                self.put_input(i, k, Input::Const(d));
            }
        }
    }

    /// every (node id, input index) that reads `id`
    pub fn consumers(&self, id: u32) -> (v: Vec<(u32, usize)>)
        ensures
            v@ == consumers_of(self@.nodes, id, self@.nodes.len() as int),
    {
        let mut v: Vec<(u32, usize)> = Vec::new();
        let mut i: usize = 0;
        while i < self.nodes.len()
            invariant
                i <= self@.nodes.len(),
                v@ == consumers_of(self@.nodes, id, i as int),
            decreases self@.nodes.len() - i,
        {
            let n = &self.nodes[i];
            let mut k: usize = 0;
            while k < n.inputs.len()
                invariant
                    i < self@.nodes.len(),
                    n@ == self@.nodes[i as int],
                    k <= n.inputs@.len(),
                    v@ == consumers_of(self@.nodes, id, i as int) + hits(n@, id, k as int),
                decreases n.inputs@.len() - k,
            {
                if n.inputs[k] == Input::Link(id) {
                    v.push((n.id, k));
                }
                assert(hits(n@, id, k + 1) == hits(n@, id, k as int) + if n@.inputs[k as int] == Input::Link(id) { seq![(n.id, k)] } else { seq![] });
                k += 1;
                assert(v@ =~= consumers_of(self@.nodes, id, i as int) + hits(n@, id, k as int));
            }
            i += 1;
        }
        v
    }

    /// like `insert`, but the new chainable node only replaces the given consumer inputs of `after`
    pub fn insert_into(&mut self, kind: Kind, after: u32, targets: &[(u32, usize)], track: u32) -> (id: u32)
        requires
            old(self).next_id < u32::MAX,
        ensures
            id == old(self).next_id,
            final(self)@ == insert_into_spec(old(self)@, kind, after, targets@, track),
    {
        let id = self.insert(kind, None, track);
        let ghost g1 = self@;
        if let Some(i) = self.idx(id) {
            if self.nodes[i].inputs.len() > 0 {
                self.put_input(i, 0, Input::Link(after));
            }
        }
        let ghost ns2 = self@.nodes;
        let mut j: usize = 0;
        while j < targets.len()
            invariant
                j <= targets@.len(),
                self@.next_id == g1.next_id,
                self@.nodes == retarget(ns2, targets@.take(j as int), Input::Link(id)),
            decreases targets@.len() - j,
        {
            let (t, k) = targets[j];
            assert(targets@.take(j + 1).drop_last() =~= targets@.take(j as int));
            if let Some(i) = self.idx(t) {
                if k < self.nodes[i].inputs.len() {
                    self.put_input(i, k, Input::Link(id));
                }
            }
            j += 1;
        }
        assert(targets@.take(targets@.len() as int) =~= targets@);
        id
    }

    /// remove a node; consumers get rewired to its primary input (or a constant)
    pub fn remove(&mut self, id: u32)
        ensures
            final(self)@ == remove_spec(old(self)@, id),
    {
        let ghost g0 = self@;
        let i = match self.idx(id) {
            Some(i) => i,
            None => return,
        };
        if self.nodes[i].kind == Kind::Out {
            return;
        }
        let repl = first_link_exec(&self.nodes[i].inputs);
        self.nodes.remove(i);
        let ghost rest = self@.nodes;
        assert(rest =~= g0.nodes.remove(i as int));
        let mut j: usize = 0;
        while j < self.nodes.len()
            invariant
                self@.nodes.len() == rest.len(),
                j <= rest.len(),
                self.next_id == g0.next_id,
                forall|m: int| 0 <= m < j ==> #[trigger] self@.nodes[m] == rewire(rest[m], id, repl),
                forall|m: int| j <= m < rest.len() ==> #[trigger] self@.nodes[m] == rest[m],
            decreases rest.len() - j,
        {
            self.rewire_node(j, id, repl);
            j += 1;
        }
        assert(self@.nodes =~= rest.map_values(|n: NodeView| rewire(n, id, repl)));
    }
}

/// A node's inputs fixed up to its kind: exactly its arity, missing or non-finite constants
/// replaced by the defaults.
pub open spec fn normalized(n: NodeView) -> NodeView {
    NodeView {
        inputs: Seq::new(
            arity(n.kind),
            |k: int|
                if k < n.inputs.len() {
                    match n.inputs[k] {
                        Input::Const(v) => if finite32(v.0) { n.inputs[k] } else { Input::Const(default_values(n.kind)[k]) },
                        Input::Link(x) => Input::Link(x),
                    }
                } else {
                    Input::Const(default_values(n.kind)[k])
                },
        ),
        ..n
    }
}

/// The nodes that `normalize` leaves: every node normalized, and an OUT node appended if there was none.
pub open spec fn normalize_nodes(g: GraphView) -> Seq<NodeView> {
    let ns = g.nodes.map_values(|n: NodeView| normalized(n));
    if position(ns, is_out()) is Some {
        ns
    } else {
        added(GraphView { nodes: ns, ..g }, Kind::Out, 0, seq![]).nodes
    }
}

impl Graph {
    fn normalize_node(&mut self, i: usize)
        requires
            i < old(self)@.nodes.len(),
        ensures
            final(self)@ == (GraphView { nodes: old(self)@.nodes.update(i as int, normalized(old(self)@.nodes[i as int])), ..old(self)@ }),
    {
        let ghost g0 = self@;
        let ghost n0 = g0.nodes[i as int];
        let kind = self.nodes[i].kind;
        let d = kind.defaults();
        let mut ins: Vec<Input> = Vec::new();
        let mut k: usize = 0;
        while k < d.len()
            invariant
                self@ == g0,
                i < g0.nodes.len(),
                n0 == g0.nodes[i as int],
                kind == n0.kind,
                d@ == default_values(kind),
                k <= d@.len(),
                ins@ =~= normalized(n0).inputs.take(k as int),
            decreases d@.len() - k,
        {
            let x = if k < self.nodes[i].inputs.len() {
                match self.nodes[i].inputs[k] {
                    Input::Const(v) => if v.is_finite() { Input::Const(v) } else { Input::Const(d[k]) },
                    Input::Link(x) => Input::Link(x),
                }
            } else {
                Input::Const(d[k])
            };
            ins.push(x);
            k += 1;
        }
        assert(ins@ =~= normalized(n0).inputs);
        self.nodes[i].inputs = ins;
        assert(self@.nodes =~= g0.nodes.update(i as int, normalized(n0)));
    }

    /// fix up inputs lengths (e.g. after loading a file)
    pub fn normalize(&mut self)
        requires
            forall|i: int| 0 <= i < old(self)@.nodes.len() ==> old(self)@.nodes[i].id < u32::MAX,
            position(old(self)@.nodes, is_out()) is None ==> old(self).next_id < u32::MAX,
        ensures
            final(self)@.nodes == normalize_nodes(old(self)@),
            final(self).next_id >= old(self).next_id,
            position(old(self)@.nodes, is_out()) is None ==> final(self).next_id > old(self).next_id,
            forall|i: int| 0 <= i < final(self)@.nodes.len() ==> final(self)@.nodes[i].id < final(self).next_id,
            final(self).next_id == old(self).next_id
                || (position(old(self)@.nodes, is_out()) is None && final(self).next_id == old(self).next_id + 1)
                || exists|i: int| 0 <= i < final(self)@.nodes.len() && final(self)@.nodes[i].id + 1 == final(self).next_id,
    {
        broadcast use lemma_position;

        let ghost g0 = self@;
        let mut i: usize = 0;
        while i < self.nodes.len()
            invariant
                self@.nodes.len() == g0.nodes.len(),
                self.next_id == g0.next_id,
                i <= g0.nodes.len(),
                forall|j: int| 0 <= j < i ==> #[trigger] self@.nodes[j] == normalized(g0.nodes[j]),
                forall|j: int| i <= j < g0.nodes.len() ==> #[trigger] self@.nodes[j] == g0.nodes[j],
            decreases g0.nodes.len() - i,
        {
            self.normalize_node(i);
            i += 1;
        }
        let ghost ns = g0.nodes.map_values(|n: NodeView| normalized(n));
        assert(self@.nodes =~= ns);
        proof {
            if position(g0.nodes, is_out()) is None {
                assert forall|j: int| 0 <= j < ns.len() implies !is_out()(#[trigger] ns[j]) by {
                    assert(!is_out()(g0.nodes[j]));
                }
            } else {
                let o = position(g0.nodes, is_out())->0;
                assert(is_out()(ns[o]));
            }
        }
        assert((position(ns, is_out()) is None) == (position(g0.nodes, is_out()) is None));
        if self.out_id().is_none() {
            let ins: Vec<Input> = Vec::new();
            assert(ins@ =~= seq![]);
            self.add(Kind::Out, 0, ins);
        }
        assert(self@.nodes == normalize_nodes(g0));
        let ghost base = self.next_id;
        let mut m = self.next_id;
        let mut j: usize = 0;
        while j < self.nodes.len()
            invariant
                self@.nodes == normalize_nodes(g0),
                self.next_id == base,
                base == g0.next_id || (position(g0.nodes, is_out()) is None && base == g0.next_id + 1),
                forall|i: int| 0 <= i < self@.nodes.len() ==> self@.nodes[i].id < u32::MAX,
                j <= self@.nodes.len(),
                m >= base,
                forall|i: int| 0 <= i < j ==> self@.nodes[i].id < m,
                m == base || exists|i: int| 0 <= i < j && self@.nodes[i].id + 1 == m,
            decreases self@.nodes.len() - j,
        {
            assert(self.nodes@[j as int]@ == self@.nodes[j as int]);
            let c = self.nodes[j].id + 1;
            if c > m {
                m = c;
                assert(self@.nodes[j as int].id + 1 == m);
            }
            j += 1;
        }
        self.next_id = m;
    }
}

/// Every kind, in palette order.
pub const ALL: [Kind; 12] = [
    Kind::Trk,
    Kind::Osc,
    Kind::Noise,
    Kind::Env,
    Kind::Filt,
    Kind::Delay,
    Kind::Math,
    Kind::Shape,
    Kind::Sh,
    Kind::Buf,
    Kind::Key,
    Kind::Out,
];

/// The add-node palette: key, kind, description.
pub fn palette() -> (r: &'static [(char, Kind, &'static str)])
    ensures
        r@.len() == 12,
        r@.map_values(|e: (char, Kind, &str)| (e.0, e.1)) == palette_keys(),
{
    let r: &'static [(char, Kind, &'static str)] = &[
        ('t', Kind::Trk, "track input  freq/gate/vel/note of the current track"),
        ('o', Kind::Osc, "oscillator  sin/saw/sqr/tri/pulse/phase  (amp input = volume, put an ENV there)"),
        ('n', Kind::Noise, "noise"),
        ('e', Kind::Env, "envelope  gate a d s r"),
        ('f', Kind::Filt, "filter  lp/hp/bp"),
        ('d', Kind::Delay, "delay line (feedback ok)"),
        ('m', Kind::Math, "math  + - * / min max pow > <"),
        ('s', Kind::Shape, "shaper  tanh/clip/abs/sqrt/neg"),
        ('h', Kind::Sh, "sample & hold"),
        ('b', Kind::Buf, "buffer  write/read at any position (wavetable, granular, looper)"),
        ('k', Kind::Key, "key gate  passes gate only when note == key (drum routing)"),
        ('v', Kind::Out, "VOICE recipe: OSC × ENV → OUT for this track (reuses the selected OSC or ENV)"),
    ];
    assert(r@.map_values(|e: (char, Kind, &str)| (e.0, e.1)) =~= palette_keys());
    r
}

pub open spec fn palette_keys() -> Seq<(char, Kind)> {
    seq![
        ('t', Kind::Trk), ('o', Kind::Osc), ('n', Kind::Noise), ('e', Kind::Env), ('f', Kind::Filt), ('d', Kind::Delay),
        ('m', Kind::Math), ('s', Kind::Shape), ('h', Kind::Sh), ('b', Kind::Buf), ('k', Kind::Key), ('v', Kind::Out),
    ]
}

/// The text of `title()`: kind name, variant if the kind has variants, and id.
pub open spec fn title_text(n: NodeView) -> Seq<char> {
    let v = variant_names(n.kind);
    if v.len() == 0 {
        kind_name(n.kind) + seq![' ', '#'] + decimal(n.id as nat)
    } else {
        kind_name(n.kind) + seq![' '] + v[(n.var as int) % (v.len() as int)] + seq![' ', '#'] + decimal(n.id as nat)
    }
}

/// The text of `short()`: the variant (or lower-case kind name) followed by the id.
pub open spec fn short_text(n: NodeView) -> Seq<char> {
    let v = variant_names(n.kind);
    if v.len() == 0 {
        kind_name(n.kind).map_values(|c: char| lower(c)) + decimal(n.id as nat)
    } else {
        v[(n.var as int) % (v.len() as int)] + decimal(n.id as nat)
    }
}

impl Node {
    pub fn title(&self) -> (r: String)
        ensures
            r@ == title_text(self@),
    {
        let v = self.kind.variants();
        let mut s = String::new();
        push_str(&mut s, self.kind.name());
        if v.len() == 0 {
            push_char(&mut s, ' ');
            push_char(&mut s, '#');
            push_decimal(&mut s, self.id as u64);
            assert(s@ =~= title_text(self@));
        } else {
            push_char(&mut s, ' ');
            let k = self.var % v.len();
            assert(v@.map_values(|t: &str| t@)[k as int] == v@[k as int]@);
            push_str(&mut s, v[k]);
            push_char(&mut s, ' ');
            push_char(&mut s, '#');
            push_decimal(&mut s, self.id as u64);
            assert(s@ =~= title_text(self@));
        }
        s
    }

    pub fn short(&self) -> (r: String)
        ensures
            r@ == short_text(self@),
    {
        let v = self.kind.variants();
        let mut s = String::new();
        if v.len() == 0 {
            push_lower(&mut s, self.kind.name());
        } else {
            let k = self.var % v.len();
            assert(v@.map_values(|t: &str| t@)[k as int] == v@[k as int]@);
            push_str(&mut s, v[k]);
        }
        push_decimal(&mut s, self.id as u64);
        assert(s@ =~= short_text(self@));
        s
    }
}

/// Node ids are unique and all below `next_id`, so the id a new node gets is fresh.
pub open spec fn ids_ok(g: GraphView) -> bool {
    &&& forall|i: int| 0 <= i < g.nodes.len() ==> #[trigger] g.nodes[i].id < g.next_id
    &&& forall|i: int, j: int|
        0 <= i < g.nodes.len() && 0 <= j < g.nodes.len() && i != j ==> #[trigger] g.nodes[i].id != #[trigger] g.nodes[j].id
}

/// Adding a node keeps node ids unique and below `next_id`.
pub proof fn lemma_add_keeps_ids(g: GraphView, kind: Kind, var: usize, given: Seq<Input>)
    requires
        ids_ok(g),
        g.next_id < u32::MAX,
    ensures
        ids_ok(added(g, kind, var, given)),
{
    let g2 = added(g, kind, var, given);
    assert forall|i: int| 0 <= i < g2.nodes.len() implies #[trigger] g2.nodes[i].id < g2.next_id by {
        if i < g.nodes.len() {
            assert(g2.nodes[i] == g.nodes[i]);
        }
    }
    assert forall|i: int, j: int| 0 <= i < g2.nodes.len() && 0 <= j < g2.nodes.len() && i != j implies
        #[trigger] g2.nodes[i].id != #[trigger] g2.nodes[j].id by {
        if i < g.nodes.len() {
            assert(g2.nodes[i] == g.nodes[i]);
        }
        if j < g.nodes.len() {
            assert(g2.nodes[j] == g.nodes[j]);
        }
    }
}

/// Adding a TRK node keeps node ids unique and below `next_id`.
pub proof fn lemma_trk_added_keeps_ids(g: GraphView, track: u32, var: usize)
    requires
        ids_ok(g),
        g.next_id < u32::MAX,
    ensures
        ids_ok(trk_added(g, track, var)),
{
    lemma_add_keeps_ids(g, Kind::Trk, var, seq![]);
    let g2 = added(g, Kind::Trk, var, seq![]);
    let g3 = trk_added(g, track, var);
    assert forall|i: int| 0 <= i < g3.nodes.len() implies #[trigger] g3.nodes[i].id == g2.nodes[i].id by {}
}

/// `insert` keeps node ids unique and below `next_id`.
pub proof fn lemma_insert_keeps_ids(g: GraphView, kind: Kind, after: Option<u32>, track: u32)
    requires
        ids_ok(g),
        g.next_id < u32::MAX,
    ensures
        ids_ok(insert_spec(g, kind, after, track)),
{
    let g2 = insert_spec(g, kind, after, track);
    let n = g.nodes.len();
    assert(g2.nodes.len() == n + 1);
    assert forall|i: int| 0 <= i < g2.nodes.len() implies #[trigger] g2.nodes[i].id == if i < n { g.nodes[i].id } else { g.next_id } by {}
    assert forall|i: int| 0 <= i < g2.nodes.len() implies #[trigger] g2.nodes[i].id < g2.next_id by {
        assert(g2.nodes[i].id == if i < n { g.nodes[i].id } else { g.next_id });
    }
    assert forall|i: int, j: int| 0 <= i < g2.nodes.len() && 0 <= j < g2.nodes.len() && i != j implies
        #[trigger] g2.nodes[i].id != #[trigger] g2.nodes[j].id by {
        assert(g2.nodes[i].id == if i < n { g.nodes[i].id } else { g.next_id });
        assert(g2.nodes[j].id == if j < n { g.nodes[j].id } else { g.next_id });
    }
}

/// `remove` keeps node ids unique and below `next_id`.
pub proof fn lemma_remove_keeps_ids(g: GraphView, id: u32)
    requires
        ids_ok(g),
    ensures
        ids_ok(remove_spec(g, id)),
{
    broadcast use lemma_position;

    match find(g.nodes, id) {
        None => {},
        Some(i) => {
            if g.nodes[i].kind != Kind::Out {
                let repl = first_link(g.nodes[i].inputs);
                let rest = g.nodes.remove(i);
                let g2 = remove_spec(g, id);
                assert(g2.nodes == rest.map_values(|n: NodeView| rewire(n, id, repl)));
                assert forall|x: int| 0 <= x < rest.len() implies #[trigger] rest[x] == g.nodes[if x < i { x } else { x + 1 }] by {}
                assert forall|x: int| 0 <= x < g2.nodes.len() implies #[trigger] g2.nodes[x].id < g2.next_id by {
                    assert(g2.nodes[x].id == rest[x].id);
                    assert(rest[x] == g.nodes[if x < i { x } else { x + 1 }]);
                }
                assert forall|x: int, y: int| 0 <= x < g2.nodes.len() && 0 <= y < g2.nodes.len() && x != y implies
                    #[trigger] g2.nodes[x].id != #[trigger] g2.nodes[y].id by {
                    assert(g2.nodes[x].id == rest[x].id);
                    assert(g2.nodes[y].id == rest[y].id);
                    assert(rest[x] == g.nodes[if x < i { x } else { x + 1 }]);
                    assert(rest[y] == g.nodes[if y < i { y } else { y + 1 }]);
                }
            }
        },
    }
}

/// `to_out` keeps node ids unique and below `next_id`.
pub proof fn lemma_to_out_keeps_ids(g: GraphView, id: u32)
    requires
        ids_ok(g),
        to_out_ok(g, id),
    ensures
        ids_ok(to_out_spec(g, id).0),
{
    broadcast use lemma_position;

    let g2 = to_out_spec(g, id).0;
    match id_at(g.nodes, is_out()) {
        None => {},
        Some(out) => {
            if id != out {
                let j = find(g.nodes, out)->0;
                match g.nodes[j].inputs[0] {
                    Input::Link(x) => {
                        if x != id {
                            lemma_add_keeps_ids(g, Kind::Math, 0, seq![Input::Link(x), Input::Link(id)]);
                            let g3 = added(g, Kind::Math, 0, seq![Input::Link(x), Input::Link(id)]);
                            assert forall|i: int| 0 <= i < g2.nodes.len() implies #[trigger] g2.nodes[i].id == g3.nodes[i].id by {}
                        }
                    },
                    Input::Const(_) => {
                        assert forall|i: int| 0 <= i < g2.nodes.len() implies #[trigger] g2.nodes[i].id == g.nodes[i].id by {}
                    },
                }
            }
        },
    }
}

/// Splicing: a chainable node inserted after `a` reads `a` on its first input, and every input
/// that read `a` before now reads the new node instead, so nothing but the new node reads `a`.
pub proof fn lemma_insert_splices(g: GraphView, kind: Kind, a: u32, track: u32)
    requires
        ids_ok(g),
        kind.is_chainable(),
        insert_after(g.nodes, Some(a)) == Some(a),
    ensures
        ({
            let g2 = insert_spec(g, kind, Some(a), track);
            &&& g2.nodes.last().id == g.next_id
            &&& g2.nodes.last().inputs[0] == Input::Link(a)
            &&& forall|i: int, k: int| 0 <= i < g.nodes.len() && 0 <= k < g.nodes[i].inputs.len()
                && g.nodes[i].inputs[k] == Input::Link(a) ==> #[trigger] g2.nodes[i].inputs[k] == Input::Link(g.next_id)
            &&& forall|i: int, k: int| 0 <= i < g.nodes.len() && 0 <= k < g2.nodes[i].inputs.len()
                ==> #[trigger] g2.nodes[i].inputs[k] != Input::Link(a)
        }),
{
    let g2 = insert_spec(g, kind, Some(a), track);
    let id = g.next_id;
    let n = g.nodes.len();
    assert(arity(kind) >= 1);
    assert(insert_inputs(g.nodes, kind, Some(a), track) =~= seq![Input::Link(a)]);
    assert forall|i: int| 0 <= i < n implies #[trigger] g2.nodes[i] == rewire(g.nodes[i], a, Some(Input::Link(id))) by {
        assert(g.nodes[i].id < id);
    }
    assert forall|i: int, k: int| 0 <= i < n && 0 <= k < g2.nodes[i].inputs.len()
        implies #[trigger] g2.nodes[i].inputs[k] != Input::Link(a) by {
        assert(g2.nodes[i] == rewire(g.nodes[i], a, Some(Input::Link(id))));
        assert(a < id) by {
            let j = find(g.nodes, a)->0;
            broadcast use lemma_position;
            assert(g.nodes[j].id == a);
        }
    }
    assert forall|i: int, k: int| 0 <= i < n && 0 <= k < g.nodes[i].inputs.len() && g.nodes[i].inputs[k] == Input::Link(a)
        implies #[trigger] g2.nodes[i].inputs[k] == Input::Link(id) by {
        assert(g2.nodes[i] == rewire(g.nodes[i], a, Some(Input::Link(id))));
    }
}

/// After `remove(id)` no node reads `id` any more (unless the removed node read itself first),
/// Removing a node that was just spliced in after `a` undoes the splice: every input that read
/// the new node reads `a` again, and the nodes are those from before the insert (only the id
/// counter has moved on).
pub proof fn lemma_remove_undoes_insert(g: GraphView, kind: Kind, a: u32, track: u32)
    requires
        ids_ok(g),
        g.next_id < u32::MAX,
        kind.is_chainable(),
        insert_after(g.nodes, Some(a)) == Some(a),
        forall|i: int, k: int| 0 <= i < g.nodes.len() && 0 <= k < g.nodes[i].inputs.len()
            ==> #[trigger] g.nodes[i].inputs[k] != Input::Link(g.next_id),
    ensures
        remove_spec(insert_spec(g, kind, Some(a), track), g.next_id)
            == (GraphView { nodes: g.nodes, next_id: (g.next_id + 1) as u32 }),
{
    broadcast use lemma_position;

    let g2 = insert_spec(g, kind, Some(a), track);
    let id = g.next_id;
    let n = g.nodes.len() as int;
    lemma_insert_splices(g, kind, a, track);
    assert(g2.nodes.len() == n + 1);
    assert forall|i: int| 0 <= i < n implies #[trigger] g2.nodes[i] == rewire(g.nodes[i], a, Some(Input::Link(id))) by {
        assert(g.nodes[i].id < id);
    }
    assert(first_pos(g2.nodes, id_is(id), n)) by {
        assert forall|j: int| 0 <= j < n implies !id_is(id)(#[trigger] g2.nodes[j]) by {
            assert(g2.nodes[j] == rewire(g.nodes[j], a, Some(Input::Link(id))));
            assert(g.nodes[j].id < id);
        }
    }
    assert(find(g2.nodes, id) == Some(n));
    let last = g2.nodes[n];
    assert(last.inputs[0] == Input::Link(a));
    assert(first_link(last.inputs) == Some(Input::Link(a))) by {
        let k = choose|k: int| 0 <= k < last.inputs.len() && last.inputs[k] is Link && forall|m: int| 0 <= m < k ==> !(last.inputs[m] is Link);
        assert(k == 0);
    }
    let rest = g2.nodes.remove(n).map_values(|nd: NodeView| rewire(nd, id, Some(Input::Link(a))));
    assert forall|i: int| 0 <= i < n implies #[trigger] rest[i] == g.nodes[i] by {
        let r1 = rewire(g.nodes[i], a, Some(Input::Link(id)));
        assert(rest[i] == rewire(r1, id, Some(Input::Link(a))));
        assert(rewire(r1, id, Some(Input::Link(a))).inputs =~= g.nodes[i].inputs) by {
            assert forall|k: int| 0 <= k < g.nodes[i].inputs.len() implies
                rewire(r1, id, Some(Input::Link(a))).inputs[k] == g.nodes[i].inputs[k] by {
                assert(g.nodes[i].inputs[k] != Input::Link(id));
            }
        }
    }
    assert(rest =~= g.nodes);
}

/// and every other node is still there, in order.
pub proof fn lemma_remove_leaves_no_link(g: GraphView, id: u32)
    requires
        find(g.nodes, id) matches Some(i) && g.nodes[i].kind != Kind::Out,
        first_link(g.nodes[find(g.nodes, id)->0].inputs) != Some(Input::Link(id)),
    ensures
        ({
            let g2 = remove_spec(g, id);
            let i = find(g.nodes, id)->0;
            &&& g2.nodes.len() == g.nodes.len() - 1
            &&& forall|x: int| 0 <= x < g2.nodes.len() ==> #[trigger] g2.nodes[x].id == g.nodes[if x < i { x } else { x + 1 }].id
            &&& forall|x: int, k: int| 0 <= x < g2.nodes.len() && 0 <= k < g2.nodes[x].inputs.len()
                ==> #[trigger] g2.nodes[x].inputs[k] != Input::Link(id)
        }),
{
    broadcast use lemma_position;

    let i = find(g.nodes, id)->0;
    let repl = first_link(g.nodes[i].inputs);
    let rest = g.nodes.remove(i);
    let g2 = remove_spec(g, id);
    assert(g2.nodes == rest.map_values(|n: NodeView| rewire(n, id, repl)));
    assert forall|x: int| 0 <= x < g2.nodes.len() implies #[trigger] g2.nodes[x].id == g.nodes[if x < i { x } else { x + 1 }].id by {
        assert(rest[x] == g.nodes[if x < i { x } else { x + 1 }]);
    }
    assert forall|x: int, k: int| 0 <= x < g2.nodes.len() && 0 <= k < g2.nodes[x].inputs.len()
        implies #[trigger] g2.nodes[x].inputs[k] != Input::Link(id) by {
        assert(g2.nodes[x] == rewire(rest[x], id, repl));
    }
}

/// After `normalize` every node has exactly the inputs its kind has, no constant input is
/// infinite or NaN, and there is an OUT node.
pub proof fn lemma_normalize_shape(g: GraphView)
    ensures
        forall|i: int| 0 <= i < normalize_nodes(g).len() ==> #[trigger] normalize_nodes(g)[i].inputs.len() == arity(normalize_nodes(g)[i].kind),
        forall|i: int, k: int| 0 <= i < normalize_nodes(g).len() && 0 <= k < normalize_nodes(g)[i].inputs.len()
            ==> (#[trigger] normalize_nodes(g)[i].inputs[k] matches Input::Const(v) ==> finite32(v.0)),
        position(normalize_nodes(g), is_out()) is Some,
{
    broadcast use lemma_position;

    let ns = g.nodes.map_values(|n: NodeView| normalized(n));
    let r = normalize_nodes(g);
    lemma_defaults_finite();
    assert forall|i: int| 0 <= i < r.len() implies #[trigger] r[i].inputs.len() == arity(r[i].kind) by {
        if i < ns.len() {
            assert(r[i] == normalized(g.nodes[i]));
        }
    }
    assert forall|i: int, k: int| 0 <= i < r.len() && 0 <= k < r[i].inputs.len()
        implies (#[trigger] r[i].inputs[k] matches Input::Const(v) ==> finite32(v.0)) by {
        if i < ns.len() {
            assert(r[i] == normalized(g.nodes[i]));
        }
    }
    if position(ns, is_out()) is None {
        assert(is_out()(r[r.len() - 1]));
    }
}

/// Every default constant is finite.
pub proof fn lemma_defaults_finite()
    ensures
        forall|k: Kind, i: int| 0 <= i < arity(k) ==> finite32(#[trigger] default_values(k)[i].0),
{
    assert forall|k: Kind, i: int| 0 <= i < arity(k) implies finite32(#[trigger] default_values(k)[i].0) by {
        let b = default_values(k)[i].0;
        assert(b == F_0 || b == F_0_01 || b == F_0_2 || b == F_0_25 || b == F_0_5 || b == F_0_6 || b == F_0_7
            || b == F_1 || b == F_60 || b == F_440 || b == F_1000);
        assert(finite32(F_0) && finite32(F_0_01) && finite32(F_0_2) && finite32(F_0_25) && finite32(F_0_5)
            && finite32(F_0_6) && finite32(F_0_7) && finite32(F_1) && finite32(F_60) && finite32(F_440)
            && finite32(F_1000)) by (bit_vector);
    }
}


/// Sending a node to an OUT that already plays another node `x` mixes the two: a new MATH node
/// of the `+` variant, reading `x` and the node, is appended and OUT now reads it.
pub proof fn lemma_to_out_mixes(g: GraphView, id: u32, x: u32)
    requires
        id_at(g.nodes, is_out()) is Some,
        id != id_at(g.nodes, is_out())->0,
        find(g.nodes, id_at(g.nodes, is_out())->0) is Some,
        g.nodes[find(g.nodes, id_at(g.nodes, is_out())->0)->0].inputs.len() > 0,
        g.nodes[find(g.nodes, id_at(g.nodes, is_out())->0)->0].inputs[0] == Input::Link(x),
        x != id,
    ensures
        ({
            let (g2, r) = to_out_spec(g, id);
            let j = find(g.nodes, id_at(g.nodes, is_out())->0)->0;
            let n = g.nodes.len() as int;
            &&& r == Some(g.next_id)
            &&& g2.nodes.len() == n + 1
            &&& g2.nodes[n].id == g.next_id
            &&& g2.nodes[n].kind == Kind::Math
            &&& variant_names(Kind::Math)[g2.nodes[n].var as int] == "+"@
            &&& g2.nodes[n].inputs == seq![Input::Link(x), Input::Link(id)]
            &&& g2.nodes[j].inputs[0] == Input::Link(g.next_id)
            &&& forall|q: int| 0 <= q < n && q != j ==> g2.nodes[q] == g.nodes[q]
        }),
{
    broadcast use lemma_position;

    let out = id_at(g.nodes, is_out())->0;
    let j = find(g.nodes, out)->0;
    let g3 = added(g, Kind::Math, 0, seq![Input::Link(x), Input::Link(id)]);
    assert(with_defaults(Kind::Math, seq![Input::Link(x), Input::Link(id)]) =~= seq![Input::Link(x), Input::Link(id)]);
    assert(0 <= j < g.nodes.len());
    assert(to_out_spec(g, id).0.nodes == set_input(g3.nodes, j, 0, Input::Link(g.next_id)));
}

/// The voice recipe's new oscillator takes its frequency from the track: its first input reads
/// the track's first TRK node of the `freq` variant (a constant 0 when the track has none), in
/// the graph that `voice` leaves.
pub proof fn lemma_voice_osc_reads_freq(g: GraphView, sel: Option<u32>, track: u32)
    requires
        ids_ok(g),
        voice_ok(g, sel, track),
        kind_of(g.nodes, sel) != Some(Kind::Osc),
    ensures
        ({
            let osc = voice_parts(g, sel, track).2;
            let g5 = voice_chain(g, sel, track);
            let gf = to_out_spec(g5, (g5.next_id - 1) as u32).0;
            let f = match position(g.nodes, is_trk_of(track, 0)) {
                Some(t) => Input::Link(g.nodes[t].id),
                None => Input::Const(Bits32(F_0)),
            };
            &&& variant_names(Kind::Trk)[0] == "freq"@
            &&& exists|i: int| 0 <= i < gf.nodes.len() && gf.nodes[i].id == osc && gf.nodes[i].kind == Kind::Osc
                && gf.nodes[i].inputs[0] == f
        }),
{
    broadcast use lemma_position;

    let selk = kind_of(g.nodes, sel);
    let (g2, env, osc) = voice_parts(g, sel, track);
    let g1 = if selk == Some(Kind::Env) { g } else {
        added(g, Kind::Env, 0, seq![
            link_or_zero(id_at(g.nodes, is_trk_of(track, 1))),
            Input::Const(Bits32(F_0_01)),
            Input::Const(Bits32(F_0_2)),
            Input::Const(Bits32(F_0_6)),
            Input::Const(Bits32(F_0_2)),
        ])
    };
    assert(osc == g1.next_id);
    let io = g1.nodes.len() as int;
    // the first freq TRK node of g1 is that of g (an ENV is not a TRK node)
    assert(position(g1.nodes, is_trk_of(track, 0)) == position(g.nodes, is_trk_of(track, 0))) by {
        if let Some(t) = position(g.nodes, is_trk_of(track, 0)) {
            assert(first_pos(g1.nodes, is_trk_of(track, 0), t)) by {
                assert forall|q: int| 0 <= q < t implies !is_trk_of(track, 0)(#[trigger] g1.nodes[q]) by {
                    assert(g1.nodes[q] == g.nodes[q]);
                }
                assert(g1.nodes[t] == g.nodes[t]);
            }
        } else {
            assert forall|q: int| 0 <= q < g1.nodes.len() implies !is_trk_of(track, 0)(#[trigger] g1.nodes[q]) by {
                if q < g.nodes.len() {
                    assert(g1.nodes[q] == g.nodes[q]);
                }
            }
        }
    }
    let f = link_or_zero(id_at(g1.nodes, is_trk_of(track, 0)));
    assert(g2 == added(g1, Kind::Osc, 1, seq![f]));
    assert(g2.nodes[io].inputs[0] == f);
    assert(g2.nodes[io].id == osc && g2.nodes[io].kind == Kind::Osc);
    assert(find(g2.nodes, osc) == Some(io)) by {
        assert(ids_ok(g1)) by {
            if selk != Some(Kind::Env) {
                lemma_add_keeps_ids(g, Kind::Env, 0, seq![
                    link_or_zero(id_at(g.nodes, is_trk_of(track, 1))),
                    Input::Const(Bits32(F_0_01)),
                    Input::Const(Bits32(F_0_2)),
                    Input::Const(Bits32(F_0_6)),
                    Input::Const(Bits32(F_0_2)),
                ]);
            }
        }
        assert forall|q: int| 0 <= q < io implies !id_is(osc)(#[trigger] g2.nodes[q]) by {
            assert(g2.nodes[q] == g1.nodes[q]);
            assert(g1.nodes[q].id < g1.next_id);
        }
        assert(first_pos(g2.nodes, id_is(osc), io));
    }
    let g3 = GraphView { nodes: set_input(g2.nodes, io, 2, Input::Link(env)), ..g2 };
    assert(g3.nodes[io].inputs[0] == f);
    let g4 = added(g3, Kind::Math, 2, seq![Input::Link(osc), link_or_zero(id_at(g3.nodes, is_trk_of(track, 2)))]);
    let g5 = voice_chain(g, sel, track);
    assert(g5 == added(g4, Kind::Math, 2, seq![Input::Link(g3.next_id), Input::Const(Bits32(F_0_3))]));
    assert(g5.nodes[io] == g3.nodes[io]);
    assert(ids_ok(g5)) by {
        assert(ids_ok(g1)) by {
            if selk != Some(Kind::Env) {
                lemma_add_keeps_ids(g, Kind::Env, 0, seq![
                    link_or_zero(id_at(g.nodes, is_trk_of(track, 1))),
                    Input::Const(Bits32(F_0_01)),
                    Input::Const(Bits32(F_0_2)),
                    Input::Const(Bits32(F_0_6)),
                    Input::Const(Bits32(F_0_2)),
                ]);
            }
        }
        lemma_add_keeps_ids(g1, Kind::Osc, 1, seq![f]);
        assert(ids_ok(g3)) by {
            assert forall|q: int| 0 <= q < g3.nodes.len() implies #[trigger] g3.nodes[q].id == g2.nodes[q].id by {}
        }
        lemma_add_keeps_ids(g3, Kind::Math, 2, seq![Input::Link(osc), link_or_zero(id_at(g3.nodes, is_trk_of(track, 2)))]);
        lemma_add_keeps_ids(g4, Kind::Math, 2, seq![Input::Link(g3.next_id), Input::Const(Bits32(F_0_3))]);
    }
    let gf = to_out_spec(g5, (g5.next_id - 1) as u32).0;
    // OUT is not the oscillator, so mixing into OUT leaves the oscillator as it is
    match id_at(g5.nodes, is_out()) {
        None => {},
        Some(out) => {
            let po = position(g5.nodes, is_out())->0;
            assert(g5.nodes[po].id == out);
            let j = find(g5.nodes, out)->0;
            assert(g5.nodes[j].id == out);
            assert(j != io) by {
                if j == io {
                    assert(g5.nodes[po].kind == Kind::Out);
                    assert(po != io);
                }
            }
            assert(gf.nodes[io] == g5.nodes[io]);
        },
    }
    assert(0 <= io < gf.nodes.len() && gf.nodes[io].id == osc && gf.nodes[io].kind == Kind::Osc && gf.nodes[io].inputs[0] == f);
}

/// An envelope inserted after an oscillator whose amp input is a constant takes over exactly
/// that input: the oscillator's `amp` (input 2) now reads the new ENV, and its other inputs
/// stay as they were.
pub proof fn lemma_env_goes_on_amp(g: GraphView, a: u32, track: u32)
    requires
        insert_after(g.nodes, Some(a)) == Some(a),
        find(g.nodes, a) matches Some(j) && g.nodes[j].kind == Kind::Osc && g.nodes[j].inputs.len() == 3
            && g.nodes[j].inputs[2] is Const,
    ensures
        ({
            let j = find(g.nodes, a)->0;
            let g2 = insert_spec(g, Kind::Env, Some(a), track);
            &&& param_names(Kind::Osc)[2] == "amp"@
            &&& g2.nodes[j].kind == Kind::Osc
            &&& g2.nodes[j].inputs == g.nodes[j].inputs.update(2, Input::Link(g.next_id))
        }),
{
    broadcast use lemma_position;

    let j = find(g.nodes, a)->0;
    assert(0 <= j < g.nodes.len());
}

/// Removing a node rewires what read it to its primary input, the first of its inputs that is a
/// link: every input of another node that read the removed one now reads that input.
pub proof fn lemma_remove_rewires_to_first_link(g: GraphView, id: u32, k: int)
    requires
        find(g.nodes, id) matches Some(i) && g.nodes[i].kind != Kind::Out
            && 0 <= k < g.nodes[i].inputs.len() && g.nodes[i].inputs[k] is Link
            && forall|m: int| 0 <= m < k ==> !(g.nodes[i].inputs[m] is Link),
    ensures
        ({
            let i = find(g.nodes, id)->0;
            let g2 = remove_spec(g, id);
            &&& g2.nodes.len() == g.nodes.len() - 1
            &&& forall|p: int, q: int| #![trigger g2.nodes[p].inputs[q]]
                0 <= p < g2.nodes.len() && 0 <= q < g.nodes[if p < i { p } else { p + 1 }].inputs.len()
                && g.nodes[if p < i { p } else { p + 1 }].inputs[q] == Input::Link(id)
                ==> g2.nodes[p].inputs[q] == g.nodes[i].inputs[k]
        }),
{
    broadcast use lemma_position;

    let i = find(g.nodes, id)->0;
    let ins = g.nodes[i].inputs;
    assert(0 <= i < g.nodes.len());
    assert(first_link(ins) == Some(ins[k])) by {
        let c = choose|c: int| 0 <= c < ins.len() && ins[c] is Link && forall|m: int| 0 <= m < c ==> !(ins[m] is Link);
        if c < k {
            assert(!(ins[c] is Link));
        } else if k < c {
            assert(!(ins[k] is Link));
        }
    }
}


/// The first TRK node of `track` with variant `var` as an input (a constant 0 when there is none).
pub open spec fn trk_input(ns: Seq<NodeView>, track: u32, var: usize) -> Input {
    match position(ns, is_trk_of(track, var)) {
        Some(t) => Input::Link(ns[t].id),
        None => Input::Const(Bits32(F_0)),
    }
}

/// The whole voice recipe, built from nothing selected (or a selection that is neither an OSC
/// nor an ENV): it appends an ENV on the track's gate, a saw OSC on the track's freq with that
/// ENV on its amp, a MATH * of the OSC and the track's vel (the node `voice` returns), and a
/// MATH * of that and 0.3; and they stay so once the last one is mixed into OUT.
pub proof fn lemma_voice_recipe(g: GraphView, sel: Option<u32>, track: u32)
    requires
        ids_ok(g),
        voice_ok(g, sel, track),
        kind_of(g.nodes, sel) != Some(Kind::Osc),
        kind_of(g.nodes, sel) != Some(Kind::Env),
    ensures
        ({
            let g5 = voice_chain(g, sel, track);
            let gf = to_out_spec(g5, (g5.next_id - 1) as u32).0;
            let n = g.nodes.len() as int;
            let id = g.next_id;
            &&& variant_names(Kind::Trk)[1] == "gate"@ && variant_names(Kind::Trk)[0] == "freq"@ && variant_names(Kind::Trk)[2] == "vel"@
            &&& param_names(Kind::Osc)[2] == "amp"@ && variant_names(Kind::Osc)[1] == "saw"@ && variant_names(Kind::Math)[2] == "*"@
            &&& voice_parts(g, sel, track).0.next_id == id + 2
            &&& gf.nodes.len() >= n + 4
            &&& gf.nodes[n].id == id && gf.nodes[n].kind == Kind::Env && gf.nodes[n].inputs[0] == trk_input(g.nodes, track, 1)
            &&& gf.nodes[n + 1].id == id + 1 && gf.nodes[n + 1].kind == Kind::Osc && gf.nodes[n + 1].var == 1
            &&& gf.nodes[n + 1].inputs[0] == trk_input(g.nodes, track, 0)
            &&& gf.nodes[n + 1].inputs[2] == Input::Link(id)
            &&& gf.nodes[n + 2].id == id + 2 && gf.nodes[n + 2].kind == Kind::Math && gf.nodes[n + 2].var == 2
            &&& gf.nodes[n + 2].inputs == seq![Input::Link((id + 1) as u32), trk_input(g.nodes, track, 2)]
            &&& gf.nodes[n + 3].id == id + 3 && gf.nodes[n + 3].kind == Kind::Math && gf.nodes[n + 3].var == 2
            &&& gf.nodes[n + 3].inputs == seq![Input::Link((id + 2) as u32), Input::Const(Bits32(F_0_3))]
        }),
{
    broadcast use lemma_position;

    let n = g.nodes.len() as int;
    let id = g.next_id;
    let e_in = seq![
        link_or_zero(id_at(g.nodes, is_trk_of(track, 1))),
        Input::Const(Bits32(F_0_01)),
        Input::Const(Bits32(F_0_2)),
        Input::Const(Bits32(F_0_6)),
        Input::Const(Bits32(F_0_2)),
    ];
    let g1 = added(g, Kind::Env, 0, e_in);
    assert(with_defaults(Kind::Env, e_in) =~= e_in);
    lemma_trk_lookup_stable(g.nodes, g1.nodes, track, 0);
    let f = link_or_zero(id_at(g1.nodes, is_trk_of(track, 0)));
    assert(f == trk_input(g.nodes, track, 0));
    let g2 = added(g1, Kind::Osc, 1, seq![f]);
    assert(voice_parts(g, sel, track) == (g2, id, (id + 1) as u32));
    lemma_add_keeps_ids(g, Kind::Env, 0, e_in);
    lemma_add_keeps_ids(g1, Kind::Osc, 1, seq![f]);
    let io = n + 1;
    assert(find(g2.nodes, (id + 1) as u32) == Some(io)) by {
        assert forall|q: int| 0 <= q < io implies !id_is((id + 1) as u32)(#[trigger] g2.nodes[q]) by {
            assert(g2.nodes[q] == g1.nodes[q]);
            assert(g1.nodes[q].id < g1.next_id);
        }
        assert(first_pos(g2.nodes, id_is((id + 1) as u32), io));
    }
    let g3 = GraphView { nodes: set_input(g2.nodes, io, 2, Input::Link(id)), ..g2 };
    assert(position(g3.nodes, is_trk_of(track, 2)) == position(g.nodes, is_trk_of(track, 2))) by {
        lemma_trk_lookup_stable(g.nodes, g1.nodes, track, 2);
        lemma_trk_lookup_stable(g1.nodes, g2.nodes, track, 2);
        assert(position(g3.nodes, is_trk_of(track, 2)) == position(g2.nodes, is_trk_of(track, 2))) by {
            assert forall|q: int| 0 <= q < g3.nodes.len() implies #[trigger] is_trk_of(track, 2)(g3.nodes[q]) == is_trk_of(track, 2)(g2.nodes[q]) by {}
            if let Some(t) = position(g2.nodes, is_trk_of(track, 2)) {
                assert(first_pos(g3.nodes, is_trk_of(track, 2), t)) by {
                    assert forall|q: int| 0 <= q < t implies !is_trk_of(track, 2)(#[trigger] g3.nodes[q]) by {
                        assert(!is_trk_of(track, 2)(g2.nodes[q]));
                    }
                }
            } else {
                assert forall|q: int| 0 <= q < g3.nodes.len() implies !is_trk_of(track, 2)(#[trigger] g3.nodes[q]) by {
                    assert(!is_trk_of(track, 2)(g2.nodes[q]));
                }
            }
        }
    }
    let vl = link_or_zero(id_at(g3.nodes, is_trk_of(track, 2)));
    assert(vl == trk_input(g.nodes, track, 2));
    let g4 = added(g3, Kind::Math, 2, seq![Input::Link((id + 1) as u32), vl]);
    let g5 = voice_chain(g, sel, track);
    assert(g5 == added(g4, Kind::Math, 2, seq![Input::Link(g3.next_id), Input::Const(Bits32(F_0_3))]));
    assert(with_defaults(Kind::Math, seq![Input::Link((id + 1) as u32), vl]) =~= seq![Input::Link((id + 1) as u32), vl]);
    assert(with_defaults(Kind::Math, seq![Input::Link(g3.next_id), Input::Const(Bits32(F_0_3))])
        =~= seq![Input::Link(g3.next_id), Input::Const(Bits32(F_0_3))]);
    assert(with_defaults(Kind::Osc, seq![f]) =~= seq![f, Input::Const(Bits32(F_0_5)), Input::Const(Bits32(F_1))]);
    assert(g3.nodes[io].inputs =~= seq![f, Input::Const(Bits32(F_0_5)), Input::Link(id)]);
    assert(ids_ok(g3)) by {
        assert forall|q: int| 0 <= q < g3.nodes.len() implies #[trigger] g3.nodes[q].id == g2.nodes[q].id by {}
    }
    lemma_add_keeps_ids(g3, Kind::Math, 2, seq![Input::Link((id + 1) as u32), vl]);
    lemma_add_keeps_ids(g4, Kind::Math, 2, seq![Input::Link(g3.next_id), Input::Const(Bits32(F_0_3))]);
    let gf = to_out_spec(g5, (g5.next_id - 1) as u32).0;
    match id_at(g5.nodes, is_out()) {
        None => {},
        Some(out) => {
            let po = position(g5.nodes, is_out())->0;
            let j = find(g5.nodes, out)->0;
            assert(g5.nodes[j].id == out && g5.nodes[po].id == out);
            assert(po < n) by {
                if po >= n {
                    assert(g5.nodes[po].kind != Kind::Out);
                }
            }
            assert(j == po);
            assert forall|q: int| n <= q < n + 4 implies gf.nodes[q] == g5.nodes[q] by {}
        },
    }
}


/// A TRK lookup finds the same node once nodes of other kinds are appended.
proof fn lemma_trk_lookup_stable(xs: Seq<NodeView>, ys: Seq<NodeView>, track: u32, v: usize)
    requires
        xs.len() <= ys.len(),
        forall|q: int| 0 <= q < xs.len() ==> #[trigger] ys[q] == xs[q],
        forall|q: int| xs.len() <= q < ys.len() ==> (#[trigger] ys[q]).kind != Kind::Trk,
    ensures
        position(ys, is_trk_of(track, v)) == position(xs, is_trk_of(track, v)),
{
    broadcast use lemma_position;

    if let Some(t) = position(xs, is_trk_of(track, v)) {
        assert(first_pos(ys, is_trk_of(track, v), t)) by {
            assert forall|q: int| 0 <= q < t implies !is_trk_of(track, v)(#[trigger] ys[q]) by {
                assert(ys[q] == xs[q]);
            }
            assert(ys[t] == xs[t]);
        }
    } else {
        assert forall|q: int| 0 <= q < ys.len() implies !is_trk_of(track, v)(#[trigger] ys[q]) by {
            if q < xs.len() {
                assert(ys[q] == xs[q]);
            }
        }
    }
}


/// Sending a node to an OUT that plays nothing (a constant input) or already plays that node
/// connects it directly: OUT's input reads the node and nothing is added.
pub proof fn lemma_to_out_direct(g: GraphView, id: u32)
    requires
        id_at(g.nodes, is_out()) is Some,
        id != id_at(g.nodes, is_out())->0,
        find(g.nodes, id_at(g.nodes, is_out())->0) is Some,
        g.nodes[find(g.nodes, id_at(g.nodes, is_out())->0)->0].inputs.len() > 0,
        g.nodes[find(g.nodes, id_at(g.nodes, is_out())->0)->0].inputs[0] is Const
            || g.nodes[find(g.nodes, id_at(g.nodes, is_out())->0)->0].inputs[0] == Input::Link(id),
    ensures
        ({
            let out = id_at(g.nodes, is_out())->0;
            let j = find(g.nodes, out)->0;
            let (g2, r) = to_out_spec(g, id);
            &&& r == Some(out)
            &&& g2.next_id == g.next_id
            &&& g2.nodes == g.nodes.update(j, NodeView { inputs: g.nodes[j].inputs.update(0, Input::Link(id)), ..g.nodes[j] })
        }),
{
    broadcast use lemma_position;

    let out = id_at(g.nodes, is_out())->0;
    let j = find(g.nodes, out)->0;
    assert(0 <= j < g.nodes.len());
    if g.nodes[j].inputs[0] == Input::Link(id) {
        assert(g.nodes[j].inputs.update(0, Input::Link(id)) =~= g.nodes[j].inputs);
        assert(g.nodes.update(j, NodeView { inputs: g.nodes[j].inputs.update(0, Input::Link(id)), ..g.nodes[j] }) =~= g.nodes);
    }
}

/// An envelope inserted after a noise source whose amp input is a constant takes over that
/// input: the noise's `amp` (input 0) now reads the new ENV.
pub proof fn lemma_env_goes_on_noise_amp(g: GraphView, a: u32, track: u32)
    requires
        insert_after(g.nodes, Some(a)) == Some(a),
        find(g.nodes, a) matches Some(j) && g.nodes[j].kind == Kind::Noise && g.nodes[j].inputs.len() == 1
            && g.nodes[j].inputs[0] is Const,
    ensures
        ({
            let j = find(g.nodes, a)->0;
            let g2 = insert_spec(g, Kind::Env, Some(a), track);
            &&& param_names(Kind::Noise)[0] == "amp"@
            &&& g2.nodes[j].kind == Kind::Noise
            &&& g2.nodes[j].inputs == seq![Input::Link(g.next_id)]
        }),
{
    broadcast use lemma_position;

    let j = find(g.nodes, a)->0;
    assert(0 <= j < g.nodes.len());
    let g2 = insert_spec(g, Kind::Env, Some(a), track);
    assert(g2.nodes[j].inputs =~= seq![Input::Link(g.next_id)]);
}

} // verus!