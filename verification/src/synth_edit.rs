//! The synth graph view's keyboard commands: moving between nodes on the drawn layout, the
//! modes for editing inputs, connecting, disconnecting and splicing, adding nodes from the
//! palette, deleting, marks and focus. Each key is one step from (editor, song) to the next
//! editor and song and to what is left for the program (number entry and knob turns work on
//! floating-point values, and undo and the command line belong to the window).
use vstd::prelude::*;
use crate::graph::{
    Graph, GraphView, Input, Kind, NodeView, find, id_at, is_out, arity, default_or_zero, insert_spec, insert_ok,
    insert_into_spec, remove_spec, to_out_spec, to_out_ok, consumers_of, ids_ok, lemma_position, first_pos, is_trk_of,
    set_input, default_values,
};
use crate::song::{Song, SongView, wired, wire};
use crate::flow::related_to;
use crate::layout::{placed_cols, rank};
use crate::editor::{nav_to, small_layout, nav, cycle, splice_choice, cut_choice, splice_targets, cut_targets, clamp};
use crate::arrange::EditAction;
use crate::text::push_char;
use crate::value::Bits32;

verus! {

broadcast use lemma_position;

/// What the keys in the synth view act on.
#[derive(Clone, Copy, Debug, PartialEq, Eq, Structural)]
pub enum SMode {
    /// moving between nodes
    Node,
    /// editing the inputs of the selected node
    Param,
    /// picking the node that input `k` of the selected node reads
    Connect(usize),
    /// picking the node that reads the selected node's output
    OutPick,
    /// picking which input of the picked node reads it
    OutInput,
    /// picking which connection of the selected node's output to cut
    Disconnect,
    /// picking which connections a new node takes over
    Splice,
    /// choosing a kind of node to add
    Palette,
}

/// The non-character keys the synth view uses.
#[derive(Clone, Copy, Debug, PartialEq, Eq, Structural)]
pub enum EditKey {
    Enter,
    Backspace,
    Delete,
    Left,
    Right,
    Up,
    Down,
}

pub struct SynthEditor {
    pub sel_node: Option<u32>,
    pub mode: SMode,
    pub param: usize,
    /// a number being typed for the current input
    pub num: String,
    pub pick: Option<u32>,
    pub marks: Vec<u32>,
    pub focus: bool,
    pub splice_kind: Kind,
    pub splice_choices: Vec<(u32, usize)>,
    pub splice_idx: usize,
}

pub struct SynthView {
    pub sel_node: Option<u32>,
    pub mode: SMode,
    pub param: usize,
    pub num: Seq<char>,
    pub pick: Option<u32>,
    pub marks: Seq<u32>,
    pub focus: bool,
    pub splice_kind: Kind,
    pub splice_choices: Seq<(u32, usize)>,
    pub splice_idx: usize,
}

impl View for SynthEditor {
    type V = SynthView;

    open spec fn view(&self) -> SynthView {
        SynthView {
            sel_node: self.sel_node,
            mode: self.mode,
            param: self.param,
            num: self.num@,
            pick: self.pick,
            marks: self.marks@,
            focus: self.focus,
            splice_kind: self.splice_kind,
            splice_choices: self.splice_choices@,
            splice_idx: self.splice_idx,
        }
    }
}

/// The graph suits the editor: ids fresh and unique, every node with exactly its kind's inputs,
/// room for new ids, and fewer than 2^30 nodes. The node bound is not a musical limit: it keeps
/// layout columns and rows inside the `i32`/`i64` arithmetic of moving between nodes (and the
/// track bound in `synth_ready` does the same for stepping a TRK node through the tracks).
pub open spec fn synth_ok(g: GraphView) -> bool {
    &&& ids_ok(g)
    &&& g.next_id + 8 < u32::MAX
    &&& g.nodes.len() < 0x4000_0000
    &&& forall|i: int| 0 <= i < g.nodes.len() ==> (#[trigger] g.nodes[i]).inputs.len() == arity(g.nodes[i].kind)
}

/// The editor can take a key: the graph suits it and `track` is a track of the song.
pub open spec fn synth_ready(s: SongView, track: int) -> bool {
    &&& synth_ok(s.graph)
    &&& 0 <= track < s.tracks.len() < 0x4000_0000
}

/// The node the view acts on: the selected one, else OUT (else id 0).
pub open spec fn sel_id(e: SynthView, ns: Seq<NodeView>) -> u32 {
    match e.sel_node {
        Some(x) => x,
        None => match id_at(ns, is_out()) {
            Some(o) => o,
            None => 0,
        },
    }
}

/// The node with id `id`, if any.
pub open spec fn node_of(ns: Seq<NodeView>, id: u32) -> Option<NodeView> {
    match find(ns, id) {
        Some(i) => Some(ns[i]),
        None => None,
    }
}

/// How many inputs the node with id `id` has (0 when there is none).
pub open spec fn inputs_of(ns: Seq<NodeView>, id: Option<u32>) -> int {
    match id {
        Some(x) => match node_of(ns, x) {
            Some(n) => n.inputs.len() as int,
            None => 0,
        },
        None => 0,
    }
}

/// Which nodes are drawn: in focus mode with marks, the marked nodes and what flows into and
/// out of them; else all.
pub open spec fn shown(ns: Seq<NodeView>, marks: Seq<u32>, focus: bool) -> Seq<bool> {
    if focus && marks.len() > 0 {
        Seq::new(ns.len(), |i: int| related_to(ns, marks, i))
    } else {
        Seq::new(ns.len(), |i: int| true)
    }
}

/// The drawn layout: (column, row) per node (see `Graph::layout_masked`).
pub open spec fn laid(ns: Seq<NodeView>, tids: Seq<u32>, keep: Seq<bool>) -> Seq<(usize, usize)> {
    let c = placed_cols(ns, keep);
    Seq::new(ns.len(), |i: int| (c[i], if keep[i] { rank(ns, tids, keep, c, i, ns.len() as int) as usize } else { usize::MAX }))
}

/// The node reached from `from` by a move of `dc` columns or `dr` rows on the drawn layout.
pub open spec fn nav_of(ns: Seq<NodeView>, tids: Seq<u32>, keep: Seq<bool>, from: u32, dc: int, dr: int) -> Option<u32> {
    let lay = laid(ns, tids, keep);
    match find(ns, from) {
        Some(i) => if small_layout(lay) {
            match nav_to(lay, i, dc, dr) {
                Some(j) => Some(ns[j].id),
                None => None,
            }
        } else {
            None
        },
        None => None,
    }
}

/// The editor after an arrow move: while picking, the pick moves; else the selection moves and
/// the input cursor goes back to the first input.
pub open spec fn moved_sel(e: SynthView, ns: Seq<NodeView>, tids: Seq<u32>, dc: int, dr: int) -> SynthView {
    let picking = e.mode is Connect || e.mode is OutPick;
    let cur = if picking { match e.pick { Some(p) => p, None => sel_id(e, ns) } } else { sel_id(e, ns) };
    match nav_of(ns, tids, shown(ns, e.marks, e.focus), cur, dc, dr) {
        Some(id) => if picking { SynthView { pick: Some(id), ..e } } else { SynthView { sel_node: Some(id), param: 0, ..e } },
        None => e,
    }
}

/// `g` with node `id`'s variant set to `v`.
pub open spec fn with_var(g: GraphView, id: u32, v: usize) -> GraphView {
    GraphView {
        nodes: match find(g.nodes, id) {
            Some(j) => g.nodes.update(j, NodeView { var: v, ..g.nodes[j] }),
            None => g.nodes,
        },
        ..g
    }
}

/// `g` with TRK node `id` fed by track `t`.
pub open spec fn with_track(g: GraphView, id: u32, t: u32) -> GraphView {
    GraphView {
        nodes: match find(g.nodes, id) {
            Some(j) => g.nodes.update(j, NodeView { track: t, ..g.nodes[j] }),
            None => g.nodes,
        },
        ..g
    }
}

/// The selected node's variant cycled by `d` (nothing for kinds without variants).
pub open spec fn cycled_var(e: SynthView, g: GraphView, d: int) -> (GraphView, EditAction) {
    let id = sel_id(e, g.nodes);
    match node_of(g.nodes, id) {
        Some(n) => {
            let nv = crate::graph::variant_names(n.kind).len();
            if nv == 0 { (g, EditAction::Nothing) } else { (with_var(g, id, ((n.var + d) % (nv as int)) as usize), EditAction::Changed) }
        },
        None => (g, EditAction::Nothing),
    }
}

/// The first position among the first `n` of `ids` that holds `t`, if any.
pub open spec fn index_in(ids: Seq<u32>, t: u32, n: int) -> Option<int>
    decreases n,
{
    if n <= 0 {
        None
    } else {
        match index_in(ids, t, n - 1) {
            Some(j) => Some(j),
            None => if ids[n - 1] == t { Some(n - 1) } else { None },
        }
    }
}

/// The first position of `t` in `ids`, or 0.
pub open spec fn first_index(ids: Seq<u32>, t: u32) -> int {
    match index_in(ids, t, ids.len() as int) {
        Some(j) => j,
        None => 0,
    }
}

/// A knob turn (`h`/`l`, `H`/`L`, arrows) on the selected node's current input: a TRK node steps
/// to the next or previous track; a constant input is left to the program (its value is a
/// float); a linked input is refused.
pub open spec fn adjusted(e: SynthView, s: SongView, up: bool, fine: bool) -> (GraphView, EditAction) {
    let g = s.graph;
    let id = sel_id(e, g.nodes);
    let ids = s.tracks.map_values(|t: crate::song::TrackView| t.id);
    let d: int = if up { 1 } else { -1 };
    match node_of(g.nodes, id) {
        Some(n) => if n.kind == Kind::Trk {
            (with_track(g, id, ids[(first_index(ids, n.track) + d) % (ids.len() as int)]), EditAction::Changed)
        } else if e.param < n.inputs.len() && n.inputs[e.param as int] is Const {
            (g, EditAction::Adjust(up, fine))
        } else {
            (g, EditAction::Refused)
        },
        None => (g, EditAction::Refused),
    }
}

/// The kind the palette key `c` adds (other than `v`, the voice recipe).
pub open spec fn palette_kind(c: char) -> Option<Kind> {
    if c == 't' { Some(Kind::Trk) } else if c == 'o' { Some(Kind::Osc) } else if c == 'n' { Some(Kind::Noise) }
    else if c == 'e' { Some(Kind::Env) } else if c == 'f' { Some(Kind::Filt) } else if c == 'd' { Some(Kind::Delay) }
    else if c == 'm' { Some(Kind::Math) } else if c == 's' { Some(Kind::Shape) } else if c == 'h' { Some(Kind::Sh) }
    else if c == 'b' { Some(Kind::Buf) } else if c == 'k' { Some(Kind::Key) } else { None }
}

/// A new node from the palette: added after the selection (spliced into it, or into the chosen
/// connections), selected, and marked in focus mode.
pub open spec fn added_node(e: SynthView, g: GraphView, kind: Kind, targets: Option<Seq<(u32, usize)>>, tid: u32) -> (SynthView, GraphView, EditAction) {
    let id = g.next_id;
    let g2 = match (e.sel_node, targets) {
        (Some(a), Some(t)) => insert_into_spec(g, kind, a, t, tid),
        _ => insert_spec(g, kind, e.sel_node, tid),
    };
    (SynthView { sel_node: Some(id), marks: if e.focus { e.marks.push(id) } else { e.marks }, mode: SMode::Node, ..e }, g2, EditAction::Changed)
}

/// Confirming the splice prompt: the new node takes over the chosen connections.
pub open spec fn spliced(e: SynthView, g: GraphView, tid: u32) -> (SynthView, GraphView, EditAction) {
    added_node(SynthView { mode: SMode::Node, ..e }, g, e.splice_kind, Some(splice_choice(e.splice_choices, e.splice_idx as int)), tid)
}

/// Confirming the output prompt: input `splice_idx` of the picked node reads the selected node.
pub open spec fn outed(e: SynthView, g: GraphView) -> (SynthView, GraphView, EditAction) {
    match e.pick {
        Some(t) => (SynthView { mode: SMode::Node, ..e }, wired(g, t, e.splice_idx, Input::Link(sel_id(e, g.nodes))), EditAction::Changed),
        None => (e, g, EditAction::Nothing),
    }
}

/// Cutting the chosen connections (all of them past the last row).
pub open spec fn cut_all(g: GraphView, ts: Seq<(u32, usize)>) -> GraphView
    decreases ts.len(),
{
    if ts.len() == 0 {
        g
    } else {
        let h = cut_all(g, ts.drop_last());
        let (t, k) = ts.last();
        match find(h.nodes, t) {
            Some(i) => if k < h.nodes[i].inputs.len() {
                GraphView { nodes: set_input(h.nodes, i, k as int, Input::Const(default_values(h.nodes[i].kind)[k as int])), ..h }
            } else {
                h
            },
            None => h,
        }
    }
}

/// Confirming the disconnect prompt.
pub open spec fn cut(e: SynthView, g: GraphView) -> (SynthView, GraphView, EditAction) {
    (SynthView { mode: SMode::Node, ..e }, cut_all(g, cut_choice(e.splice_choices, e.splice_idx as int)), EditAction::Changed)
}

/// One key `k` in the synth view.
pub open spec fn synth_key_step(e: SynthView, s: SongView, track: int, k: EditKey) -> (SynthView, GraphView, EditAction) {
    let g = s.graph;
    let ns = g.nodes;
    let tids = s.tracks.map_values(|t: crate::song::TrackView| t.id);
    let tid = s.tracks[track].id;
    let arrow = k == EditKey::Left || k == EditKey::Right || k == EditKey::Up || k == EditKey::Down;
    let dc: int = if k == EditKey::Left { -1 } else if k == EditKey::Right { 1 } else { 0 };
    let dr: int = if k == EditKey::Up { -1 } else if k == EditKey::Down { 1 } else { 0 };
    let pin = inputs_of(ns, e.pick);
    match e.mode {
        SMode::Palette => (e, g, EditAction::Nothing),
        SMode::OutPick => if k == EditKey::Enter {
            if e.pick == Some(sel_id(e, ns)) || pin == 0 {
                (e, g, EditAction::Refused)
            } else if pin == 1 {
                outed(SynthView { mode: SMode::OutInput, splice_idx: 0, ..e }, g)
            } else {
                (SynthView { mode: SMode::OutInput, splice_idx: 0, ..e }, g, EditAction::Nothing)
            }
        } else if arrow {
            (moved_sel(e, ns, tids, dc, dr), g, EditAction::Nothing)
        } else {
            (e, g, EditAction::Nothing)
        },
        SMode::OutInput => if k == EditKey::Enter {
            outed(e, g)
        } else if k == EditKey::Down {
            (SynthView { splice_idx: clamp(e.splice_idx + 1, 0, if pin > 0 { pin - 1 } else { 0 }) as usize, ..e }, g, EditAction::Nothing)
        } else if k == EditKey::Up {
            (SynthView { splice_idx: if e.splice_idx > 0 { (e.splice_idx - 1) as usize } else { 0 }, ..e }, g, EditAction::Nothing)
        } else {
            (e, g, EditAction::Nothing)
        },
        SMode::Disconnect => if k == EditKey::Enter {
            cut(e, g)
        } else if k == EditKey::Down {
            (SynthView { splice_idx: clamp(e.splice_idx + 1, 0, e.splice_choices.len() as int) as usize, ..e }, g, EditAction::Nothing)
        } else if k == EditKey::Up {
            (SynthView { splice_idx: if e.splice_idx > 0 { (e.splice_idx - 1) as usize } else { 0 }, ..e }, g, EditAction::Nothing)
        } else {
            (e, g, EditAction::Nothing)
        },
        SMode::Splice => if k == EditKey::Enter {
            spliced(e, g, tid)
        } else if k == EditKey::Down {
            (SynthView { splice_idx: clamp(e.splice_idx + 1, 0, e.splice_choices.len() as int + 1) as usize, ..e }, g, EditAction::Nothing)
        } else if k == EditKey::Up {
            (SynthView { splice_idx: if e.splice_idx > 0 { (e.splice_idx - 1) as usize } else { 0 }, ..e }, g, EditAction::Nothing)
        } else {
            (e, g, EditAction::Nothing)
        },
        SMode::Connect(pi) => if k == EditKey::Enter {
            match e.pick {
                Some(p) => if p != sel_id(e, ns) {
                    (SynthView { mode: SMode::Param, param: pi, ..e }, wired(g, sel_id(e, ns), pi, Input::Link(p)), EditAction::Changed)
                } else {
                    (SynthView { mode: SMode::Param, ..e }, g, EditAction::Nothing)
                },
                None => (SynthView { mode: SMode::Param, ..e }, g, EditAction::Nothing),
            }
        } else if arrow {
            (moved_sel(e, ns, tids, dc, dr), g, EditAction::Nothing)
        } else {
            (e, g, EditAction::Nothing)
        },
        SMode::Param => {
            let n = inputs_of(ns, Some(sel_id(e, ns)));
            if k == EditKey::Enter {
                if e.num.len() == 0 { (SynthView { mode: SMode::Node, ..e }, g, EditAction::Nothing) } else { (e, g, EditAction::CommitNumber) }
            } else if k == EditKey::Backspace {
                (SynthView { num: if e.num.len() > 0 { e.num.drop_last() } else { e.num }, ..e }, g, EditAction::Nothing)
            } else if k == EditKey::Up {
                (SynthView { param: if e.param > 0 { (e.param - 1) as usize } else { 0 }, ..e }, g, EditAction::Nothing)
            } else if k == EditKey::Down {
                (SynthView { param: clamp(e.param + 1, 0, if n > 0 { n - 1 } else { 0 }) as usize, ..e }, g, EditAction::Nothing)
            } else if k == EditKey::Left || k == EditKey::Right {
                let (g2, act) = adjusted(e, s, k == EditKey::Right, false);
                (e, g2, act)
            } else {
                (e, g, EditAction::Nothing)
            }
        },
        SMode::Node => if k == EditKey::Enter {
            if inputs_of(ns, Some(sel_id(e, ns))) > 0 { (SynthView { mode: SMode::Param, param: 0, ..e }, g, EditAction::Nothing) } else { (e, g, EditAction::Nothing) }
        } else if arrow {
            (moved_sel(e, ns, tids, dc, dr), g, EditAction::Nothing)
        } else if k == EditKey::Delete || k == EditKey::Backspace {
            deleted(e, g, tids)
        } else {
            (e, g, EditAction::Nothing)
        },
    }
}

/// Deleting the selected node (never OUT): its consumers are rewired (see `Graph::remove`) and
/// the selection moves to the node right of it, else left of it.
pub open spec fn deleted(e: SynthView, g: GraphView, tids: Seq<u32>) -> (SynthView, GraphView, EditAction) {
    let ns = g.nodes;
    let id = sel_id(e, ns);
    match node_of(ns, id) {
        Some(n) => if n.kind == Kind::Out {
            (e, g, EditAction::Refused)
        } else {
            let keep = shown(ns, e.marks, e.focus);
            let next = match nav_of(ns, tids, keep, id, 1, 0) {
                Some(x) => Some(x),
                None => nav_of(ns, tids, keep, id, -1, 0),
            };
            (SynthView { sel_node: next, ..e }, remove_spec(g, id), EditAction::Changed)
        },
        None => (SynthView { sel_node: None, ..e }, remove_spec(g, id), EditAction::Changed),
    }
}


/// The move that `h`, `l`, `k`, `j` make (columns, rows).
pub open spec fn hjkl(c: char) -> (int, int) {
    if c == 'h' { (-1, 0) } else if c == 'l' { (1, 0) } else if c == 'k' { (0, -1) } else { (0, 1) }
}

pub open spec fn is_hjkl(c: char) -> bool {
    c == 'h' || c == 'l' || c == 'k' || c == 'j'
}

/// A character that can be part of a typed number or note name.
pub open spec fn number_char(c: char) -> bool {
    ('0' <= c <= '9') || c == '.' || c == '-' || ('A' <= c <= 'G') || c == '#'
}

/// The voice recipe for the current track, built around the selection (see `Graph::voice`).
pub open spec fn voiced(e: SynthView, g: GraphView, tid: u32) -> (SynthView, GraphView, EditAction) {
    let vca = crate::graph::voice_parts(g, e.sel_node, tid).0.next_id;
    let g5 = crate::graph::voice_chain(g, e.sel_node, tid);
    (SynthView { mode: SMode::Node, sel_node: Some(vca), marks: if e.focus { e.marks.push(vca) } else { e.marks }, ..e },
        to_out_spec(g5, (g5.next_id - 1) as u32).0, EditAction::Changed)
}

/// One character `c` in the synth view.
pub open spec fn synth_char_step(e: SynthView, s: SongView, track: int, c: char) -> (SynthView, GraphView, EditAction) {
    let g = s.graph;
    let ns = g.nodes;
    let tids = s.tracks.map_values(|t: crate::song::TrackView| t.id);
    let tid = s.tracks[track].id;
    let id = sel_id(e, ns);
    let pin = inputs_of(ns, e.pick);
    let (dc, dr) = hjkl(c);
    match e.mode {
        SMode::Palette => if c == 'v' {
            voiced(e, g, tid)
        } else {
            match palette_kind(c) {
                Some(kind) => {
                    let cons = match e.sel_node { Some(a) => consumers_of(ns, a, ns.len() as int), None => seq![] };
                    if kind.is_chainable() && cons.len() > 1 {
                        (SynthView { mode: SMode::Splice, splice_kind: kind, splice_choices: cons, splice_idx: 1, ..e }, g, EditAction::Nothing)
                    } else {
                        added_node(SynthView { mode: SMode::Node, ..e }, g, kind, None, tid)
                    }
                },
                None => (SynthView { mode: SMode::Node, ..e }, g, EditAction::Nothing),
            }
        },
        SMode::OutPick | SMode::Connect(_) => if is_hjkl(c) {
            (moved_sel(e, ns, tids, dc, dr), g, EditAction::Nothing)
        } else {
            (e, g, EditAction::Nothing)
        },
        SMode::OutInput => if c == 'j' {
            (SynthView { splice_idx: clamp(e.splice_idx + 1, 0, if pin > 0 { pin - 1 } else { 0 }) as usize, ..e }, g, EditAction::Nothing)
        } else if c == 'k' {
            (SynthView { splice_idx: if e.splice_idx > 0 { (e.splice_idx - 1) as usize } else { 0 }, ..e }, g, EditAction::Nothing)
        } else if '1' <= c <= '9' && (c as int - '1' as int) < pin {
            outed(SynthView { splice_idx: (c as int - '1' as int) as usize, ..e }, g)
        } else {
            (e, g, EditAction::Nothing)
        },
        SMode::Disconnect => if c == 'j' {
            (SynthView { splice_idx: clamp(e.splice_idx + 1, 0, e.splice_choices.len() as int) as usize, ..e }, g, EditAction::Nothing)
        } else if c == 'k' {
            (SynthView { splice_idx: if e.splice_idx > 0 { (e.splice_idx - 1) as usize } else { 0 }, ..e }, g, EditAction::Nothing)
        } else if '1' <= c <= '9' && (c as int - '1' as int) <= e.splice_choices.len() {
            cut(SynthView { splice_idx: (c as int - '1' as int) as usize, ..e }, g)
        } else {
            (e, g, EditAction::Nothing)
        },
        SMode::Splice => if c == 'j' {
            (SynthView { splice_idx: clamp(e.splice_idx + 1, 0, e.splice_choices.len() as int + 1) as usize, ..e }, g, EditAction::Nothing)
        } else if c == 'k' {
            (SynthView { splice_idx: if e.splice_idx > 0 { (e.splice_idx - 1) as usize } else { 0 }, ..e }, g, EditAction::Nothing)
        } else if '1' <= c <= '9' && (c as int - '0' as int) <= e.splice_choices.len() + 1 {
            spliced(SynthView { splice_idx: (c as int - '0' as int) as usize, ..e }, g, tid)
        } else {
            (e, g, EditAction::Nothing)
        },
        SMode::Param => {
            let n = inputs_of(ns, Some(id));
            if number_char(c) {
                (SynthView { num: e.num.push(c), ..e }, g, EditAction::Nothing)
            } else if c == 'j' {
                (SynthView { param: clamp(e.param + 1, 0, if n > 0 { n - 1 } else { 0 }) as usize, ..e }, g, EditAction::Nothing)
            } else if c == 'k' {
                (SynthView { param: if e.param > 0 { (e.param - 1) as usize } else { 0 }, ..e }, g, EditAction::Nothing)
            } else if c == 'h' || c == 'l' || c == 'H' || c == 'L' {
                let (g2, act) = adjusted(e, s, c == 'l' || c == 'L', c == 'H' || c == 'L');
                (e, g2, act)
            } else if c == 'x' {
                match node_of(ns, id) {
                    Some(nd) => (e, wired(g, id, e.param, default_or_zero(nd.kind, e.param as int)), EditAction::Changed),
                    None => (e, g, EditAction::Changed),
                }
            } else if c == 'i' {
                (SynthView { mode: SMode::Connect(e.param), pick: Some(id), ..e }, g, EditAction::Nothing)
            } else if c == 'c' {
                (SynthView { mode: SMode::OutPick, pick: Some(id), ..e }, g, EditAction::Nothing)
            } else if c == 'w' || c == 'W' {
                let (g2, act) = cycled_var(e, g, if c == 'w' { 1 } else { -1 });
                (e, g2, act)
            } else {
                (e, g, EditAction::Nothing)
            }
        },
        SMode::Node => if is_hjkl(c) {
            (moved_sel(e, ns, tids, dc, dr), g, EditAction::Nothing)
        } else if c == 'a' {
            (SynthView { mode: SMode::Palette, ..e }, g, EditAction::Nothing)
        } else if c == 'x' {
            deleted(e, g, tids)
        } else if c == 'w' || c == 'W' {
            let (g2, act) = cycled_var(e, g, if c == 'w' { 1 } else { -1 });
            (e, g2, act)
        } else if c == 'v' {
            (SynthView { marks: match index_in(e.marks, id, e.marks.len() as int) { Some(j) => e.marks.remove(j), None => e.marks.push(id) }, ..e },
                g, EditAction::Nothing)
        } else if c == 'f' {
            if e.marks.len() == 0 { (e, g, EditAction::Refused) } else { (SynthView { focus: !e.focus, ..e }, g, EditAction::Nothing) }
        } else if c == 'F' {
            (SynthView { marks: seq![], focus: false, ..e }, g, EditAction::Nothing)
        } else if c == 'c' {
            (SynthView { mode: SMode::OutPick, pick: Some(id), ..e }, g, EditAction::Nothing)
        } else if c == 'i' {
            if inputs_of(ns, Some(id)) > 0 {
                (SynthView { mode: SMode::Connect(0), param: 0, pick: Some(id), ..e }, g, EditAction::Nothing)
            } else {
                (e, g, EditAction::Nothing)
            }
        } else if c == 'd' {
            let cons = consumers_of(ns, id, ns.len() as int);
            if cons.len() == 0 {
                (e, g, EditAction::Refused)
            } else {
                (SynthView { splice_choices: cons, splice_idx: 0, mode: SMode::Disconnect, ..e }, g, EditAction::Nothing)
            }
        } else if c == 'o' {
            let (g2, r) = to_out_spec(g, id);
            match r {
                Some(m) => (SynthView {
                    marks: if e.focus && Some(m) != id_at(ns, is_out()) { e.marks.push(m) } else { e.marks },
                    ..e
                }, g2, EditAction::Changed),
                None => (e, g, EditAction::Refused),
            }
        } else if c == '[' || c == ']' {
            (e, g, EditAction::Track(clamp(track + if c == '[' { -1int } else { 1int }, 0, s.tracks.len() - 1) as usize))
        } else if c == 'u' {
            (e, g, EditAction::Undo)
        } else if c == ':' {
            (e, g, EditAction::Command)
        } else {
            (e, g, EditAction::Nothing)
        },
    }
}


/// Every node of `ns` has exactly its kind's inputs.
pub open spec fn normalized(ns: Seq<NodeView>) -> bool {
    forall|i: int| 0 <= i < ns.len() ==> (#[trigger] ns[i]).inputs.len() == arity(ns[i].kind)
}

proof fn lemma_found_normalized(ns: Seq<NodeView>, id: u32)
    requires
        normalized(ns),
    ensures
        find(ns, id) matches Some(i) ==> 0 <= i < ns.len() && ns[i].id == id && ns[i].inputs.len() == arity(ns[i].kind),
{
}

/// OUT is found by its id when ids are unique, and it has its one input.
proof fn lemma_out_found(g: GraphView)
    requires
        ids_ok(g),
        normalized(g.nodes),
    ensures
        id_at(g.nodes, is_out()) matches Some(out) ==> find(g.nodes, out) matches Some(j)
            && g.nodes[j].kind == Kind::Out && g.nodes[j].inputs.len() == 1,
{
    if let Some(out) = id_at(g.nodes, is_out()) {
        let p = crate::graph::position(g.nodes, is_out())->0;
        assert(first_pos(g.nodes, is_out(), p));
        assert(g.nodes[p].id == out);
        assert(exists|j: int| first_pos(g.nodes, crate::graph::id_is(out), j)) by {
            assert(crate::graph::id_is(out)(g.nodes[p]));
            if !(exists|j: int| first_pos(g.nodes, crate::graph::id_is(out), j)) {
                assert(crate::graph::position(g.nodes, crate::graph::id_is(out)) is None);
            }
        }
        let j = find(g.nodes, out)->0;
        assert(first_pos(g.nodes, crate::graph::id_is(out), j));
        assert(j == p);
    }
}

fn sel_id_exec(ed: &SynthEditor, g: &Graph) -> (r: u32)
    ensures
        r == sel_id(ed@, g@.nodes),
{
    match ed.sel_node {
        Some(x) => x,
        None => match g.out_id() {
            Some(o) => o,
            None => 0,
        },
    }
}

fn inputs_exec(g: &Graph, id: Option<u32>) -> (r: usize)
    ensures
        r == inputs_of(g@.nodes, id),
{
    match id {
        Some(x) => match g.get(x) {
            Some(n) => n.inputs.len(),
            None => 0,
        },
        None => 0,
    }
}

fn shown_exec(g: &Graph, marks: &Vec<u32>, focus: bool) -> (r: Vec<bool>)
    ensures
        r@ == shown(g@.nodes, marks@, focus),
{
    if focus && marks.len() > 0 {
        let r = g.related(marks.as_slice());
        assert(r@ =~= shown(g@.nodes, marks@, focus));
        r
    } else {
        let mut r: Vec<bool> = Vec::new();
        let mut i: usize = 0;
        while i < g.nodes.len()
            invariant
                i <= g@.nodes.len(),
                r@ =~= Seq::new(i as nat, |x: int| true),
            decreases g@.nodes.len() - i,
        {
            r.push(true);
            i += 1;
        }
        assert(r@ =~= shown(g@.nodes, marks@, focus));
        r
    }
}

/// The node reached from `from` on the drawn layout (see `nav_of`).
pub fn nav_exec(g: &Graph, tids: &Vec<u32>, keep: &Vec<bool>, from: u32, dc: i32, dr: i32) -> (r: Option<u32>)
    requires
        keep@.len() == g@.nodes.len(),
    ensures
        r == nav_of(g@.nodes, tids@, keep@, from, dc as int, dr as int),
{
    let ghost ns = g@.nodes;
    let lay = g.layout_masked(tids.as_slice(), keep.as_slice());
    assert(lay@ =~= laid(ns, tids@, keep@)) by {
        assert forall|i: int| 0 <= i < ns.len() implies lay@[i] == laid(ns, tids@, keep@)[i] by {
            assert(lay@.map_values(|p: (usize, usize)| p.0)[i] == lay@[i].0);
        }
    }
    let i = match g.idx(from) {
        Some(i) => i,
        None => return None,
    };
    let mut j: usize = 0;
    while j < lay.len()
        invariant
            j <= lay@.len(),
            lay@ == laid(ns, tids@, keep@),
            ns == g@.nodes,
            find(ns, from) == Some(i as int),
            forall|q: int| 0 <= q < j ==> (#[trigger] lay@[q]).1 < 0x4000_0000 && (crate::editor::placed(lay@[q]) ==> lay@[q].0 < 0x4000_0000),
        decreases lay@.len() - j,
    {
        let (c, r) = lay[j];
        if r >= 0x4000_0000 || (c != usize::MAX && c >= 0x4000_0000) {
            assert(!small_layout(lay@));
            return None;
        }
        j += 1;
    }
    match nav(&lay, i, dc, dr) {
        Some(k) => Some(g.nodes[k].id),
        None => None,
    }
}

fn move_sel_exec(ed: &mut SynthEditor, g: &Graph, tids: &Vec<u32>, dc: i32, dr: i32)
    ensures
        final(ed)@ == moved_sel(old(ed)@, g@.nodes, tids@, dc as int, dr as int),
{
    let picking = match ed.mode {
        SMode::Connect(_) | SMode::OutPick => true,
        _ => false,
    };
    let id = sel_id_exec(ed, g);
    let cur = if picking { match ed.pick { Some(p) => p, None => id } } else { id };
    let keep = shown_exec(g, &ed.marks, ed.focus);
    match nav_exec(g, tids, &keep, cur, dc, dr) {
        Some(x) => {
            if picking {
                ed.pick = Some(x);
            } else {
                ed.sel_node = Some(x);
                ed.param = 0;
            }
        },
        None => {},
    }
}

fn set_var(g: &mut Graph, id: u32, v: usize)
    ensures
        final(g)@ == with_var(old(g)@, id, v),
{
    let ghost g0 = g@;
    match g.get_mut(id) {
        Some(n) => {
            n.var = v;
        },
        None => {},
    }
    proof {
        if let Some(j) = find(g0.nodes, id) {
            assert(g@.nodes =~= g0.nodes.update(j, NodeView { var: v, ..g0.nodes[j] }));
        }
    }
}

fn set_track(g: &mut Graph, id: u32, t: u32)
    ensures
        final(g)@ == with_track(old(g)@, id, t),
{
    let ghost g0 = g@;
    match g.get_mut(id) {
        Some(n) => {
            n.track = t;
        },
        None => {},
    }
    proof {
        if let Some(j) = find(g0.nodes, id) {
            assert(g@.nodes =~= g0.nodes.update(j, NodeView { track: t, ..g0.nodes[j] }));
        }
    }
}

fn index_exec(ids: &Vec<u32>, t: u32) -> (r: Option<usize>)
    ensures
        r matches Some(j) ==> index_in(ids@, t, ids@.len() as int) == Some(j as int) && j < ids@.len(),
        r is None ==> index_in(ids@, t, ids@.len() as int) is None,
{
    let mut i: usize = 0;
    while i < ids.len()
        invariant
            i <= ids@.len(),
            index_in(ids@, t, i as int) is None,
        decreases ids@.len() - i,
    {
        if ids[i] == t {
            assert(index_in(ids@, t, i + 1) == Some(i as int));
            proof {
                lemma_index_stays(ids@, t, i as int + 1, ids@.len() as int);
            }
            return Some(i);
        }
        i += 1;
    }
    None
}

proof fn lemma_index_stays(ids: Seq<u32>, t: u32, m: int, n: int)
    requires
        m <= n,
        index_in(ids, t, m) is Some,
    ensures
        index_in(ids, t, n) == index_in(ids, t, m),
    decreases n - m,
{
    if m < n {
        lemma_index_stays(ids, t, m, n - 1);
    }
}

proof fn lemma_index_range(ids: Seq<u32>, t: u32, n: int)
    requires
        n <= ids.len(),
    ensures
        index_in(ids, t, n) matches Some(j) ==> 0 <= j < n,
    decreases n,
{
    if n > 0 {
        lemma_index_range(ids, t, n - 1);
    }
}

fn first_index_exec(ids: &Vec<u32>, t: u32) -> (r: usize)
    ensures
        r == first_index(ids@, t),
        ids@.len() > 0 ==> r < ids@.len(),
{
    match index_exec(ids, t) {
        Some(j) => j,
        None => 0,
    }
}


/// `s` without its last character.
fn without_last(s: &String) -> (r: String)
    ensures
        r@ == if s@.len() > 0 { s@.drop_last() } else { s@ },
{
    let t = s.as_str();
    let n = t.unicode_len();
    let mut r = String::new();
    if n == 0 {
        assert(r@ =~= s@);
        return r;
    }
    let mut i: usize = 0;
    while i < n - 1
        invariant
            n == t@.len(),
            t@ == s@,
            n > 0,
            i <= n - 1,
            r@ =~= s@.take(i as int),
        decreases n - 1 - i,
    {
        let c = t.get_char(i);
        push_char(&mut r, c);
        assert(s@.take(i + 1) =~= s@.take(i as int).push(c));
        i += 1;
    }
    assert(r@ =~= s@.drop_last());
    r
}

fn add_node_exec(ed: &mut SynthEditor, g: &mut Graph, kind: Kind, targets: Option<Vec<(u32, usize)>>, tid: u32) -> (act: EditAction)
    requires
        synth_ok(old(g)@),
    ensures
        (final(ed)@, final(g)@, act) == added_node(old(ed)@, old(g)@, kind, match targets { Some(t) => Some(t@), None => None }, tid),
{
    proof {
        if let Some(a) = ed.sel_node {
            lemma_found_normalized(g@.nodes, a);
        }
    }
    let id = match (ed.sel_node, &targets) {
        (Some(a), Some(t)) => g.insert_into(kind, a, t.as_slice(), tid),
        _ => g.insert(kind, ed.sel_node, tid),
    };
    if ed.focus {
        ed.marks.push(id);
    }
    ed.sel_node = Some(id);
    ed.mode = SMode::Node;
    EditAction::Changed
}

fn out_exec(ed: &mut SynthEditor, g: &mut Graph) -> (act: EditAction)
    ensures
        (final(ed)@, final(g)@, act) == outed(old(ed)@, old(g)@),
{
    match ed.pick {
        Some(t) => {
            let src = sel_id_exec(ed, g);
            wire(g, t, ed.splice_idx, Input::Link(src));
            ed.mode = SMode::Node;
            EditAction::Changed
        },
        None => EditAction::Nothing,
    }
}

fn cut_exec(ed: &mut SynthEditor, g: &mut Graph) -> (act: EditAction)
    requires
        normalized(old(g)@.nodes),
    ensures
        (final(ed)@, final(g)@, act) == cut(old(ed)@, old(g)@),
{
    let ghost g0 = g@;
    let ts = cut_targets(&ed.splice_choices, ed.splice_idx);
    let mut j: usize = 0;
    while j < ts.len()
        invariant
            j <= ts@.len(),
            g@ == cut_all(g0, ts@.take(j as int)),
            normalized(g@.nodes),
        decreases ts@.len() - j,
    {
        let (t, k) = ts[j];
        proof {
            lemma_found_normalized(g@.nodes, t);
        }
        let ghost before = g@;
        g.disconnect(t, k);
        assert(ts@.take(j + 1).drop_last() =~= ts@.take(j as int));
        assert(ts@.take(j + 1).last() == (t, k));
        assert(normalized(g@.nodes)) by {
            if let Some(i) = find(before.nodes, t) {
                if k < before.nodes[i].inputs.len() {
                    assert forall|x: int| 0 <= x < g@.nodes.len() implies (#[trigger] g@.nodes[x]).inputs.len() == arity(g@.nodes[x].kind) by {
                        assert(before.nodes[x].inputs.len() == arity(before.nodes[x].kind));
                    }
                }
            }
        }
        j += 1;
    }
    assert(ts@.take(ts@.len() as int) =~= ts@);
    ed.mode = SMode::Node;
    EditAction::Changed
}

fn deleted_exec(ed: &mut SynthEditor, g: &mut Graph, tids: &Vec<u32>) -> (act: EditAction)
    ensures
        (final(ed)@, final(g)@, act) == deleted(old(ed)@, old(g)@, tids@),
{
    let id = sel_id_exec(ed, g);
    let is_out = match g.get(id) {
        Some(n) => n.kind == Kind::Out,
        None => false,
    };
    if is_out {
        return EditAction::Refused;
    }
    let keep = shown_exec(g, &ed.marks, ed.focus);
    let next = match nav_exec(g, tids, &keep, id, 1, 0) {
        Some(x) => Some(x),
        None => nav_exec(g, tids, &keep, id, -1, 0),
    };
    g.remove(id);
    ed.sel_node = next;
    EditAction::Changed
}

fn adjust_exec(ed: &SynthEditor, song: &mut Song, up: bool, fine: bool) -> (act: EditAction)
    requires
        synth_ok(old(song)@.graph),
        0 < old(song)@.tracks.len() < 0x4000_0000,
    ensures
        final(song)@ == (SongView { graph: adjusted(ed@, old(song)@, up, fine).0, ..old(song)@ }),
        act == adjusted(ed@, old(song)@, up, fine).1,
{
    let ghost s0 = song@;
    let id = sel_id_exec(ed, &song.graph);
    let d: i32 = if up { 1 } else { -1 };
    let (is_trk, tr, konst) = match song.graph.get(id) {
        Some(n) => (n.kind == Kind::Trk, n.track, ed.param < n.inputs.len() && matches!(n.inputs[ed.param], Input::Const(_))),
        None => return EditAction::Refused,
    };
    if is_trk {
        let ids = song.track_ids();
        let pos = first_index_exec(&ids, tr);
        let k = cycle(pos, d, ids.len());
        let nt = ids[k];
        set_track(&mut song.graph, id, nt);
        assert(song@ == (SongView { graph: adjusted(ed@, s0, up, fine).0, ..s0 }));
        EditAction::Changed
    } else if konst {
        EditAction::Adjust(up, fine)
    } else {
        EditAction::Refused
    }
}

proof fn lemma_step_mod(v: int, n: int, m: int, d: int)
    requires
        n > 0,
        0 <= v,
        m == v % n,
        d == 1 || d == -1,
    ensures
        (v + d) % n == if d == 1 { if m + 1 == n { 0 } else { m + 1 } } else { if m == 0 { n - 1 } else { m - 1 } },
{
    vstd::arithmetic::div_mod::lemma_fundamental_div_mod(v, n);
    let q = v / n;
    assert(v == n * q + m);
    if d == 1 {
        if m + 1 == n {
            assert(v + d == (q + 1) * n + 0) by (nonlinear_arith)
                requires
                    v == n * q + m,
                    m + 1 == n,
                    d == 1,
            ;
            vstd::arithmetic::div_mod::lemma_fundamental_div_mod_converse(v + d, n, q + 1, 0);
        } else {
            assert(v + d == q * n + (m + 1)) by (nonlinear_arith)
                requires
                    v == n * q + m,
                    d == 1,
            ;
            vstd::arithmetic::div_mod::lemma_fundamental_div_mod_converse(v + d, n, q, m + 1);
        }
    } else {
        if m == 0 {
            assert(v + d == (q - 1) * n + (n - 1)) by (nonlinear_arith)
                requires
                    v == n * q + m,
                    m == 0,
                    d == -1,
            ;
            vstd::arithmetic::div_mod::lemma_fundamental_div_mod_converse(v + d, n, q - 1, n - 1);
        } else {
            assert(v + d == q * n + (m - 1)) by (nonlinear_arith)
                requires
                    v == n * q + m,
                    d == -1,
            ;
            vstd::arithmetic::div_mod::lemma_fundamental_div_mod_converse(v + d, n, q, m - 1);
        }
    }
}

fn cycle_var_exec(ed: &SynthEditor, g: &mut Graph, up: bool) -> (act: EditAction)
    ensures
        (final(g)@, act) == cycled_var(ed@, old(g)@, if up { 1 } else { -1 }),
{
    let id = sel_id_exec(ed, g);
    let (nv, var) = match g.get(id) {
        Some(n) => (n.kind.variants().len(), n.var),
        None => return EditAction::Nothing,
    };
    proof {
        let k = g@.nodes[find(g@.nodes, id)->0].kind;
        assert(nv == crate::graph::variant_names(k).len());
    }
    if nv == 0 {
        return EditAction::Nothing;
    }
    let m = var % nv;
    let nvar = if up {
        if m + 1 == nv { 0 } else { m + 1 }
    } else {
        if m == 0 { nv - 1 } else { m - 1 }
    };
    proof {
        lemma_step_mod(var as int, nv as int, m as int, if up { 1 } else { -1 });
    }
    set_var(g, id, nvar);
    EditAction::Changed
}

fn toggle_mark(ed: &mut SynthEditor, id: u32)
    ensures
        final(ed)@ == (SynthView {
            marks: match index_in(old(ed)@.marks, id, old(ed)@.marks.len() as int) {
                Some(j) => old(ed)@.marks.remove(j),
                None => old(ed)@.marks.push(id),
            },
            ..old(ed)@
        }),
{
    match index_exec(&ed.marks, id) {
        Some(k) => {
            ed.marks.remove(k);
        },
        None => {
            ed.marks.push(id);
        },
    }
}

/// One key `k` in the synth view, editing the graph of `song` for the current `track`.
#[verifier::rlimit(60)]
pub fn synth_key(ed: &mut SynthEditor, song: &mut Song, track: usize, k: EditKey) -> (act: EditAction)
    requires
        synth_ready(old(song)@, track as int),
        old(ed)@.splice_choices.len() < usize::MAX,
    ensures
        final(song)@ == (SongView { graph: synth_key_step(old(ed)@, old(song)@, track as int, k).1, ..old(song)@ }),
        (final(ed)@, act) == (synth_key_step(old(ed)@, old(song)@, track as int, k).0, synth_key_step(old(ed)@, old(song)@, track as int, k).2),
{
    let ghost e0 = ed@;
    let ghost s0 = song@;
    let tids = song.track_ids();
    let tid = song.tracks[track].id;
    let id = sel_id_exec(ed, &song.graph);
    let pin = inputs_exec(&song.graph, ed.pick);
    let arrow = k == EditKey::Left || k == EditKey::Right || k == EditKey::Up || k == EditKey::Down;
    let dc: i32 = if k == EditKey::Left { -1 } else if k == EditKey::Right { 1 } else { 0 };
    let dr: i32 = if k == EditKey::Up { -1 } else if k == EditKey::Down { 1 } else { 0 };
    match ed.mode {
        SMode::Palette => EditAction::Nothing,
        SMode::OutPick => {
            if k == EditKey::Enter {
                if ed.pick == Some(id) || pin == 0 {
                    EditAction::Refused
                } else if pin == 1 {
                    ed.mode = SMode::OutInput;
                    ed.splice_idx = 0;
                    out_exec(ed, &mut song.graph)
                } else {
                    ed.mode = SMode::OutInput;
                    ed.splice_idx = 0;
                    EditAction::Nothing
                }
            } else if arrow {
                move_sel_exec(ed, &song.graph, &tids, dc, dr);
                EditAction::Nothing
            } else {
                EditAction::Nothing
            }
        },
        SMode::OutInput => {
            if k == EditKey::Enter {
                out_exec(ed, &mut song.graph)
            } else if k == EditKey::Down {
                let hi = if pin > 0 { pin - 1 } else { 0 };
                ed.splice_idx = if ed.splice_idx < hi { ed.splice_idx + 1 } else { hi };
                EditAction::Nothing
            } else if k == EditKey::Up {
                ed.splice_idx = if ed.splice_idx > 0 { ed.splice_idx - 1 } else { 0 };
                EditAction::Nothing
            } else {
                EditAction::Nothing
            }
        },
        SMode::Disconnect => {
            if k == EditKey::Enter {
                cut_exec(ed, &mut song.graph)
            } else if k == EditKey::Down {
                let hi = ed.splice_choices.len();
                ed.splice_idx = if ed.splice_idx < hi { ed.splice_idx + 1 } else { hi };
                EditAction::Nothing
            } else if k == EditKey::Up {
                ed.splice_idx = if ed.splice_idx > 0 { ed.splice_idx - 1 } else { 0 };
                EditAction::Nothing
            } else {
                EditAction::Nothing
            }
        },
        SMode::Splice => {
            if k == EditKey::Enter {
                let ts = splice_targets(&ed.splice_choices, ed.splice_idx);
                ed.mode = SMode::Node;
                let kind = ed.splice_kind;
                add_node_exec(ed, &mut song.graph, kind, Some(ts), tid)
            } else if k == EditKey::Down {
                let hi = ed.splice_choices.len();
                ed.splice_idx = if ed.splice_idx <= hi { ed.splice_idx + 1 } else { hi + 1 };
                EditAction::Nothing
            } else if k == EditKey::Up {
                ed.splice_idx = if ed.splice_idx > 0 { ed.splice_idx - 1 } else { 0 };
                EditAction::Nothing
            } else {
                EditAction::Nothing
            }
        },
        SMode::Connect(pi) => {
            if k == EditKey::Enter {
                match ed.pick {
                    Some(p) => {
                        if p != id {
                            ed.param = pi;
                            wire(&mut song.graph, id, pi, Input::Link(p));
                            ed.mode = SMode::Param;
                            EditAction::Changed
                        } else {
                            ed.mode = SMode::Param;
                            EditAction::Nothing
                        }
                    },
                    None => {
                        ed.mode = SMode::Param;
                        EditAction::Nothing
                    },
                }
            } else if arrow {
                move_sel_exec(ed, &song.graph, &tids, dc, dr);
                EditAction::Nothing
            } else {
                EditAction::Nothing
            }
        },
        SMode::Param => {
            let n = inputs_exec(&song.graph, Some(id));
            if k == EditKey::Enter {
                if ed.num.unicode_len() == 0 {
                    ed.mode = SMode::Node;
                    EditAction::Nothing
                } else {
                    EditAction::CommitNumber
                }
            } else if k == EditKey::Backspace {
                ed.num = without_last(&ed.num);
                EditAction::Nothing
            } else if k == EditKey::Up {
                ed.param = if ed.param > 0 { ed.param - 1 } else { 0 };
                EditAction::Nothing
            } else if k == EditKey::Down {
                let hi = if n > 0 { n - 1 } else { 0 };
                ed.param = if ed.param < hi { ed.param + 1 } else { hi };
                EditAction::Nothing
            } else if k == EditKey::Left || k == EditKey::Right {
                adjust_exec(ed, song, k == EditKey::Right, false)
            } else {
                EditAction::Nothing
            }
        },
        SMode::Node => {
            if k == EditKey::Enter {
                if inputs_exec(&song.graph, Some(id)) > 0 {
                    ed.mode = SMode::Param;
                    ed.param = 0;
                }
                EditAction::Nothing
            } else if arrow {
                move_sel_exec(ed, &song.graph, &tids, dc, dr);
                EditAction::Nothing
            } else if k == EditKey::Delete || k == EditKey::Backspace {
                deleted_exec(ed, &mut song.graph, &tids)
            } else {
                EditAction::Nothing
            }
        },
    }
}


fn palette_kind_exec(c: char) -> (r: Option<Kind>)
    ensures
        r == palette_kind(c),
{
    if c == 't' { Some(Kind::Trk) } else if c == 'o' { Some(Kind::Osc) } else if c == 'n' { Some(Kind::Noise) }
    else if c == 'e' { Some(Kind::Env) } else if c == 'f' { Some(Kind::Filt) } else if c == 'd' { Some(Kind::Delay) }
    else if c == 'm' { Some(Kind::Math) } else if c == 's' { Some(Kind::Shape) } else if c == 'h' { Some(Kind::Sh) }
    else if c == 'b' { Some(Kind::Buf) } else if c == 'k' { Some(Kind::Key) } else { None }
}

fn voiced_exec(ed: &mut SynthEditor, g: &mut Graph, tid: u32) -> (act: EditAction)
    requires
        synth_ok(old(g)@),
    ensures
        (final(ed)@, final(g)@, act) == voiced(old(ed)@, old(g)@, tid),
{
    proof {
        lemma_voice_ok(g@, ed.sel_node, tid);
    }
    let vca = g.voice(ed.sel_node, tid);
    ed.mode = SMode::Node;
    if ed.focus {
        ed.marks.push(vca);
    }
    ed.sel_node = Some(vca);
    EditAction::Changed
}

/// The palette and the picking modes, for one character.
#[verifier::rlimit(60)]
fn synth_char_pick(ed: &mut SynthEditor, song: &mut Song, track: usize, c: char) -> (act: EditAction)
    requires
        synth_ready(old(song)@, track as int),
        old(ed)@.splice_choices.len() < usize::MAX,
        !(old(ed)@.mode is Param || old(ed)@.mode is Node),
    ensures
        final(song)@ == (SongView { graph: synth_char_step(old(ed)@, old(song)@, track as int, c).1, ..old(song)@ }),
        (final(ed)@, act) == (synth_char_step(old(ed)@, old(song)@, track as int, c).0, synth_char_step(old(ed)@, old(song)@, track as int, c).2),
{
    let tids = song.track_ids();
    let tid = song.tracks[track].id;
    let pin = inputs_exec(&song.graph, ed.pick);
    let (dc, dr): (i32, i32) = if c == 'h' { (-1, 0) } else if c == 'l' { (1, 0) } else if c == 'k' { (0, -1) } else { (0, 1) };
    let hjkl = c == 'h' || c == 'l' || c == 'k' || c == 'j';
    let digit = c >= '1' && c <= '9';
    match ed.mode {
        SMode::Palette => {
            if c == 'v' {
                voiced_exec(ed, &mut song.graph, tid)
            } else {
                match palette_kind_exec(c) {
                    Some(kind) => {
                        let cons = match ed.sel_node {
                            Some(a) => song.graph.consumers(a),
                            None => Vec::new(),
                        };
                        assert(cons@ == match ed@.sel_node { Some(a) => consumers_of(song@.graph.nodes, a, song@.graph.nodes.len() as int), None => Seq::<(u32, usize)>::empty() });
                        if kind.chainable() && cons.len() > 1 {
                            ed.mode = SMode::Splice;
                            ed.splice_kind = kind;
                            ed.splice_choices = cons;
                            ed.splice_idx = 1;
                            EditAction::Nothing
                        } else {
                            ed.mode = SMode::Node;
                            add_node_exec(ed, &mut song.graph, kind, None, tid)
                        }
                    },
                    None => {
                        ed.mode = SMode::Node;
                        EditAction::Nothing
                    },
                }
            }
        },
        SMode::OutPick | SMode::Connect(_) => {
            if hjkl {
                move_sel_exec(ed, &song.graph, &tids, dc, dr);
            }
            EditAction::Nothing
        },
        SMode::OutInput => {
            if c == 'j' {
                let hi = if pin > 0 { pin - 1 } else { 0 };
                ed.splice_idx = if ed.splice_idx < hi { ed.splice_idx + 1 } else { hi };
                EditAction::Nothing
            } else if c == 'k' {
                ed.splice_idx = if ed.splice_idx > 0 { ed.splice_idx - 1 } else { 0 };
                EditAction::Nothing
            } else if digit && ((c as u32 - '1' as u32) as usize) < pin {
                ed.splice_idx = (c as u32 - '1' as u32) as usize;
                out_exec(ed, &mut song.graph)
            } else {
                EditAction::Nothing
            }
        },
        SMode::Disconnect => {
            if c == 'j' {
                let hi = ed.splice_choices.len();
                ed.splice_idx = if ed.splice_idx < hi { ed.splice_idx + 1 } else { hi };
                EditAction::Nothing
            } else if c == 'k' {
                ed.splice_idx = if ed.splice_idx > 0 { ed.splice_idx - 1 } else { 0 };
                EditAction::Nothing
            } else if digit && ((c as u32 - '1' as u32) as usize) <= ed.splice_choices.len() {
                ed.splice_idx = (c as u32 - '1' as u32) as usize;
                cut_exec(ed, &mut song.graph)
            } else {
                EditAction::Nothing
            }
        },
        SMode::Splice => {
            if c == 'j' {
                let hi = ed.splice_choices.len();
                ed.splice_idx = if ed.splice_idx <= hi { ed.splice_idx + 1 } else { hi + 1 };
                EditAction::Nothing
            } else if c == 'k' {
                ed.splice_idx = if ed.splice_idx > 0 { ed.splice_idx - 1 } else { 0 };
                EditAction::Nothing
            } else if digit && ((c as u32 - '0' as u32) as usize) <= ed.splice_choices.len() + 1 {
                ed.splice_idx = (c as u32 - '0' as u32) as usize;
                let ts = splice_targets(&ed.splice_choices, ed.splice_idx);
                ed.mode = SMode::Node;
                let kind = ed.splice_kind;
                add_node_exec(ed, &mut song.graph, kind, Some(ts), tid)
            } else {
                EditAction::Nothing
            }
        },
        _ => EditAction::Nothing,
    }
}

/// Editing the selected node's inputs, for one character.
#[verifier::rlimit(60)]
fn synth_char_param(ed: &mut SynthEditor, song: &mut Song, track: usize, c: char) -> (act: EditAction)
    requires
        synth_ready(old(song)@, track as int),
        old(ed)@.mode is Param,
    ensures
        final(song)@ == (SongView { graph: synth_char_step(old(ed)@, old(song)@, track as int, c).1, ..old(song)@ }),
        (final(ed)@, act) == (synth_char_step(old(ed)@, old(song)@, track as int, c).0, synth_char_step(old(ed)@, old(song)@, track as int, c).2),
{
    let id = sel_id_exec(ed, &song.graph);
    let n = inputs_exec(&song.graph, Some(id));
    if (c >= '0' && c <= '9') || c == '.' || c == '-' || (c >= 'A' && c <= 'G') || c == '#' {
        push_char(&mut ed.num, c);
        EditAction::Nothing
    } else if c == 'j' {
        let hi = if n > 0 { n - 1 } else { 0 };
        ed.param = if ed.param < hi { ed.param + 1 } else { hi };
        EditAction::Nothing
    } else if c == 'k' {
        ed.param = if ed.param > 0 { ed.param - 1 } else { 0 };
        EditAction::Nothing
    } else if c == 'h' || c == 'l' || c == 'H' || c == 'L' {
        adjust_exec(ed, song, c == 'l' || c == 'L', c == 'H' || c == 'L')
    } else if c == 'x' {
        let kind = match song.graph.get(id) {
            Some(nd) => Some(nd.kind),
            None => None,
        };
        match kind {
            Some(kd) => {
                let d = kd.defaults();
                let x = if ed.param < d.len() { Input::Const(d[ed.param]) } else { Input::Const(Bits32(crate::graph::F_0)) };
                wire(&mut song.graph, id, ed.param, x);
                EditAction::Changed
            },
            None => EditAction::Changed,
        }
    } else if c == 'i' {
        ed.mode = SMode::Connect(ed.param);
        ed.pick = Some(id);
        EditAction::Nothing
    } else if c == 'c' {
        ed.mode = SMode::OutPick;
        ed.pick = Some(id);
        EditAction::Nothing
    } else if c == 'w' || c == 'W' {
        cycle_var_exec(ed, &mut song.graph, c == 'w')
    } else {
        EditAction::Nothing
    }
}

/// Moving between nodes and the node-level commands, for one character.
#[verifier::rlimit(60)]
fn synth_char_node(ed: &mut SynthEditor, song: &mut Song, track: usize, c: char) -> (act: EditAction)
    requires
        synth_ready(old(song)@, track as int),
        old(ed)@.mode is Node,
    ensures
        final(song)@ == (SongView { graph: synth_char_step(old(ed)@, old(song)@, track as int, c).1, ..old(song)@ }),
        (final(ed)@, act) == (synth_char_step(old(ed)@, old(song)@, track as int, c).0, synth_char_step(old(ed)@, old(song)@, track as int, c).2),
{
    let tids = song.track_ids();
    let id = sel_id_exec(ed, &song.graph);
    let (dc, dr): (i32, i32) = if c == 'h' { (-1, 0) } else if c == 'l' { (1, 0) } else if c == 'k' { (0, -1) } else { (0, 1) };
    if c == 'h' || c == 'l' || c == 'k' || c == 'j' {
        move_sel_exec(ed, &song.graph, &tids, dc, dr);
        EditAction::Nothing
    } else if c == 'a' {
        ed.mode = SMode::Palette;
        EditAction::Nothing
    } else if c == 'x' {
        deleted_exec(ed, &mut song.graph, &tids)
    } else if c == 'w' || c == 'W' {
        cycle_var_exec(ed, &mut song.graph, c == 'w')
    } else if c == 'v' {
        toggle_mark(ed, id);
        EditAction::Nothing
    } else if c == 'f' {
        if ed.marks.len() == 0 {
            EditAction::Refused
        } else {
            ed.focus = !ed.focus;
            EditAction::Nothing
        }
    } else if c == 'F' {
        ed.marks = Vec::new();
        ed.focus = false;
        EditAction::Nothing
    } else if c == 'c' {
        ed.mode = SMode::OutPick;
        ed.pick = Some(id);
        EditAction::Nothing
    } else if c == 'i' {
        if inputs_exec(&song.graph, Some(id)) > 0 {
            ed.mode = SMode::Connect(0);
            ed.param = 0;
            ed.pick = Some(id);
        }
        EditAction::Nothing
    } else if c == 'd' {
        let cons = song.graph.consumers(id);
        if cons.len() == 0 {
            EditAction::Refused
        } else {
            ed.splice_choices = cons;
            ed.splice_idx = 0;
            ed.mode = SMode::Disconnect;
            EditAction::Nothing
        }
    } else if c == 'o' {
        proof {
            lemma_out_found(song@.graph);
        }
        let out0 = song.graph.out_id();
        match song.graph.to_out(id) {
            Some(m) => {
                if ed.focus && Some(m) != out0 {
                    ed.marks.push(m);
                }
                EditAction::Changed
            },
            None => EditAction::Refused,
        }
    } else if c == '[' {
        EditAction::Track(if track > 0 { track - 1 } else { 0 })
    } else if c == ']' {
        EditAction::Track(if track < song.tracks.len() - 1 { track + 1 } else { track })
    } else if c == 'u' {
        EditAction::Undo
    } else if c == ':' {
        EditAction::Command
    } else {
        EditAction::Nothing
    }
}

/// One character `c` in the synth view, editing the graph of `song` for the current `track`.
pub fn synth_char(ed: &mut SynthEditor, song: &mut Song, track: usize, c: char) -> (act: EditAction)
    requires
        synth_ready(old(song)@, track as int),
        old(ed)@.splice_choices.len() < usize::MAX,
    ensures
        final(song)@ == (SongView { graph: synth_char_step(old(ed)@, old(song)@, track as int, c).1, ..old(song)@ }),
        (final(ed)@, act) == (synth_char_step(old(ed)@, old(song)@, track as int, c).0, synth_char_step(old(ed)@, old(song)@, track as int, c).2),
{
    match ed.mode {
        SMode::Param => synth_char_param(ed, song, track, c),
        SMode::Node => synth_char_node(ed, song, track, c),
        _ => synth_char_pick(ed, song, track, c),
    }
}

/// On a graph the editor accepts, the voice recipe has what it needs: room for its ids, an
/// amp input on the oscillator it uses, and OUT's input to mix into.
proof fn lemma_voice_ok(g: GraphView, sel: Option<u32>, tid: u32)
    requires
        synth_ok(g),
    ensures
        crate::graph::voice_ok(g, sel, tid),
{
}


/// The first `n` marks that still name a node of `ns`.
pub open spec fn live_marks(ns: Seq<NodeView>, ms: Seq<u32>, n: int) -> Seq<u32>
    decreases n,
{
    if n <= 0 {
        seq![]
    } else {
        let r = live_marks(ns, ms, n - 1);
        if find(ns, ms[n - 1]) is Some { r.push(ms[n - 1]) } else { r }
    }
}

/// The first shown position among the first `n`, if any.
pub open spec fn first_shown(vis: Seq<bool>, n: int) -> Option<int>
    decreases n,
{
    if n <= 0 {
        None
    } else {
        match first_shown(vis, n - 1) {
            Some(j) => Some(j),
            None => if vis[n - 1] { Some(n - 1) } else { None },
        }
    }
}

/// The editor made consistent with the graph after an edit: marks of deleted nodes dropped; a
/// missing selection goes to OUT, and a hidden one to the first shown node; the input cursor
/// kept on the selected node's inputs; and the input-editing modes left when it has none.
pub open spec fn tidied(e: SynthView, ns: Seq<NodeView>) -> SynthView {
    let marks = live_marks(ns, e.marks, e.marks.len() as int);
    let sel1 = match e.sel_node {
        Some(id) => if find(ns, id) is Some { Some(id) } else { id_at(ns, is_out()) },
        None => id_at(ns, is_out()),
    };
    let vis = shown(ns, marks, e.focus);
    let sel2 = match sel1 {
        Some(id) => match find(ns, id) {
            Some(i) => if !vis[i] {
                match first_shown(vis, ns.len() as int) {
                    Some(j) => Some(ns[j].id),
                    None => None,
                }
            } else {
                sel1
            },
            None => sel1,
        },
        None => sel1,
    };
    let np = inputs_of(ns, sel2);
    SynthView {
        marks,
        sel_node: sel2,
        param: if np == 0 { 0 } else if e.param < np - 1 { e.param } else { (np - 1) as usize },
        mode: if np == 0 && (e.mode is Node || e.mode is Param || e.mode is Connect) { SMode::Node } else { e.mode },
        ..e
    }
}

/// Make the editor consistent with the graph after an edit (see `tidied`).
pub fn synth_tidy(ed: &mut SynthEditor, g: &Graph)
    ensures
        final(ed)@ == tidied(old(ed)@, g@.nodes),
{
    let ghost e0 = ed@;
    let ghost ns = g@.nodes;
    let mut marks: Vec<u32> = Vec::new();
    let mut i: usize = 0;
    while i < ed.marks.len()
        invariant
            i <= ed@.marks.len(),
            ed@ == e0,
            ns == g@.nodes,
            marks@ == live_marks(ns, e0.marks, i as int),
        decreases ed@.marks.len() - i,
    {
        let m = ed.marks[i];
        if g.get(m).is_some() {
            marks.push(m);
        }
        i += 1;
    }
    ed.marks = marks;
    let keep_sel = match ed.sel_node {
        Some(id) => g.get(id).is_some(),
        None => false,
    };
    if !keep_sel {
        ed.sel_node = g.out_id();
    }
    let ghost sel1 = ed.sel_node;
    assert(ed@.marks == live_marks(ns, e0.marks, e0.marks.len() as int));
    let vis = shown_exec(g, &ed.marks, ed.focus);
    match ed.sel_node {
        Some(id) => match g.idx(id) {
            Some(x) => {
                if !vis[x] {
                    ed.sel_node = first_shown_exec(g, &vis);
                }
            },
            None => {},
        },
        None => {},
    }
    assert(ed.sel_node == match sel1 {
        Some(id) => match find(ns, id) {
            Some(i) => if !vis@[i] {
                match first_shown(vis@, ns.len() as int) {
                    Some(j) => Some(ns[j].id),
                    None => None,
                }
            } else {
                sel1
            },
            None => sel1,
        },
        None => sel1,
    });
    let np = inputs_exec(g, ed.sel_node);
    ed.param = if np == 0 { 0 } else if ed.param < np - 1 { ed.param } else { np - 1 };
    if np == 0 {
        match ed.mode {
            SMode::Node | SMode::Param | SMode::Connect(_) => {
                ed.mode = SMode::Node;
            },
            _ => {},
        }
    }
}

fn first_shown_exec(g: &Graph, vis: &Vec<bool>) -> (r: Option<u32>)
    requires
        vis@.len() == g@.nodes.len(),
    ensures
        r == match first_shown(vis@, vis@.len() as int) {
            Some(j) => Some(g@.nodes[j].id),
            None => None,
        },
{
    let mut j: usize = 0;
    while j < vis.len()
        invariant
            j <= vis@.len(),
            vis@.len() == g@.nodes.len(),
            first_shown(vis@, j as int) is None,
        decreases vis@.len() - j,
    {
        if vis[j] {
            assert(first_shown(vis@, j + 1) == Some(j as int));
            proof {
                lemma_first_shown_stays(vis@, j as int + 1, vis@.len() as int);
            }
            return Some(g.nodes[j].id);
        }
        j += 1;
    }
    None
}

proof fn lemma_first_shown_stays(vis: Seq<bool>, m: int, n: int)
    requires
        m <= n,
        first_shown(vis, m) is Some,
    ensures
        first_shown(vis, n) == first_shown(vis, m),
    decreases n - m,
{
    if m < n {
        lemma_first_shown_stays(vis, m, n - 1);
    }
}

} // verus!
