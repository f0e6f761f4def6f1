//! Songs: tracks of note patterns, the key and chord progression they follow, and the synth graph.
use vstd::prelude::*;
use vstd::arithmetic::div_mod::{lemma_fundamental_div_mod, lemma_fundamental_div_mod_converse};
use crate::value::{Bits32, Bits64};
use crate::graph::{F_0_01, F_0_2, F_0_3, F_0_5, F_0_6, F_0_7};
use crate::graph::{
    Graph, GraphView, Input, Kind, NodeView, added, trk_added, remove_spec, to_out_spec, to_out_ok,
    link_or_zero, link_or_zero_exec, id_at, is_trk_of, find, set_input,
};
use crate::text::{push_char, push_signed, push_str, signed_decimal};

verus! {

/// `v` modulo `m`, in `0..m` (Euclidean, like `rem_euclid`), and the matching quotient.
pub(crate) fn div_mod_euclid(v: i64, m: i64) -> (r: (i64, i64))
    requires
        m > 0,
    ensures
        r.0 == v / m,
        r.1 == v % m,
        0 <= r.1 < m,
{
    if v >= 0 {
        let q = ((v as u64) / (m as u64)) as i64;
        let r = ((v as u64) % (m as u64)) as i64;
        (q, r)
    } else {
        let a: u64 = (-(v + 1)) as u64;
        let q0: u64 = a / (m as u64);
        let r0: u64 = a % (m as u64);
        proof {
            lemma_fundamental_div_mod(a as int, m as int);
            let qq = -(q0 as int) - 1;
            let rr = m - 1 - r0;
            assert(v == qq * m + rr) by (nonlinear_arith)
                requires
                    a == m * q0 + r0,
                    a == -(v + 1),
                    qq == -(q0 as int) - 1,
                    rr == m - 1 - r0,
            ;
            lemma_fundamental_div_mod_converse(v as int, m as int, qq, rr);
        }
        assert(q0 <= a);
        (-(q0 as i64) - 1, m - 1 - (r0 as i64))
    }
}


/// One note inside a pattern. Times are in beats relative to the pattern's start.
#[derive(Clone, Copy, Debug, PartialEq, Eq, Structural)]
pub struct Note {
    /// beats, relative to the pattern (an `f64`)
    pub start: Bits64,
    /// beats (an `f64`)
    pub len: Bits64,
    /// midi
    pub pitch: i32,
    /// an `f32`
    pub vel: Bits32,
}

/// A block of notes placed at `start` (grid steps), `len` steps long, played `reps` times back to back.
#[derive(Clone, Debug)]
pub struct Pattern {
    pub start: usize,
    pub len: usize,
    pub reps: usize,
    pub notes: Vec<Note>,
}

#[verifier::ext_equal]
pub struct PatternView {
    pub start: usize,
    pub len: usize,
    pub reps: usize,
    pub notes: Seq<Note>,
}

impl View for Pattern {
    type V = PatternView;

    open spec fn view(&self) -> PatternView {
        PatternView { start: self.start, len: self.len, reps: self.reps, notes: self.notes@ }
    }
}

#[derive(Clone, Debug)]
pub struct Track {
    pub id: u32,
    pub name: String,
    pub patterns: Vec<Pattern>,
    pub mute: bool,
}

#[verifier::ext_equal]
pub struct TrackView {
    pub id: u32,
    pub name: Seq<char>,
    pub patterns: Seq<PatternView>,
    pub mute: bool,
}

impl View for Track {
    type V = TrackView;

    open spec fn view(&self) -> TrackView {
        TrackView {
            id: self.id,
            name: self.name@,
            patterns: self.patterns@.map_values(|p: Pattern| p@),
            mute: self.mute,
        }
    }
}

#[derive(Clone, Debug)]
pub struct Song {
    /// an `f64`
    pub bpm: Bits64,
    pub bars: usize,
    /// beats per bar
    pub beats: u32,
    /// steps per beat
    pub grid: u32,
    /// an `f64`: 0.5 = straight, 0.67 = triplet swing on off-beat 8ths
    pub swing: Bits64,
    pub root: i32,
    pub minor: bool,
    pub prog: Vec<i32>,
    pub next_track: u32,
    pub graph: Graph,
    pub tracks: Vec<Track>,
}

#[verifier::ext_equal]
pub struct SongView {
    pub bpm: Bits64,
    pub bars: usize,
    pub beats: u32,
    pub grid: u32,
    pub swing: Bits64,
    pub root: i32,
    pub minor: bool,
    pub prog: Seq<i32>,
    pub next_track: u32,
    pub graph: GraphView,
    pub tracks: Seq<TrackView>,
}

impl View for Song {
    type V = SongView;

    open spec fn view(&self) -> SongView {
        SongView {
            bpm: self.bpm,
            bars: self.bars,
            beats: self.beats,
            grid: self.grid,
            swing: self.swing,
            root: self.root,
            minor: self.minor,
            prog: self.prog@,
            next_track: self.next_track,
            graph: self.graph@,
            tracks: self.tracks@.map_values(|t: Track| t@),
        }
    }
}

/// An exact copy of a list of notes.
fn copy_notes(v: &Vec<Note>) -> (r: Vec<Note>)
    ensures
        r@ == v@,
{
    let mut r: Vec<Note> = Vec::new();
    let mut i: usize = 0;
    while i < v.len()
        invariant
            i <= v@.len(),
            r@ =~= v@.take(i as int),
        decreases v@.len() - i,
    {
        r.push(v[i]);
        i += 1;
    }
    assert(v@.take(v@.len() as int) =~= v@);
    r
}


/// The letter of pitch class `k` (0 = C .. 11 = B).
pub open spec fn pc_letter(k: int) -> char {
    if k <= 1 { 'C' } else if k <= 3 { 'D' } else if k == 4 { 'E' } else if k <= 6 { 'F' }
    else if k <= 8 { 'G' } else if k <= 10 { 'A' } else { 'B' }
}

/// Whether pitch class `k` is written with a sharp.
pub open spec fn pc_sharp(k: int) -> bool {
    k == 1 || k == 3 || k == 6 || k == 8 || k == 10
}

/// The name of pitch class `k`: C C# D D# E F F# G G# A A# B.
pub open spec fn pc_name(k: int) -> Seq<char> {
    if pc_sharp(k) { seq![pc_letter(k), '#'] } else { seq![pc_letter(k)] }
}

/// Note name and octave of midi pitch `p`, with middle C (60) as "C4".
pub open spec fn note_text(p: int) -> Seq<char> {
    pc_name(p % 12) + signed_decimal(p / 12 - 1)
}

fn push_pc_name(s: &mut String, k: i64)
    requires
        0 <= k < 12,
    ensures
        final(s)@ == old(s)@ + pc_name(k as int),
{
    let c = if k <= 1 { 'C' } else if k <= 3 { 'D' } else if k == 4 { 'E' } else if k <= 6 { 'F' }
        else if k <= 8 { 'G' } else if k <= 10 { 'A' } else { 'B' };
    push_char(s, c);
    if k == 1 || k == 3 || k == 6 || k == 8 || k == 10 {
        push_char(s, '#');
    }
    assert(final(s)@ =~= old(s)@ + pc_name(k as int)) by {
        assert(pc_name(k as int) =~= if pc_sharp(k as int) { seq![c, '#'] } else { seq![c] });
    }
}

/// "C4" for 60, "A#-1" for 10.
pub fn note_name(p: i32) -> (r: String)
    ensures
        r@ == note_text(p as int),
{
    let (q, k) = div_mod_euclid(p as i64, 12);
    let mut s = String::new();
    push_pc_name(&mut s, k);
    push_signed(&mut s, q - 1);
    assert(s@ =~= note_text(p as int));
    s
}

/// The pitch class a note letter names, before any sharp or flat.
pub open spec fn letter_base(c: char) -> Option<int> {
    let u = crate::text::upper(c);
    if u == 'C' { Some(0) } else if u == 'D' { Some(2) } else if u == 'E' { Some(4) } else if u == 'F' { Some(5) }
    else if u == 'G' { Some(7) } else if u == 'A' { Some(9) } else if u == 'B' { Some(11) } else { None }
}

/// +1 for a '#' right after the letter, -1 for a 'b', else 0.
pub open spec fn accidental(s: Seq<char>) -> int {
    if s.len() >= 2 && s[1] == '#' { 1 } else if s.len() >= 2 && s[1] == 'b' { -1 } else { 0 }
}

/// The pitch class (0..12) that text starting with a note name names; `None` when it does not start with one.
pub open spec fn root_of(s: Seq<char>) -> Option<int> {
    if s.len() == 0 {
        None
    } else {
        match letter_base(s[0]) {
            Some(b) => Some((b + accidental(s)) % 12),
            None => None,
        }
    }
}

/// The pitch class of a key or note name: "C", "f#", "Bb", "A4" (anything after the accidental is ignored).
pub fn parse_root(s: &str) -> (r: Option<i32>)
    ensures
        r matches Some(v) ==> root_of(s@) == Some(v as int),
        r is None ==> root_of(s@) is None,
{
    let n = s.unicode_len();
    if n == 0 {
        return None;
    }
    let u = crate::text::upper_char(s.get_char(0));
    let base: i64 = if u == 'C' { 0 } else if u == 'D' { 2 } else if u == 'E' { 4 } else if u == 'F' { 5 }
        else if u == 'G' { 7 } else if u == 'A' { 9 } else if u == 'B' { 11 } else { return None };
    let acc: i64 = if n >= 2 && s.get_char(1) == '#' { 1 } else if n >= 2 && s.get_char(1) == 'b' { -1 } else { 0 };
    let (_, r) = div_mod_euclid(base + acc, 12);
    Some(r as i32)
}


proof fn lemma_decimal_head(n: nat)
    ensures
        crate::text::decimal(n).len() >= 1,
        crate::text::decimal(n)[0] != '#' && crate::text::decimal(n)[0] != 'b',
    decreases n,
{
    if n >= 10 {
        lemma_decimal_head(n / 10);
    }
}

/// Each of the twelve pitch-class names parses back to its pitch class.
pub proof fn lemma_pitch_class_names_parse(k: int)
    requires
        0 <= k < 12,
    ensures
        root_of(pc_name(k)) == Some(k),
{
}

/// A note's name parses back to the pitch class of the note.
pub proof fn lemma_note_name_parses(p: int)
    ensures
        root_of(note_text(p)) == Some(p % 12),
{
    let k = p % 12;
    let d = signed_decimal(p / 12 - 1);
    if p / 12 - 1 < 0 {
        lemma_decimal_head((-(p / 12 - 1)) as nat);
    } else {
        lemma_decimal_head((p / 12 - 1) as nat);
    }
    assert(d.len() >= 1 && d[0] != '#' && d[0] != 'b');
    let t = note_text(p);
    assert(t[0] == pc_letter(k));
    if pc_sharp(k) {
        assert(t[1] == '#');
    } else {
        assert(t[1] == d[0]);
    }
}


/// `reps`, counting a pattern with zero repetitions as playing once.
pub open spec fn plays(p: PatternView) -> int {
    if p.reps >= 1 { p.reps as int } else { 1 }
}

/// The step just after the last repetition of `p`.
pub open spec fn pat_end(p: PatternView) -> int {
    p.start + p.len * plays(p)
}

/// Which repetition of `p` (0 = the original) covers `step`, if any.
pub open spec fn rep_of(p: PatternView, step: int) -> Option<int> {
    if p.len == 0 || step < p.start || step >= pat_end(p) {
        None
    } else {
        Some((step - p.start) / p.len as int)
    }
}

impl Pattern {
    pub fn end(&self) -> (r: usize)
        requires
            pat_end(self@) <= usize::MAX,
        ensures
            r == pat_end(self@),
    {
        let reps = if self.reps >= 1 { self.reps } else { 1 };
        assert(self.len * reps <= pat_end(self@)) by (nonlinear_arith)
            requires
                pat_end(self@) == self.start + self.len * reps,
        ;
        self.start + self.len * reps
    }

    /// which repetition (0 = the editable original) covers this step
    pub fn rep_at(&self, step: usize) -> (r: Option<usize>)
        requires
            pat_end(self@) <= usize::MAX,
        ensures
            r matches Some(k) ==> rep_of(self@, step as int) == Some(k as int),
            r is None ==> rep_of(self@, step as int) is None,
    {
        if self.len == 0 || step < self.start || step >= self.end() {
            None
        } else {
            Some((step - self.start) / self.len)
        }
    }
}

/// 120.0 as an `f64`
pub const BPM_120: u64 = 0x405E_0000_0000_0000u64;

/// 0.5 as an `f64`
pub const HALF: u64 = 0x3FE0_0000_0000_0000u64;

/// A new song: 120 bpm, four bars of 4/4 on a sixteenth grid, C major with the progression
/// I V vi IV, no tracks, and a graph holding just OUT.
pub open spec fn empty_song() -> SongView {
    SongView {
        bpm: Bits64(BPM_120),
        bars: 4,
        beats: 4,
        grid: 4,
        swing: Bits64(HALF),
        root: 0,
        minor: false,
        prog: seq![1i32, 5, 6, 4],
        next_track: 1,
        graph: crate::graph::added(GraphView { nodes: seq![], next_id: 0 }, Kind::Out, 0, seq![]),
        tracks: seq![],
    }
}

/// The seven pitch classes above the root of the major or natural minor scale.
pub open spec fn scale_of(minor: bool) -> Seq<i32> {
    if minor { seq![0i32, 2, 3, 5, 7, 8, 10] } else { seq![0i32, 2, 4, 5, 7, 9, 11] }
}

pub open spec fn in_key(s: SongView, p: int) -> bool {
    scale_of(s.minor).contains(((p - s.root) % 12) as i32)
}

/// From `q`, step by `dir` at most `k` times, stopping at the first pitch in the key.
pub open spec fn walk_key(s: SongView, q: int, dir: int, k: nat) -> int
    decreases k,
{
    if k == 0 {
        q
    } else if in_key(s, q + dir) {
        q + dir
    } else {
        walk_key(s, q + dir, dir, (k - 1) as nat)
    }
}

pub open spec fn clamp(v: int, lo: int, hi: int) -> int {
    if v < lo { lo } else if v > hi { hi } else { v }
}

/// The pitch of scale degree `degree` (0 = the root; 7 = the root an octave up) in `octave`.
pub open spec fn degree_pitch_of(s: SongView, degree: int, octave: int) -> int {
    12 * (octave + 1) + s.root + scale_of(s.minor)[degree % 7] + 12 * (degree / 7)
}

/// Stacked thirds: `n` pitches on the degrees `degree`, `degree + 2`, ...
pub open spec fn chord_of(s: SongView, degree: int, octave: int, n: int) -> Seq<i32> {
    Seq::new(n as nat, |i: int| degree_pitch_of(s, degree + 2 * i, octave) as i32)
}

/// The degree (0-based) of the chord under bar `bar`: the progression repeats; none means the root.
pub open spec fn bar_chord_of(s: SongView, bar: int) -> int {
    if s.prog.len() == 0 { 0 } else { s.prog[bar % s.prog.len() as int] - 1 }
}

pub open spec fn key_text(s: SongView) -> Seq<char> {
    pc_name(s.root as int % 12) + seq![' '] + if s.minor { "minor"@ } else { "major"@ }
}

impl Song {
    pub fn empty() -> (s: Song)
        ensures
            s@ == empty_song(),
    {
        let mut g = Graph::default();
        let v: Vec<Input> = Vec::new();
        g.add(Kind::Out, 0, v);
        let mut prog: Vec<i32> = Vec::new();
        prog.push(1);
        prog.push(5);
        prog.push(6);
        prog.push(4);
        let s = Song {
            bpm: Bits64(BPM_120),
            bars: 4,
            beats: 4,
            grid: 4,
            swing: Bits64(HALF),
            root: 0,
            minor: false,
            prog,
            next_track: 1,
            graph: g,
            tracks: Vec::new(),
        };
        assert(s@.graph =~= empty_song().graph);
        assert(s@ =~= empty_song());
        s
    }

    pub fn bar_steps(&self) -> (r: usize)
        requires
            self.beats * self.grid <= u32::MAX,
        ensures
            r == self.beats * self.grid,
    {
        (self.beats * self.grid) as usize
    }

    pub fn steps(&self) -> (r: usize)
        requires
            self.beats * self.grid <= u32::MAX,
            self.bars * (self.beats * self.grid) <= usize::MAX,
        ensures
            r == self.bars * (self.beats * self.grid),
    {
        self.bars * self.bar_steps()
    }

    pub fn track_ids(&self) -> (r: Vec<u32>)
        ensures
            r@ == self@.tracks.map_values(|t: TrackView| t.id),
    {
        let mut r: Vec<u32> = Vec::new();
        let mut i: usize = 0;
        while i < self.tracks.len()
            invariant
                i <= self.tracks@.len(),
                r@ =~= self@.tracks.take(i as int).map_values(|t: TrackView| t.id),
            decreases self.tracks@.len() - i,
        {
            r.push(self.tracks[i].id);
            i += 1;
        }
        assert(self@.tracks.take(self@.tracks.len() as int) =~= self@.tracks);
        r
    }

    /// "C major", "F# minor"
    pub fn key_name(&self) -> (r: String)
        ensures
            r@ == key_text(self@),
    {
        let (_, k) = div_mod_euclid(self.root as i64, 12);
        let mut s = String::new();
        push_pc_name(&mut s, k);
        push_char(&mut s, ' ');
        if self.minor {
            push_str(&mut s, "minor");
        } else {
            push_str(&mut s, "major");
        }
        assert(s@ =~= key_text(self@));
        s
    }

    pub fn scale(&self) -> (r: [i32; 7])
        ensures
            r@ == scale_of(self.minor),
    {
        let r = if self.minor { [0i32, 2, 3, 5, 7, 8, 10] } else { [0i32, 2, 4, 5, 7, 9, 11] };
        assert(r@ =~= scale_of(self.minor));
        r
    }
}


impl Song {
    pub fn in_scale(&self, p: i32) -> (r: bool)
        ensures
            r == in_key(self@, p as int),
    {
        self.in_scale_wide(p as i64)
    }

    /// The nearest pitch in the key above (`dir` = 1) or below (`dir` = -1) `p`, looking at most
    /// twelve steps away, kept within the midi range.
    pub fn scale_step(&self, p: i32, dir: i32) -> (r: i32)
        ensures
            r == clamp(walk_key(self@, p as int, dir as int, 12), 0, 127),
    {
        let mut q: i64 = p as i64;
        let mut i: i64 = 0;
        let mut done = false;
        let ghost mut off: int = 0;
        while i < 12 && !done
            invariant
                0 <= i <= 12,
                q == p + off,
                -i * 0x8000_0000 <= off <= i * 0x8000_0000,
                !done ==> walk_key(self@, p as int, dir as int, 12) == walk_key(self@, q as int, dir as int, (12 - i) as nat),
                done ==> walk_key(self@, p as int, dir as int, 12) == q,
            decreases 12 - i,
        {
            q = q + dir as i64;
            proof { off = off + dir; }
            i += 1;
            if self.in_scale_wide(q) {
                done = true;
            }
        }
        if q < 0 { 0 } else if q > 127 { 127 } else { q as i32 }
    }

    fn in_scale_wide(&self, p: i64) -> (r: bool)
        requires
            -0x1_0000_0000_0000 <= p <= 0x1_0000_0000_0000,
        ensures
            r == in_key(self@, p as int),
    {
        let (_, k) = div_mod_euclid(p - self.root as i64, 12);
        assert(k == (p as int - self.root as int) % 12);
        let sc = self.scale();
        let mut i: usize = 0;
        while i < 7
            invariant
                i <= 7,
                sc@ == scale_of(self.minor),
                0 <= k < 12,
                k == (p as int - self@.root) % 12,
                forall|j: int| 0 <= j < i ==> sc@[j] != k,
            decreases 7 - i,
        {
            if sc[i] as i64 == k {
                assert(scale_of(self.minor)[i as int] == k as i32);
                assert(scale_of(self.minor).contains(k as i32));
                return true;
            }
            i += 1;
        }
        assert(!scale_of(self.minor).contains(k as i32));
        false
    }

    pub fn degree_pitch(&self, degree: i32, octave: i32) -> (r: i32)
        requires
            i32::MIN <= degree_pitch_of(self@, degree as int, octave as int) <= i32::MAX,
        ensures
            r == degree_pitch_of(self@, degree as int, octave as int),
    {
        let (q, k) = div_mod_euclid(degree as i64, 7);
        let sc = self.scale();
        proof { lemma_fundamental_div_mod(degree as int, 7); }
        assert(-0x2000_0000 <= q <= 0x2000_0000) by (nonlinear_arith)
            requires
                degree == 7 * q + k,
                0 <= k < 7,
                i32::MIN <= degree <= i32::MAX,
        {
        }
        let v: i64 = 12 * (octave as i64 + 1) + self.root as i64 + sc[k as usize] as i64 + 12 * q;
        v as i32
    }
}


/// `p` on a grid of `new` steps per beat instead of `old`: same place in time, at least one step long.
pub open spec fn regrid(p: PatternView, old: int, new: int) -> PatternView {
    PatternView {
        start: (p.start * new / old) as usize,
        len: if p.len * new / old >= 1 { (p.len * new / old) as usize } else { 1 },
        ..p
    }
}

pub open spec fn regrid_track(t: TrackView, old: int, new: int) -> TrackView {
    TrackView { patterns: t.patterns.map_values(|p: PatternView| regrid(p, old, new)), ..t }
}

/// No pattern of `t` has a start or length that overflows when multiplied by `new`.
pub open spec fn scalable(t: TrackView, new: int) -> bool {
    forall|j: int| #![trigger t.patterns[j]]
        0 <= j < t.patterns.len() ==> t.patterns[j].start * new <= usize::MAX && t.patterns[j].len * new <= usize::MAX
}

/// What `set_grid` needs: a grid to divide by, and no pattern position that overflows when scaled.
pub open spec fn regrid_ok(s: SongView, new: int) -> bool {
    &&& s.grid != 0
    &&& forall|i: int| 0 <= i < s.tracks.len() ==> scalable(#[trigger] s.tracks[i], new)
}

/// The graph once the four TRK nodes (freq, gate, vel, note) of a new track `id` exist.
pub open spec fn track_nodes_added(g: GraphView, id: u32) -> GraphView {
    trk_added(trk_added(trk_added(trk_added(g, id, 0), id, 1), id, 2), id, 3)
}

/// The ids of the TRK nodes that `track` feeds, in graph order.
pub open spec fn trk_ids(ns: Seq<NodeView>, track: u32) -> Seq<u32>
    decreases ns.len(),
{
    if ns.len() == 0 {
        seq![]
    } else {
        let rest = trk_ids(ns.drop_last(), track);
        if ns.last().kind == Kind::Trk && ns.last().track == track { rest.push(ns.last().id) } else { rest }
    }
}

/// `g` after removing the nodes `ids`, one after the other.
pub open spec fn remove_all(g: GraphView, ids: Seq<u32>) -> GraphView
    decreases ids.len(),
{
    if ids.len() == 0 { g } else { remove_spec(remove_all(g, ids.drop_last()), ids.last()) }
}

/// The six nodes of a standard voice for `track`, before it goes to OUT:
/// TRK freq -> OSC saw -> FILT lp -> MATH * ENV(TRK gate) -> MATH * TRK vel -> MATH * 0.3.
pub open spec fn voice_nodes(g: GraphView, track: u32) -> GraphView {
    let f = link_or_zero(id_at(g.nodes, is_trk_of(track, 0)));
    let gt = link_or_zero(id_at(g.nodes, is_trk_of(track, 1)));
    let v = link_or_zero(id_at(g.nodes, is_trk_of(track, 2)));
    let g1 = added(g, Kind::Env, 0, seq![gt, c32(F_0_01), c32(F_0_2), c32(F_0_6), c32(F_0_2)]);
    let g2 = added(g1, Kind::Osc, 1, seq![f, c32(F_0_5)]);
    let g3 = added(g2, Kind::Filt, 0, seq![Input::Link(g1.next_id), c32(F_1500), c32(F_0_7)]);
    let g4 = added(g3, Kind::Math, 2, seq![Input::Link(g2.next_id), Input::Link(g.next_id)]);
    let g5 = added(g4, Kind::Math, 2, seq![Input::Link(g3.next_id), v]);
    added(g5, Kind::Math, 2, seq![Input::Link(g4.next_id), c32(F_0_3)])
}

pub open spec fn c32(b: u32) -> Input {
    Input::Const(Bits32(b))
}

/// 1500.0 as an `f32`
pub const F_1500: u32 = 0x44bb_8000u32;

impl Song {
    pub fn chord(&self, degree: i32, octave: i32, n: usize) -> (r: Vec<i32>)
        requires
            n <= i32::MAX,
            n > 0 ==> degree + 2 * (n - 1) <= i32::MAX,
            forall|i: int| 0 <= i < n ==> i32::MIN <= #[trigger] degree_pitch_of(self@, degree + 2 * i, octave as int) <= i32::MAX,
        ensures
            r@ == chord_of(self@, degree as int, octave as int, n as int),
    {
        let mut r: Vec<i32> = Vec::new();
        let mut i: usize = 0;
        while i < n
            invariant
                i <= n,
                n <= i32::MAX,
                n > 0 ==> degree + 2 * (n - 1) <= i32::MAX,
                forall|i: int| 0 <= i < n ==> i32::MIN <= #[trigger] degree_pitch_of(self@, degree + 2 * i, octave as int) <= i32::MAX,
                r@ =~= chord_of(self@, degree as int, octave as int, i as int),
            decreases n - i,
        {
            let d = (degree as i64 + 2 * (i as i64)) as i32;
            assert(degree_pitch_of(self@, degree + 2 * i, octave as int) == degree_pitch_of(self@, d as int, octave as int));
            r.push(self.degree_pitch(d, octave));
            i += 1;
        }
        r
    }

    pub fn bar_chord(&self, bar: usize) -> (r: i32)
        requires
            self@.prog.len() > 0 ==> self@.prog[bar as int % self@.prog.len() as int] > i32::MIN,
        ensures
            r == bar_chord_of(self@, bar as int),
    {
        if self.prog.len() == 0 { 0 } else { self.prog[bar % self.prog.len()] - 1 }
    }

    /// change grid resolution, keeping patterns where they are in time
    pub fn set_grid(&mut self, grid: u32)
        requires
            regrid_ok(old(self)@, grid as int),
        ensures
            final(self)@ == (SongView {
                grid,
                tracks: old(self)@.tracks.map_values(|t: TrackView| regrid_track(t, old(self).grid as int, grid as int)),
                ..old(self)@
            }),
    {
        let ghost s0 = self@;
        let old_g = self.grid as usize;
        let new_g = grid as usize;
        let mut i: usize = 0;
        while i < self.tracks.len()
            invariant
                i <= self.tracks@.len(),
                self.tracks@.len() == s0.tracks.len(),
                old_g == s0.grid,
                new_g == grid,
                regrid_ok(s0, grid as int),
                self@ == (SongView { tracks: self@.tracks, ..s0 }),
                forall|k: int| 0 <= k < i ==> #[trigger] self@.tracks[k] == regrid_track(s0.tracks[k], old_g as int, new_g as int),
                forall|k: int| i <= k < s0.tracks.len() ==> #[trigger] self@.tracks[k] == s0.tracks[k],
            decreases s0.tracks.len() - i,
        {
            let ghost before = self@.tracks;
            assert(scalable(s0.tracks[i as int], new_g as int));
            assert(self.tracks@[i as int]@ == self@.tracks[i as int]);
            self.tracks[i].regrid(old_g, new_g);
            assert(self@.tracks =~= before.update(i as int, regrid_track(s0.tracks[i as int], old_g as int, new_g as int)));
            i += 1;
        }
        self.grid = grid;
        assert(self@.tracks =~= s0.tracks.map_values(|t: TrackView| regrid_track(t, s0.grid as int, grid as int)));
    }
}

impl Track {
    fn regrid(&mut self, old_g: usize, new_g: usize)
        requires
            old_g != 0,
            scalable(old(self)@, new_g as int),
        ensures
            final(self)@ == regrid_track(old(self)@, old_g as int, new_g as int),
    {
        let ghost t0 = self@;
        let mut j: usize = 0;
        while j < self.patterns.len()
            invariant
                old_g != 0,
                j <= self.patterns@.len(),
                self.patterns@.len() == t0.patterns.len(),
                scalable(t0, new_g as int),
                self@ == (TrackView { patterns: self@.patterns, ..t0 }),
                forall|m: int| 0 <= m < j ==> #[trigger] self@.patterns[m] == regrid(t0.patterns[m], old_g as int, new_g as int),
                forall|m: int| j <= m < t0.patterns.len() ==> #[trigger] self@.patterns[m] == t0.patterns[m],
            decreases t0.patterns.len() - j,
        {
            let ghost before = self@.patterns;
            let ghost pe = self.patterns@;
            assert(self@.patterns[j as int] == pe[j as int]@);
            assert(t0.patterns[j as int].start * new_g <= usize::MAX);
            self.patterns[j].regrid(old_g, new_g);
            assert(self@.patterns =~= before.update(j as int, regrid(t0.patterns[j as int], old_g as int, new_g as int)));
            j += 1;
        }
        assert(self@ =~= regrid_track(t0, old_g as int, new_g as int));
    }
}

impl Pattern {
    fn regrid(&mut self, old_g: usize, new_g: usize)
        requires
            old_g != 0,
            old(self).start * new_g <= usize::MAX,
            old(self).len * new_g <= usize::MAX,
        ensures
            final(self)@ == regrid(old(self)@, old_g as int, new_g as int),
    {
        let ns = self.start * new_g / old_g;
        let nl0 = self.len * new_g / old_g;
        self.start = ns;
        self.len = if nl0 >= 1 { nl0 } else { 1 };
    }
}

impl Song {
    /// A new empty track `name`, with its four TRK nodes (freq, gate, vel, note) in the graph.
    /// Returns its index.
    pub fn add_track(&mut self, name: &str) -> (r: usize)
        requires
            old(self).next_track < u32::MAX,
            old(self).graph.next_id + 4 <= u32::MAX,
        ensures
            r == old(self)@.tracks.len(),
            final(self)@ == (SongView {
                next_track: (old(self).next_track + 1) as u32,
                graph: track_nodes_added(old(self)@.graph, old(self).next_track),
                tracks: old(self)@.tracks.push(TrackView { id: old(self).next_track, name: name@, patterns: seq![], mute: false }),
                ..old(self)@
            }),
    {
        let ghost s0 = self@;
        let id = self.next_track;
        self.next_track = self.next_track + 1;
        let mut var: usize = 0;
        while var < 4
            invariant
                var <= 4,
                s0.graph.next_id + 4 <= u32::MAX,
                self.graph.next_id == s0.graph.next_id + var,
                self@ == (SongView { next_track: (s0.next_track + 1) as u32, graph: self@.graph, ..s0 }),
                id == s0.next_track,
                var == 0 ==> self@.graph == s0.graph,
                var == 1 ==> self@.graph == trk_added(s0.graph, id, 0),
                var == 2 ==> self@.graph == trk_added(trk_added(s0.graph, id, 0), id, 1),
                var == 3 ==> self@.graph == trk_added(trk_added(trk_added(s0.graph, id, 0), id, 1), id, 2),
                var == 4 ==> self@.graph == track_nodes_added(s0.graph, id),
            decreases 4 - var,
        {
            self.graph.add_trk(id, var);
            var += 1;
        }
        let t = Track { id, name: String::from_str(name), patterns: Vec::new(), mute: false };
        assert(t@.patterns =~= seq![]);
        let ghost before = self@.tracks;
        self.tracks.push(t);
        assert(self@.tracks =~= before.push(TrackView { id, name: name@, patterns: seq![], mute: false }));
        self.tracks.len() - 1
    }

    /// Delete track `t` and the TRK nodes it feeds (their consumers get rewired as `Graph::remove` does).
    pub fn remove_track(&mut self, t: usize)
        requires
            t < old(self)@.tracks.len(),
        ensures
            final(self)@ == (SongView {
                graph: remove_all(old(self)@.graph, trk_ids(old(self)@.graph.nodes, old(self)@.tracks[t as int].id)),
                tracks: old(self)@.tracks.remove(t as int),
                ..old(self)@
            }),
    {
        let ghost s0 = self@;
        let id = self.tracks[t].id;
        let mut ids: Vec<u32> = Vec::new();
        let mut i: usize = 0;
        while i < self.graph.nodes.len()
            invariant
                i <= self.graph@.nodes.len(),
                self@ == s0,
                ids@ == trk_ids(s0.graph.nodes.take(i as int), id),
            decreases self.graph@.nodes.len() - i,
        {
            let n = &self.graph.nodes[i];
            assert(s0.graph.nodes.take(i + 1).drop_last() =~= s0.graph.nodes.take(i as int));
            assert(s0.graph.nodes[i as int] == self.graph.nodes@[i as int]@);
            if n.kind == Kind::Trk && n.track == id {
                ids.push(n.id);
            }
            i += 1;
        }
        assert(s0.graph.nodes.take(s0.graph.nodes.len() as int) =~= s0.graph.nodes);
        let mut j: usize = 0;
        while j < ids.len()
            invariant
                j <= ids@.len(),
                ids@ == trk_ids(s0.graph.nodes, id),
                self@ == (SongView { graph: remove_all(s0.graph, ids@.take(j as int)), ..s0 }),
            decreases ids@.len() - j,
        {
            assert(ids@.take(j + 1).drop_last() =~= ids@.take(j as int));
            self.graph.remove(ids[j]);
            j += 1;
        }
        assert(ids@.take(ids@.len() as int) =~= ids@);
        let ghost before = self@.tracks;
        self.tracks.remove(t);
        assert(self@.tracks =~= before.remove(t as int));
    }

    /// a standard playable voice for track t: TRK freq -> OSC saw -> FILT lp -> * ENV(gate) -> * vel -> * 0.3 -> OUT
    pub fn add_voice(&mut self, t: usize) -> (gain: u32)
        requires
            t < old(self)@.tracks.len(),
            old(self).graph.next_id + 5 < u32::MAX,
            to_out_ok(voice_nodes(old(self)@.graph, old(self)@.tracks[t as int].id), (old(self).graph.next_id + 5) as u32),
        ensures
            gain == old(self).graph.next_id + 5,
            final(self)@ == (SongView {
                graph: to_out_spec(voice_nodes(old(self)@.graph, old(self)@.tracks[t as int].id), gain).0,
                ..old(self)@
            }),
    {
        let ghost s0 = self@;
        let id = self.tracks[t].id;
        let g = &mut self.graph;
        let f = link_or_zero_exec(g.find_trk(id, 0));
        let gt = link_or_zero_exec(g.find_trk(id, 1));
        let v = link_or_zero_exec(g.find_trk(id, 2));
        proof {
            broadcast use crate::graph::lemma_position;
        }
        assert(f == link_or_zero(id_at(s0.graph.nodes, is_trk_of(id, 0))));
        assert(gt == link_or_zero(id_at(s0.graph.nodes, is_trk_of(id, 1))));
        assert(v == link_or_zero(id_at(s0.graph.nodes, is_trk_of(id, 2))));
        let env = g.add(Kind::Env, 0, vec![gt, Input::Const(Bits32(F_0_01)), Input::Const(Bits32(F_0_2)), Input::Const(Bits32(F_0_6)), Input::Const(Bits32(F_0_2))]);
        let osc = g.add(Kind::Osc, 1, vec![f, Input::Const(Bits32(F_0_5))]);
        let flt = g.add(Kind::Filt, 0, vec![Input::Link(osc), Input::Const(Bits32(F_1500)), Input::Const(Bits32(F_0_7))]);
        let amp = g.add(Kind::Math, 2, vec![Input::Link(flt), Input::Link(env)]);
        let vel = g.add(Kind::Math, 2, vec![Input::Link(amp), v]);
        let gain = g.add(Kind::Math, 2, vec![Input::Link(vel), Input::Const(Bits32(F_0_3))]);
        assert(g@ =~= voice_nodes(s0.graph, id));
        g.to_out(gain);
        gain
    }
}


/// Every pattern's end fits in a `usize`.
pub open spec fn ends_fit(ps: Seq<PatternView>) -> bool {
    forall|i: int| 0 <= i < ps.len() ==> pat_end(#[trigger] ps[i]) <= usize::MAX
}

/// The first pattern, from index `i` on, that covers `step`, and which repetition of it does.
pub open spec fn pat_at_from(ps: Seq<PatternView>, step: int, i: int) -> Option<(int, int)>
    decreases ps.len() - i,
{
    if i < 0 || i >= ps.len() {
        None
    } else {
        match rep_of(ps[i], step) {
            Some(k) => Some((i, k)),
            None => pat_at_from(ps, step, i + 1),
        }
    }
}

/// No pattern but `ignore` overlaps the steps `a..b`.
pub open spec fn free_of(ps: Seq<PatternView>, a: int, b: int, ignore: Option<int>) -> bool {
    forall|i: int| 0 <= i < ps.len() ==> ignore == Some(i) || pat_end(#[trigger] ps[i]) <= a || ps[i].start >= b
}

/// `s` with the patterns of track `t` replaced by `ps`.
pub open spec fn with_patterns(s: SongView, t: int, ps: Seq<PatternView>) -> SongView {
    SongView { tracks: s.tracks.update(t, TrackView { patterns: ps, ..s.tracks[t] }), ..s }
}

pub open spec fn song_steps(s: SongView) -> int {
    s.bars * (s.beats * s.grid)
}

/// The song's length in steps fits in a `usize`.
pub open spec fn steps_fit(s: SongView) -> bool {
    s.beats * s.grid <= u32::MAX && s.bars * (s.beats * s.grid) <= usize::MAX
}

/// The patterns after `detach_at`, when the step falls on repetition `k > 0` of pattern `i`:
/// the pattern keeps its first `k` plays, the copy under the step becomes a pattern of its own,
/// and the plays after it (if any) become another.
pub open spec fn detached(ps: Seq<PatternView>, i: int, k: int) -> Seq<PatternView> {
    let p = ps[i];
    let copy = PatternView { start: (p.start + k * p.len) as usize, reps: 1, ..p };
    let tail = PatternView { start: (p.start + (k + 1) * p.len) as usize, reps: (p.reps - k - 1) as usize, ..p };
    let ps2 = ps.update(i, PatternView { reps: k as usize, ..p }).push(copy);
    if p.reps - k - 1 > 0 { ps2.push(tail) } else { ps2 }
}

impl Track {
    fn set_reps(&mut self, i: usize, reps: usize)
        requires
            i < old(self)@.patterns.len(),
        ensures
            final(self)@ == (TrackView {
                patterns: old(self)@.patterns.update(i as int, PatternView { reps, ..old(self)@.patterns[i as int] }),
                ..old(self)@
            }),
    {
        let ghost before = self@.patterns;
        self.patterns[i].reps = reps;
        assert(self@.patterns =~= before.update(i as int, PatternView { reps, ..before[i as int] }));
    }

    fn set_start(&mut self, i: usize, start: usize)
        requires
            i < old(self)@.patterns.len(),
        ensures
            final(self)@ == (TrackView {
                patterns: old(self)@.patterns.update(i as int, PatternView { start, ..old(self)@.patterns[i as int] }),
                ..old(self)@
            }),
    {
        let ghost before = self@.patterns;
        self.patterns[i].start = start;
        assert(self@.patterns =~= before.update(i as int, PatternView { start, ..before[i as int] }));
    }

    fn set_len(&mut self, i: usize, len: usize)
        requires
            i < old(self)@.patterns.len(),
        ensures
            final(self)@ == (TrackView {
                patterns: old(self)@.patterns.update(i as int, PatternView { len, ..old(self)@.patterns[i as int] }),
                ..old(self)@
            }),
    {
        let ghost before = self@.patterns;
        self.patterns[i].len = len;
        assert(self@.patterns =~= before.update(i as int, PatternView { len, ..before[i as int] }));
    }

    fn push_pattern(&mut self, p: Pattern)
        ensures
            final(self)@ == (TrackView { patterns: old(self)@.patterns.push(p@), ..old(self)@ }),
    {
        let ghost before = self@.patterns;
        self.patterns.push(p);
        assert(self@.patterns =~= before.push(p@));
    }

    fn remove_pattern(&mut self, i: usize)
        requires
            i < old(self)@.patterns.len(),
        ensures
            final(self)@ == (TrackView { patterns: old(self)@.patterns.remove(i as int), ..old(self)@ }),
    {
        let ghost before = self@.patterns;
        self.patterns.remove(i);
        assert(self@.patterns =~= before.remove(i as int));
    }
}

impl Song {
    /// The pattern of track `t` under `step`, and which of its repetitions (0 = the original) is there.
    pub fn pat_at(&self, t: usize, step: usize) -> (r: Option<(usize, usize)>)
        requires
            t < self@.tracks.len(),
            ends_fit(self@.tracks[t as int].patterns),
        ensures
            r matches Some((i, k)) ==> pat_at_from(self@.tracks[t as int].patterns, step as int, 0) == Some((i as int, k as int)),
            r is None ==> pat_at_from(self@.tracks[t as int].patterns, step as int, 0) is None,
    {
        let ghost ps = self@.tracks[t as int].patterns;
        let tr = &self.tracks[t];
        assert(tr@.patterns == ps);
        let mut i: usize = 0;
        while i < tr.patterns.len()
            invariant
                i <= ps.len(),
                tr@.patterns == ps,
                ps == self@.tracks[t as int].patterns,
                ends_fit(ps),
                pat_at_from(ps, step as int, 0) == pat_at_from(ps, step as int, i as int),
            decreases ps.len() - i,
        {
            assert(tr.patterns@[i as int]@ == ps[i as int]);
            assert(pat_end(ps[i as int]) <= usize::MAX);
            match tr.patterns[i].rep_at(step) {
                Some(k) => {
                    assert(pat_at_from(ps, step as int, i as int) == Some((i as int, k as int)));
                    return Some((i, k));
                },
                None => {},
            }
            i += 1;
        }
        None
    }

    /// Whether steps `a..b` of track `t` are free of patterns (other than pattern `ignore`).
    pub fn free(&self, t: usize, a: usize, b: usize, ignore: Option<usize>) -> (r: bool)
        requires
            t < self@.tracks.len(),
            ends_fit(self@.tracks[t as int].patterns),
        ensures
            r == free_of(self@.tracks[t as int].patterns, a as int, b as int, match ignore { Some(i) => Some(i as int), None => None }),
    {
        let ghost ps = self@.tracks[t as int].patterns;
        let ghost ig: Option<int> = match ignore { Some(i) => Some(i as int), None => None };
        let tr = &self.tracks[t];
        let mut i: usize = 0;
        while i < tr.patterns.len()
            invariant
                i <= ps.len(),
                tr@.patterns == ps,
                ps == self@.tracks[t as int].patterns,
                ends_fit(ps),
                ig == match ignore { Some(i) => Some(i as int), None => None },
                forall|j: int| 0 <= j < i ==> ig == Some(j) || pat_end(#[trigger] ps[j]) <= a || ps[j].start >= b,
            decreases ps.len() - i,
        {
            assert(tr.patterns@[i as int]@ == ps[i as int]);
            assert(pat_end(ps[i as int]) <= usize::MAX);
            let p = &tr.patterns[i];
            let skip = match ignore { Some(g) => g == i, None => false };
            if !(skip || p.end() <= a || p.start >= b) {
                assert(!(ig == Some(i as int) || pat_end(ps[i as int]) <= a || ps[i as int].start >= b));
                assert(!free_of(ps, a as int, b as int, ig));
                return false;
            }
            i += 1;
        }
        true
    }

    /// A new empty pattern over steps `a..b` of track `t`, if that room is free. Returns its index.
    pub fn new_pattern(&mut self, t: usize, a: usize, b: usize) -> (r: Option<usize>)
        requires
            t < old(self)@.tracks.len(),
            ends_fit(old(self)@.tracks[t as int].patterns),
        ensures
            b <= a || !free_of(old(self)@.tracks[t as int].patterns, a as int, b as int, None) ==> r is None && final(self)@ == old(self)@,
            !(b <= a || !free_of(old(self)@.tracks[t as int].patterns, a as int, b as int, None)) ==> {
                &&& r == Some(old(self)@.tracks[t as int].patterns.len() as usize)
                &&& final(self)@ == with_patterns(old(self)@, t as int,
                    old(self)@.tracks[t as int].patterns.push(PatternView { start: a, len: (b - a) as usize, reps: 1, notes: seq![] }))
            },
    {
        if b <= a || !self.free(t, a, b, None) {
            return None;
        }
        let p = Pattern { start: a, len: b - a, reps: 1, notes: Vec::new() };
        assert(p@.notes =~= seq![]);
        let ghost before = self@.tracks;
        let n = self.tracks[t].patterns.len();
        assert(n == before[t as int].patterns.len());
        self.tracks[t].push_pattern(p);
        assert(self@.tracks =~= before.update(t as int, TrackView { patterns: before[t as int].patterns.push(p@), ..before[t as int] }));
        Some(n)
    }

    pub fn delete_pattern(&mut self, t: usize, i: usize)
        requires
            t < old(self)@.tracks.len(),
            i < old(self)@.tracks[t as int].patterns.len(),
        ensures
            final(self)@ == with_patterns(old(self)@, t as int, old(self)@.tracks[t as int].patterns.remove(i as int)),
    {
        let ghost before = self@.tracks;
        self.tracks[t].remove_pattern(i);
        assert(self@.tracks =~= before.update(t as int, TrackView { patterns: before[t as int].patterns.remove(i as int), ..before[t as int] }));
    }
}


proof fn lemma_rep_bounds(x: int, len: int, n: int)
    requires
        len > 0,
        n >= 1,
        0 <= x < len * n,
    ensures
        0 <= x / len < n,
        (x / len + 1) * len <= len * n,
        (x / len) * len + len <= len * n,
        0 <= (x / len) * len,
{
    lemma_fundamental_div_mod(x, len);
    let q = x / len;
    let r = x % len;
    assert(0 <= q < n) by (nonlinear_arith)
        requires
            x == len * q + r,
            0 <= r < len,
            0 <= x < len * n,
            len > 0,
    ;
    assert((q + 1) * len <= len * n && q * len + len <= len * n && 0 <= q * len) by (nonlinear_arith)
        requires
            q + 1 <= n,
            0 <= q,
            len > 0,
    ;
}

/// The earliest start, among the first `n` patterns other than `skip`, that is at or after `lo`.
pub open spec fn first_start_after(ps: Seq<PatternView>, skip: int, lo: int, n: int) -> Option<int>
    decreases n,
{
    if n <= 0 {
        None
    } else {
        let r = first_start_after(ps, skip, lo, n - 1);
        let j = n - 1;
        if j != skip && ps[j].start >= lo {
            match r {
                Some(m) => if m <= ps[j].start { Some(m) } else { Some(ps[j].start as int) },
                None => Some(ps[j].start as int),
            }
        } else {
            r
        }
    }
}

/// The repetitions `fill_repeat` gives pattern `i`: as many as fit before the next pattern after it
/// starts (or the song ends), at least one.
pub open spec fn fill_reps(ps: Seq<PatternView>, i: int, steps: int) -> int {
    let p = ps[i];
    let lo = p.start + p.len;
    let lim0 = match first_start_after(ps, i, lo, ps.len() as int) {
        Some(m) => m,
        None => steps,
    };
    let lim = if lim0 >= lo { lim0 } else { lo };
    let r = (lim - p.start) / p.len as int;
    if r >= 1 { r } else { 1 }
}

/// The repetitions `end_at` gives pattern `p` so that its last play covers `step`, at least one.
pub open spec fn reps_to(p: PatternView, step: int) -> int {
    let d = if step >= p.start { step - p.start } else { 0 };
    let r = (d + p.len - 1) / p.len as int;
    if r >= 1 { r } else { 1 }
}

/// Whether `move_pattern` can move pattern `i` by `d` steps: it stays in the song and overlaps nothing.
pub open spec fn can_move(s: SongView, t: int, i: int, d: int) -> bool {
    let p = s.tracks[t].patterns[i];
    let ns = p.start + d;
    &&& 0 <= ns
    &&& ns + p.len * p.reps <= song_steps(s)
    &&& free_of(s.tracks[t].patterns, ns, ns + p.len * p.reps, Some(i))
}

/// The length `resize_pattern` tries: `d` steps longer, at least one step.
pub open spec fn resized_len(p: PatternView, d: int) -> int {
    if p.len + d >= 1 { p.len + d } else { 1 }
}

/// Whether `resize_pattern` can give pattern `i` length `resized_len`: it stays in the song and overlaps nothing.
pub open spec fn can_resize(s: SongView, t: int, i: int, d: int) -> bool {
    let p = s.tracks[t].patterns[i];
    let nl = resized_len(p, d);
    &&& p.start + nl * p.reps <= song_steps(s)
    &&& free_of(s.tracks[t].patterns, p.start as int, p.start + nl * p.reps, Some(i))
}

impl Song {
    /// turn repetition k of the pattern at `step` into its own independent pattern
    pub fn detach_at(&mut self, t: usize, step: usize) -> (r: bool)
        requires
            t < old(self)@.tracks.len(),
            ends_fit(old(self)@.tracks[t as int].patterns),
        ensures
            match pat_at_from(old(self)@.tracks[t as int].patterns, step as int, 0) {
                Some((i, k)) if k != 0 => r && final(self)@ == with_patterns(old(self)@, t as int,
                    detached(old(self)@.tracks[t as int].patterns, i, k)),
                _ => !r && final(self)@ == old(self)@,
            },
    {
        let ghost s0 = self@;
        let ghost ps = self@.tracks[t as int].patterns;
        let (i, k) = match self.pat_at(t, step) {
            Some(x) => x,
            None => return false,
        };
        if k == 0 {
            return false;
        }
        proof {
            lemma_pat_at_found(ps, step as int, 0);
        }
        assert(self.tracks@[t as int].patterns@[i as int]@ == ps[i as int]);
        let start = self.tracks[t].patterns[i].start;
        let len = self.tracks[t].patterns[i].len;
        let reps = self.tracks[t].patterns[i].reps;
        proof {
            assert(pat_end(ps[i as int]) <= usize::MAX);
            lemma_rep_bounds(step - start, len as int, plays(ps[i as int]));
        }
        let notes = copy_notes(&self.tracks[t].patterns[i].notes);
        let notes2 = copy_notes(&self.tracks[t].patterns[i].notes);
        let copy = Pattern { start: start + k * len, len, reps: 1, notes };
        let tail = Pattern { start: start + (k + 1) * len, len, reps: reps - k - 1, notes: notes2 };
        let ghost before = self@.tracks;
        self.tracks[t].set_reps(i, k);
        self.tracks[t].push_pattern(copy);
        if reps - k - 1 > 0 {
            self.tracks[t].push_pattern(tail);
        }
        assert(self@.tracks =~= before.update(t as int, TrackView { patterns: detached(ps, i as int, k as int), ..before[t as int] }));
        true
    }
}

impl Song {
    /// repeat until the next pattern on the track (or the end of the song)
    pub fn fill_repeat(&mut self, t: usize, i: usize)
        requires
            t < old(self)@.tracks.len(),
            i < old(self)@.tracks[t as int].patterns.len(),
            old(self)@.tracks[t as int].patterns[i as int].len > 0,
            old(self)@.tracks[t as int].patterns[i as int].start + old(self)@.tracks[t as int].patterns[i as int].len <= usize::MAX,
            steps_fit(old(self)@),
        ensures
            final(self)@ == with_patterns(old(self)@, t as int, old(self)@.tracks[t as int].patterns.update(i as int,
                PatternView {
                    reps: fill_reps(old(self)@.tracks[t as int].patterns, i as int, song_steps(old(self)@)) as usize,
                    ..old(self)@.tracks[t as int].patterns[i as int]
                })),
    {
        let ghost ps = self@.tracks[t as int].patterns;
        let tr = &self.tracks[t];
        assert(tr.patterns@[i as int]@ == ps[i as int]);
        let start = tr.patterns[i].start;
        let len = tr.patterns[i].len;
        let lo = start + len;
        let mut best: Option<usize> = None;
        let mut j: usize = 0;
        while j < tr.patterns.len()
            invariant
                j <= ps.len(),
                tr@.patterns == ps,
                i < ps.len(),
                lo == ps[i as int].start + ps[i as int].len,
                match best {
                    Some(m) => first_start_after(ps, i as int, lo as int, j as int) == Some(m as int),
                    None => first_start_after(ps, i as int, lo as int, j as int) is None,
                },
            decreases ps.len() - j,
        {
            assert(tr.patterns@[j as int]@ == ps[j as int]);
            let st = tr.patterns[j].start;
            if j != i && st >= lo {
                best = match best {
                    Some(m) => if m <= st { Some(m) } else { Some(st) },
                    None => Some(st),
                };
            }
            j += 1;
        }
        let steps = self.steps();
        let lim0 = match best {
            Some(m) => m,
            None => steps,
        };
        let lim = if lim0 >= lo { lim0 } else { lo };
        let r = (lim - start) / len;
        let reps = if r >= 1 { r } else { 1 };
        let ghost before = self@.tracks;
        self.tracks[t].set_reps(i, reps);
        assert(self@.tracks =~= before.update(t as int, TrackView {
            patterns: ps.update(i as int, PatternView { reps, ..ps[i as int] }),
            ..before[t as int]
        }));
    }

    /// make the pattern's last repetition the one that covers `step` (at least one play)
    pub fn end_at(&mut self, t: usize, i: usize, step: usize)
        requires
            t < old(self)@.tracks.len(),
            i < old(self)@.tracks[t as int].patterns.len(),
            old(self)@.tracks[t as int].patterns[i as int].len > 0,
            (if step >= old(self)@.tracks[t as int].patterns[i as int].start {
                step - old(self)@.tracks[t as int].patterns[i as int].start
            } else {
                0
            }) + old(self)@.tracks[t as int].patterns[i as int].len - 1 <= usize::MAX,
        ensures
            final(self)@ == with_patterns(old(self)@, t as int, old(self)@.tracks[t as int].patterns.update(i as int,
                PatternView {
                    reps: reps_to(old(self)@.tracks[t as int].patterns[i as int], step as int) as usize,
                    ..old(self)@.tracks[t as int].patterns[i as int]
                })),
    {
        let ghost ps = self@.tracks[t as int].patterns;
        assert(self.tracks@[t as int].patterns@[i as int]@ == ps[i as int]);
        let start = self.tracks[t].patterns[i].start;
        let len = self.tracks[t].patterns[i].len;
        let d = if step >= start { step - start } else { 0 };
        let r = (d + (len - 1)) / len;
        let reps = if r >= 1 { r } else { 1 };
        let ghost before = self@.tracks;
        self.tracks[t].set_reps(i, reps);
        assert(self@.tracks =~= before.update(t as int, TrackView {
            patterns: ps.update(i as int, PatternView { reps, ..ps[i as int] }),
            ..before[t as int]
        }));
    }

    /// Move pattern `i` by `d` steps if it stays inside the song and overlaps nothing; says whether it moved.
    pub fn move_pattern(&mut self, t: usize, i: usize, d: i64) -> (r: bool)
        requires
            t < old(self)@.tracks.len(),
            i < old(self)@.tracks[t as int].patterns.len(),
            old(self)@.tracks[t as int].patterns[i as int].start <= i64::MAX,
            i64::MIN <= old(self)@.tracks[t as int].patterns[i as int].start + d <= i64::MAX,
            0 <= old(self)@.tracks[t as int].patterns[i as int].start + d ==> {
                let p = old(self)@.tracks[t as int].patterns[i as int];
                &&& p.start + d + p.len * p.reps <= usize::MAX
                &&& steps_fit(old(self)@)
                &&& p.start + d + p.len * p.reps <= song_steps(old(self)@) ==> ends_fit(old(self)@.tracks[t as int].patterns)
            },
        ensures
            r == can_move(old(self)@, t as int, i as int, d as int),
            r ==> final(self)@ == with_patterns(old(self)@, t as int, old(self)@.tracks[t as int].patterns.update(i as int,
                PatternView {
                    start: (old(self)@.tracks[t as int].patterns[i as int].start + d) as usize,
                    ..old(self)@.tracks[t as int].patterns[i as int]
                })),
            !r ==> final(self)@ == old(self)@,
    {
        let ghost ps = self@.tracks[t as int].patterns;
        assert(self.tracks@[t as int].patterns@[i as int]@ == ps[i as int]);
        let start = self.tracks[t].patterns[i].start;
        let len = self.tracks[t].patterns[i].len;
        let reps = self.tracks[t].patterns[i].reps;
        let ns: i64 = start as i64 + d;
        if ns < 0 {
            return false;
        }
        let a = ns as usize;
        proof {
            assert(0 <= len * reps) by (nonlinear_arith)
                requires
                    0 <= len,
                    0 <= reps,
            ;
        }
        let span = len * reps;
        if a + span > self.steps() {
            return false;
        }
        if !self.free(t, a, a + span, Some(i)) {
            return false;
        }
        let ghost before = self@.tracks;
        self.tracks[t].set_start(i, a);
        assert(self@.tracks =~= before.update(t as int, TrackView {
            patterns: ps.update(i as int, PatternView { start: a, ..ps[i as int] }),
            ..before[t as int]
        }));
        true
    }

    /// Make pattern `i` `d` steps longer (at least one step) if it stays inside the song and
    /// overlaps nothing; says whether it changed.
    pub fn resize_pattern(&mut self, t: usize, i: usize, d: i64) -> (r: bool)
        requires
            t < old(self)@.tracks.len(),
            i < old(self)@.tracks[t as int].patterns.len(),
            old(self)@.tracks[t as int].patterns[i as int].len <= i64::MAX,
            i64::MIN <= old(self)@.tracks[t as int].patterns[i as int].len + d <= i64::MAX,
            resized_len(old(self)@.tracks[t as int].patterns[i as int], d as int) <= usize::MAX,
            ({
                let p = old(self)@.tracks[t as int].patterns[i as int];
                p.start + resized_len(p, d as int) * p.reps <= usize::MAX
            }),
            steps_fit(old(self)@),
            ({
                let p = old(self)@.tracks[t as int].patterns[i as int];
                p.start + resized_len(p, d as int) * p.reps <= song_steps(old(self)@)
            }) ==> ends_fit(old(self)@.tracks[t as int].patterns),
        ensures
            r == can_resize(old(self)@, t as int, i as int, d as int),
            r ==> final(self)@ == with_patterns(old(self)@, t as int, old(self)@.tracks[t as int].patterns.update(i as int,
                PatternView {
                    len: resized_len(old(self)@.tracks[t as int].patterns[i as int], d as int) as usize,
                    ..old(self)@.tracks[t as int].patterns[i as int]
                })),
            !r ==> final(self)@ == old(self)@,
    {
        let ghost ps = self@.tracks[t as int].patterns;
        assert(self.tracks@[t as int].patterns@[i as int]@ == ps[i as int]);
        let start = self.tracks[t].patterns[i].start;
        let len = self.tracks[t].patterns[i].len;
        let reps = self.tracks[t].patterns[i].reps;
        assert(len == ps[i as int].len);
        let nl0: i64 = len as i64 + d;
        assert(nl0 == len + d);
        let nl: usize = if nl0 >= 1 { nl0 as usize } else { 1 };
        assert(nl == resized_len(ps[i as int], d as int));
        proof {
            assert(0 <= nl * reps) by (nonlinear_arith)
                requires
                    0 <= nl,
                    0 <= reps,
            ;
        }
        let span = nl * reps;
        if start + span > self.steps() {
            return false;
        }
        if !self.free(t, start, start + span, Some(i)) {
            return false;
        }
        let ghost before = self@.tracks;
        self.tracks[t].set_len(i, nl);
        assert(self@.tracks =~= before.update(t as int, TrackView {
            patterns: ps.update(i as int, PatternView { len: nl, ..ps[i as int] }),
            ..before[t as int]
        }));
        true
    }
}

/// No two patterns of a track overlap in time.
pub open spec fn apart(ps: Seq<PatternView>) -> bool {
    forall|i: int, j: int|
        0 <= i < ps.len() && 0 <= j < ps.len() && i != j ==> pat_end(#[trigger] ps[i]) <= ps[j].start || pat_end(
            #[trigger] ps[j],
        ) <= ps[i].start
}

/// Changing the grid keeps each pattern in its place in time: its new start is the step of the
/// new grid at or just before its old start (exactly its old start when that falls on the new
/// grid), measured in beats.
pub proof fn lemma_regrid_keeps_time(p: PatternView, old: int, new: int)
    requires
        old > 0,
        new > 0,
        p.start * new <= usize::MAX,
    ensures
        regrid(p, old, new).start * old <= p.start * new < (regrid(p, old, new).start + 1) * old,
        (p.start * new) % old == 0 ==> regrid(p, old, new).start * old == p.start * new,
{
    let x = p.start * new;
    assert(x >= 0) by (nonlinear_arith)
        requires
            x == p.start * new,
            p.start >= 0,
            new > 0,
    ;
    lemma_fundamental_div_mod(x, old);
    let q = x / old;
    assert(0 <= q <= x) by (nonlinear_arith)
        requires
            x == old * q + x % old,
            0 <= x % old < old,
            x >= 0,
            old > 0,
    ;
    assert(regrid(p, old, new).start == q);
    assert(q * old <= x < (q + 1) * old) by (nonlinear_arith)
        requires
            x == old * q + x % old,
            0 <= x % old < old,
    ;
    assert(x % old == 0 ==> q * old == x) by (nonlinear_arith)
        requires
            x == old * q + x % old,
    ;
}

/// A pattern that `new_pattern` creates does not overlap the track's other patterns.
pub proof fn lemma_new_pattern_keeps_apart(s: SongView, t: int, a: int, b: int)
    requires
        0 <= t < s.tracks.len(),
        apart(s.tracks[t].patterns),
        0 <= a < b <= usize::MAX,
        free_of(s.tracks[t].patterns, a, b, None),
    ensures
        apart(with_patterns(s, t, s.tracks[t].patterns.push(PatternView { start: a as usize, len: (b - a) as usize, reps: 1, notes: seq![] })).tracks[t].patterns),
{
    let ps = s.tracks[t].patterns;
    let q = PatternView { start: a as usize, len: (b - a) as usize, reps: 1, notes: seq![] };
    let ps2 = ps.push(q);
    assert(with_patterns(s, t, ps2).tracks[t].patterns == ps2);
    assert(plays(q) == 1);
    assert(q.len * 1 == q.len);
    assert(pat_end(q) == b);
    assert forall|i: int, j: int| 0 <= i < ps2.len() && 0 <= j < ps2.len() && i != j implies
        pat_end(#[trigger] ps2[i]) <= ps2[j].start || pat_end(#[trigger] ps2[j]) <= ps2[i].start by {
        if i < ps.len() && j < ps.len() {
            assert(ps2[i] == ps[i] && ps2[j] == ps[j]);
        } else if i < ps.len() {
            assert(ps2[i] == ps[i]);
        } else {
            assert(ps2[j] == ps[j]);
        }
    }
}

/// A pattern that `move_pattern` moves still overlaps no other pattern of its track
/// (when it plays at least once).
pub proof fn lemma_move_keeps_apart(s: SongView, t: int, i: int, d: int)
    requires
        0 <= t < s.tracks.len(),
        0 <= i < s.tracks[t].patterns.len(),
        apart(s.tracks[t].patterns),
        s.tracks[t].patterns[i].reps >= 1,
        steps_fit(s),
        can_move(s, t, i, d),
    ensures
        apart(with_patterns(s, t, s.tracks[t].patterns.update(i,
            PatternView { start: (s.tracks[t].patterns[i].start + d) as usize, ..s.tracks[t].patterns[i] })).tracks[t].patterns),
{
    let ps = s.tracks[t].patterns;
    let p = ps[i];
    let ns = p.start + d;
    assert(0 <= p.len * p.reps) by (nonlinear_arith)
        requires
            0 <= p.len,
            0 <= p.reps,
    ;
    let q = PatternView { start: ns as usize, ..p };
    let ps2 = ps.update(i, q);
    assert(with_patterns(s, t, ps2).tracks[t].patterns == ps2);
    assert(pat_end(q) == ns + p.len * p.reps);
    assert forall|x: int, y: int| 0 <= x < ps2.len() && 0 <= y < ps2.len() && x != y implies
        pat_end(#[trigger] ps2[x]) <= ps2[y].start || pat_end(#[trigger] ps2[y]) <= ps2[x].start by {
        if x != i && y != i {
            assert(ps2[x] == ps[x] && ps2[y] == ps[y]);
        } else if x == i {
            assert(ps2[y] == ps[y]);
        } else {
            assert(ps2[x] == ps[x]);
        }
    }
}

/// A pattern that `resize_pattern` resizes still overlaps no other pattern of its track
/// (when it plays at least once).
pub proof fn lemma_resize_keeps_apart(s: SongView, t: int, i: int, d: int)
    requires
        0 <= t < s.tracks.len(),
        0 <= i < s.tracks[t].patterns.len(),
        apart(s.tracks[t].patterns),
        s.tracks[t].patterns[i].reps >= 1,
        steps_fit(s),
        can_resize(s, t, i, d),
    ensures
        apart(with_patterns(s, t, s.tracks[t].patterns.update(i,
            PatternView { len: resized_len(s.tracks[t].patterns[i], d) as usize, ..s.tracks[t].patterns[i] })).tracks[t].patterns),
{
    let ps = s.tracks[t].patterns;
    let p = ps[i];
    let nl = resized_len(p, d);
    assert(0 <= nl * p.reps && nl <= nl * p.reps) by (nonlinear_arith)
        requires
            1 <= nl,
            1 <= p.reps,
    ;
    let q = PatternView { len: nl as usize, ..p };
    let ps2 = ps.update(i, q);
    assert(with_patterns(s, t, ps2).tracks[t].patterns == ps2);
    assert(pat_end(q) == p.start + nl * p.reps);
    assert forall|x: int, y: int| 0 <= x < ps2.len() && 0 <= y < ps2.len() && x != y implies
        pat_end(#[trigger] ps2[x]) <= ps2[y].start || pat_end(#[trigger] ps2[y]) <= ps2[x].start by {
        if x != i && y != i {
            assert(ps2[x] == ps[x] && ps2[y] == ps[y]);
        } else if x == i {
            assert(ps2[y] == ps[y]);
        } else {
            assert(ps2[x] == ps[x]);
        }
    }
}

proof fn lemma_first_start_after(ps: Seq<PatternView>, skip: int, lo: int, n: int)
    requires
        0 <= n <= ps.len(),
    ensures
        first_start_after(ps, skip, lo, n) matches Some(m) ==> m >= lo && m <= usize::MAX
            && forall|j: int| 0 <= j < n && j != skip && ps[j].start >= lo ==> m <= #[trigger] ps[j].start,
        first_start_after(ps, skip, lo, n) is None ==> forall|j: int| 0 <= j < n && j != skip ==> #[trigger] ps[j].start < lo,
    decreases n,
{
    if n > 0 {
        lemma_first_start_after(ps, skip, lo, n - 1);
    }
}

/// Repeating a pattern with `fill_repeat` never makes it overlap the track's other patterns.
pub proof fn lemma_fill_repeat_keeps_apart(s: SongView, t: int, i: int)
    requires
        0 <= t < s.tracks.len(),
        0 <= i < s.tracks[t].patterns.len(),
        apart(s.tracks[t].patterns),
        s.tracks[t].patterns[i].len > 0,
        s.tracks[t].patterns[i].start + s.tracks[t].patterns[i].len <= usize::MAX,
        steps_fit(s),
    ensures
        apart(with_patterns(s, t, s.tracks[t].patterns.update(i,
            PatternView { reps: fill_reps(s.tracks[t].patterns, i, song_steps(s)) as usize, ..s.tracks[t].patterns[i] })).tracks[t].patterns),
{
    let ps = s.tracks[t].patterns;
    let p = ps[i];
    let steps = song_steps(s);
    let lo = p.start + p.len;
    let reps = fill_reps(ps, i, steps);
    let lim0 = match first_start_after(ps, i, lo, ps.len() as int) {
        Some(m) => m,
        None => steps,
    };
    let lim = if lim0 >= lo { lim0 } else { lo };
    lemma_first_start_after(ps, i, lo, ps.len() as int);
    let r = (lim - p.start) / p.len as int;
    lemma_fundamental_div_mod(lim - p.start, p.len as int);
    assert(p.len * reps <= lim - p.start) by (nonlinear_arith)
        requires
            lim - p.start == p.len * r + (lim - p.start) % (p.len as int),
            0 <= (lim - p.start) % (p.len as int),
            reps == if r >= 1 { r } else { 1 },
            lim >= p.start + p.len,
            p.len > 0,
    ;
    assert(reps >= 1);
    assert(reps <= p.len * reps) by (nonlinear_arith)
        requires
            p.len >= 1,
            reps >= 1,
    ;
    assert(lim <= usize::MAX);
    assert(p.len <= p.len * plays(p)) by (nonlinear_arith)
        requires
            p.len > 0,
            plays(p) >= 1,
    ;
    let q = PatternView { reps: reps as usize, ..p };
    let ps2 = ps.update(i, q);
    assert(with_patterns(s, t, ps2).tracks[t].patterns == ps2);
    assert(pat_end(q) <= lim);
    assert forall|x: int, y: int| 0 <= x < ps2.len() && 0 <= y < ps2.len() && x != y implies
        pat_end(#[trigger] ps2[x]) <= ps2[y].start || pat_end(#[trigger] ps2[y]) <= ps2[x].start by {
        if x != i && y != i {
            assert(ps2[x] == ps[x] && ps2[y] == ps[y]);
        } else {
            let j = if x == i { y } else { x };
            assert(ps2[j] == ps[j]);
            assert(pat_end(ps[i]) <= ps[j].start || pat_end(ps[j]) <= ps[i].start);
            if ps[j].start >= lo {
                assert(ps[j].start >= lim0);
            }
        }
    }
}

/// Whether some pattern of `ps` plays at step `x`.
pub open spec fn covered(ps: Seq<PatternView>, x: int) -> bool {
    exists|i: int| 0 <= i < ps.len() && ps[i].start <= x < pat_end(#[trigger] ps[i])
}

/// Detaching a repetition with `detach_at` changes no step's coverage, and keeps the track's
/// patterns apart from each other.
pub proof fn lemma_detach_keeps_steps(s: SongView, t: int, step: int)
    requires
        0 <= t < s.tracks.len(),
        ends_fit(s.tracks[t].patterns),
        apart(s.tracks[t].patterns),
        pat_at_from(s.tracks[t].patterns, step, 0) matches Some((i, k)) && k != 0,
    ensures
        ({
            let ps = s.tracks[t].patterns;
            let (i, k) = pat_at_from(ps, step, 0).unwrap();
            let ps2 = with_patterns(s, t, detached(ps, i, k)).tracks[t].patterns;
            &&& apart(ps2)
            &&& forall|x: int| covered(ps, x) <==> covered(ps2, x)
        }),
{
    let ps = s.tracks[t].patterns;
    let (i, k) = pat_at_from(ps, step, 0).unwrap();
    lemma_pat_at_found(ps, step, 0);
    let p = ps[i];
    let n = plays(p);
    let st = p.start as int;
    let len = p.len as int;
    assert(ends_fit(ps));
    assert(pat_end(p) <= usize::MAX);
    lemma_rep_bounds(step - st, len, n);
    assert(k < n);
    assert(n == p.reps);
    assert(len * k == k * len && (k + 1) * len == k * len + len && k * len + len + len * (n - k - 1) == len * n
        && 0 <= k * len && k * len + len <= len * n) by (nonlinear_arith)
        requires
            len > 0,
            1 <= k < n,
    ;
    assert(len * (n - k - 1) >= 0 && (n - k - 1 == 0 ==> k * len + len == len * n)) by (nonlinear_arith)
        requires
            len > 0,
            1 <= k < n,
    ;
    let a = PatternView { reps: k as usize, ..p };
    let c = PatternView { start: (st + k * len) as usize, reps: 1, ..p };
    let tl = PatternView { start: (st + (k + 1) * len) as usize, reps: (p.reps - k - 1) as usize, ..p };
    assert(pat_end(a) == st + len * k);
    assert(plays(c) == 1 && len * 1 == len);
    assert(pat_end(c) == st + k * len + len);
    assert(n - k - 1 > 0 ==> pat_end(tl) == st + len * n);
    let ps2 = detached(ps, i, k);
    assert(with_patterns(s, t, ps2).tracks[t].patterns == ps2);
    let m = ps.len() as int;
    assert(ps2.len() == m + 1 || ps2.len() == m + 2);
    assert(ps2[i] == a && ps2[m] == c);
    assert(ps2.len() == m + 2 ==> ps2[m + 1] == tl && n - k - 1 > 0);
    assert(ps2.len() == m + 1 ==> n - k - 1 == 0);
    assert forall|j: int| 0 <= j < m && j != i implies ps2[j] == ps[j] by {}
    // each new piece lies inside the original pattern's span
    assert forall|j: int| 0 <= j < ps2.len() && (j == i || j >= m) implies
        st <= ps2[j].start && pat_end(#[trigger] ps2[j]) <= st + len * n by {}
    assert forall|x: int, y: int| 0 <= x < ps2.len() && 0 <= y < ps2.len() && x != y implies
        pat_end(#[trigger] ps2[x]) <= ps2[y].start || pat_end(#[trigger] ps2[y]) <= ps2[x].start by {
        let xo = !(x == i || x >= m);
        let yo = !(y == i || y >= m);
        if xo && yo {
            assert(pat_end(ps[x]) <= ps[y].start || pat_end(ps[y]) <= ps[x].start);
        } else if xo {
            assert(pat_end(ps[x]) <= ps[i].start || pat_end(ps[i]) <= ps[x].start);
        } else if yo {
            assert(pat_end(ps[y]) <= ps[i].start || pat_end(ps[i]) <= ps[y].start);
        }
    }
    assert forall|x: int| covered(ps, x) <==> covered(ps2, x) by {
        if covered(ps, x) {
            let j = choose|j: int| 0 <= j < ps.len() && ps[j].start <= x < pat_end(#[trigger] ps[j]);
            if j != i {
                assert(ps2[j].start <= x < pat_end(ps2[j]));
            } else if x < st + len * k {
                assert(ps2[i].start <= x < pat_end(ps2[i]));
            } else if x < st + k * len + len {
                assert(ps2[m].start <= x < pat_end(ps2[m]));
            } else {
                assert(ps2.len() == m + 2);
                assert(ps2[m + 1].start <= x < pat_end(ps2[m + 1]));
            }
        }
        if covered(ps2, x) {
            let j = choose|j: int| 0 <= j < ps2.len() && ps2[j].start <= x < pat_end(#[trigger] ps2[j]);
            if j < m && j != i {
                assert(ps[j].start <= x < pat_end(ps[j]));
            } else {
                assert(ps[i].start <= x < pat_end(ps[i]));
            }
        }
    }
}

/// What the patterns `ps` play at step `x`: the notes of the copy that covers it, and how many
/// steps into that copy `x` is.
pub open spec fn sounding(ps: Seq<PatternView>, x: int) -> Option<(Seq<Note>, int)> {
    match pat_at_from(ps, x, 0) {
        Some((j, k)) => Some((ps[j].notes, x - ps[j].start - k * ps[j].len)),
        None => None,
    }
}

/// A pattern covers a step exactly when the step lies in its span.
proof fn lemma_rep_in_span(p: PatternView, x: int)
    ensures
        rep_of(p, x) is Some <==> (p.start <= x < pat_end(p)),
{
    if p.len == 0 {
        assert(p.len * plays(p) == 0) by (nonlinear_arith)
            requires
                p.len == 0,
        ;
    }
}

proof fn lemma_pat_at_none(ps: Seq<PatternView>, x: int, i: int)
    requires
        forall|j: int| 0 <= j < ps.len() ==> rep_of(#[trigger] ps[j], x) is None,
    ensures
        pat_at_from(ps, x, i) is None,
    decreases ps.len() - i,
{
    if 0 <= i < ps.len() {
        lemma_pat_at_none(ps, x, i + 1);
    }
}

/// When no two patterns overlap, the pattern found at a step is the one whose span holds it.
proof fn lemma_pat_at_unique(ps: Seq<PatternView>, x: int, j: int, i: int)
    requires
        apart(ps),
        0 <= i <= j < ps.len(),
        rep_of(ps[j], x) is Some,
    ensures
        pat_at_from(ps, x, i) == Some((j, rep_of(ps[j], x)->0)),
    decreases j - i,
{
    if i < j {
        lemma_rep_in_span(ps[i], x);
        lemma_rep_in_span(ps[j], x);
        assert(rep_of(ps[i], x) is None);
        lemma_pat_at_unique(ps, x, j, i + 1);
    }
}

/// Detaching a copy changes nothing that is heard: at every step the same notes play, at the
/// same point of their copy; and the copy under the cursor becomes an original (repetition 0)
/// of a pattern of its own.
pub proof fn lemma_detach_keeps_sound(s: SongView, t: int, step: int)
    requires
        0 <= t < s.tracks.len(),
        ends_fit(s.tracks[t].patterns),
        apart(s.tracks[t].patterns),
        pat_at_from(s.tracks[t].patterns, step, 0) matches Some((i, k)) && k != 0,
    ensures
        ({
            let ps = s.tracks[t].patterns;
            let (i, k) = pat_at_from(ps, step, 0).unwrap();
            let ps2 = with_patterns(s, t, detached(ps, i, k)).tracks[t].patterns;
            &&& forall|x: int| #[trigger] sounding(ps2, x) == sounding(ps, x)
            &&& pat_at_from(ps2, step, 0) == Some((ps.len() as int, 0int))
        }),
{
    let ps = s.tracks[t].patterns;
    let (i, k) = pat_at_from(ps, step, 0).unwrap();
    lemma_detach_keeps_steps(s, t, step);
    lemma_pat_at_found(ps, step, 0);
    let p = ps[i];
    let n = plays(p);
    let st = p.start as int;
    let len = p.len as int;
    assert(pat_end(p) <= usize::MAX);
    lemma_rep_bounds(step - st, len, n);
    assert(n == p.reps);
    assert((k + 1) * len == k * len + len && len * n == n * len && 0 <= k * len) by (nonlinear_arith)
        requires
            len > 0,
            1 <= k < n,
    ;
    let ps2 = detached(ps, i, k);
    assert(with_patterns(s, t, ps2).tracks[t].patterns == ps2);
    let m = ps.len() as int;
    let c = ps2[m];
    assert(c == PatternView { start: (st + k * len) as usize, reps: 1, ..p });
    assert(pat_end(c) == st + k * len + len) by {
        assert(plays(c) == 1 && len * 1 == len);
    }
    assert(st + k * len <= step < st + k * len + len) by {
        lemma_fundamental_div_mod(step - st, len);
        assert(k == (step - st) / len);
        assert(k * len <= step - st < k * len + len) by (nonlinear_arith)
            requires
                step - st == len * k + (step - st) % len,
                0 <= (step - st) % len < len,
        ;
    }
    lemma_rep_in_span(c, step);
    assert(rep_of(c, step) == Some(0int)) by {
        lemma_fundamental_div_mod_converse(step - (st + k * len), len, 0, step - (st + k * len));
    }
    lemma_pat_at_unique(ps2, step, m, 0);
    assert forall|x: int| #[trigger] sounding(ps2, x) == sounding(ps, x) by {
        lemma_same_sound(ps, i, k, x);
    }
}

/// One step of `lemma_detach_keeps_sound`: the step `x`.
proof fn lemma_same_sound(ps: Seq<PatternView>, i: int, k: int, x: int)
    requires
        ends_fit(ps),
        apart(ps),
        0 <= i < ps.len(),
        1 <= k < plays(ps[i]),
        ps[i].len > 0,
        apart(detached(ps, i, k)),
    ensures
        sounding(detached(ps, i, k), x) == sounding(ps, x),
{
    let p = ps[i];
    let n = plays(p);
    let st = p.start as int;
    let len = p.len as int;
    let m = ps.len() as int;
    let ps2 = detached(ps, i, k);
    assert(pat_end(p) <= usize::MAX);
    assert(n == p.reps);
    assert((k + 1) * len == k * len + len && 0 <= k * len && k * len + len <= n * len && len * n == n * len) by (nonlinear_arith)
        requires
            len > 0,
            1 <= k < n,
    ;
    let a = PatternView { reps: k as usize, ..p };
    let c = PatternView { start: (st + k * len) as usize, reps: 1, ..p };
    let tl = PatternView { start: (st + (k + 1) * len) as usize, reps: (p.reps - k - 1) as usize, ..p };
    assert(ps2[i] == a && ps2[m] == c);
    assert(ps2.len() == m + 2 ==> ps2[m + 1] == tl && n - k - 1 > 0);
    assert(ps2.len() == m + 1 ==> n - k - 1 == 0);
    assert(ps2.len() == m + 1 || ps2.len() == m + 2);
    assert forall|j: int| 0 <= j < m && j != i implies ps2[j] == ps[j] by {}
    if exists|j: int| 0 <= j < ps.len() && rep_of(ps[j], x) is Some {
        let j = choose|j: int| 0 <= j < ps.len() && rep_of(ps[j], x) is Some;
        lemma_pat_at_unique(ps, x, j, 0);
        let q = rep_of(ps[j], x)->0;
        if j != i {
            assert(rep_of(ps2[j], x) == rep_of(ps[j], x));
            lemma_pat_at_unique(ps2, x, j, 0);
        } else {
            lemma_rep_in_span(p, x);
            lemma_fundamental_div_mod(x - st, len);
            let r = (x - st) % len;
            assert(q == (x - st) / len);
            assert(x - st == q * len + r) by (nonlinear_arith)
                requires
                    x - st == len * ((x - st) / len) + (x - st) % len,
                    q == (x - st) / len,
                    r == (x - st) % len,
            ;
            assert(0 <= q < n) by (nonlinear_arith)
                requires
                    x - st == q * len + r,
                    0 <= r < len,
                    0 <= x - st < len * n,
                    len > 0,
            ;
            assert(pat_end(p) == st + len * n);
            if q < k {
                assert(pat_end(a) == st + len * k);
                assert(x < st + len * k) by (nonlinear_arith)
                    requires
                        x - st == q * len + r,
                        r < len,
                        q + 1 <= k,
                        len > 0,
                ;
                lemma_rep_in_span(a, x);
                assert(rep_of(a, x) == Some(q));
                lemma_pat_at_unique(ps2, x, i, 0);
            } else if q == k {
                assert(pat_end(c) == st + k * len + len) by {
                    assert(plays(c) == 1 && len * 1 == len);
                }
                assert(st + k * len <= x < st + k * len + len) by (nonlinear_arith)
                    requires
                        x - st == q * len + r,
                        0 <= r < len,
                        q == k,
                ;
                lemma_rep_in_span(c, x);
                lemma_fundamental_div_mod_converse(x - (st + k * len), len, 0, r);
                assert(rep_of(c, x) == Some(0int));
                lemma_pat_at_unique(ps2, x, m, 0);
                assert(x - c.start - 0 * len == x - st - q * len);
            } else {
                assert(n - k - 1 > 0);
                let q2 = q - k - 1;
                assert(pat_end(tl) == st + len * n) by {
                    assert(plays(tl) == n - k - 1);
                    assert(tl.start + len * (n - k - 1) == st + len * n) by (nonlinear_arith)
                        requires
                            tl.start == st + (k + 1) * len,
                    ;
                }
                assert(x - tl.start == q2 * len + r) by (nonlinear_arith)
                    requires
                        x - st == q * len + r,
                        tl.start == st + (k + 1) * len,
                        q2 == q - k - 1,
                ;
                assert(tl.start <= x) by (nonlinear_arith)
                    requires
                        x - tl.start == q2 * len + r,
                        q2 >= 0,
                        r >= 0,
                        len > 0,
                ;
                lemma_rep_in_span(tl, x);
                lemma_fundamental_div_mod_converse(x - tl.start, len, q2, r);
                assert(rep_of(tl, x) == Some(q2));
                lemma_pat_at_unique(ps2, x, m + 1, 0);
                assert(x - tl.start - q2 * len == x - st - q * len) by (nonlinear_arith)
                    requires
                        x - st == q * len + r,
                        x - tl.start == q2 * len + r,
                ;
            }
        }
    } else {
        lemma_pat_at_none(ps, x, 0);
        assert forall|j: int| 0 <= j < ps2.len() implies rep_of(#[trigger] ps2[j], x) is None by {
            lemma_rep_in_span(ps2[j], x);
            if j < m && j != i {
                lemma_rep_in_span(ps[j], x);
            } else {
                lemma_rep_in_span(p, x);
                assert(rep_of(p, x) is None);
                assert(st <= ps2[j].start && pat_end(ps2[j]) <= st + len * n) by {
                    assert(pat_end(p) == st + len * n);
                    if j == i {
                        assert(pat_end(a) == st + len * k);
                    } else if j == m {
                        assert(plays(c) == 1 && len * 1 == len);
                    } else {
                        assert(plays(tl) == n - k - 1);
                        assert(tl.start + len * (n - k - 1) == st + len * n) by (nonlinear_arith)
                            requires
                                tl.start == st + (k + 1) * len,
                        ;
                    }
                }
            }
        }
        lemma_pat_at_none(ps2, x, 0);
    }
}

/// Every scale degree, in every octave, is a pitch of the song's key.
pub proof fn lemma_degree_in_key(s: SongView, degree: int, octave: int)
    ensures
        in_key(s, degree_pitch_of(s, degree, octave)),
{
    let k = degree % 7;
    let sc = scale_of(s.minor);
    assert(0 <= k < 7);
    let v = degree_pitch_of(s, degree, octave);
    assert(0 <= sc[k] < 12);
    lemma_fundamental_div_mod_converse(v - s.root, 12, octave + 1 + degree / 7, sc[k] as int);
    assert(sc.contains(sc[k]));
}

/// Every note of a chord is a pitch of the song's key.
pub proof fn lemma_chord_in_key(s: SongView, degree: int, octave: int, n: int, i: int)
    requires
        0 <= i < n,
        i32::MIN <= degree_pitch_of(s, degree + 2 * i, octave) <= i32::MAX,
    ensures
        in_key(s, chord_of(s, degree, octave, n)[i] as int),
{
    lemma_degree_in_key(s, degree + 2 * i, octave);
}

/// What `pat_at_from` finds really is a pattern covering the step, at or after `i`.
pub(crate) proof fn lemma_pat_at_found(ps: Seq<PatternView>, step: int, i: int)
    ensures
        pat_at_from(ps, step, i) matches Some((j, k)) ==> i <= j < ps.len() && 0 <= i && rep_of(ps[j], step) == Some(k),
    decreases ps.len() - i,
{
    if 0 <= i < ps.len() && rep_of(ps[i], step) is None {
        lemma_pat_at_found(ps, step, i + 1);
    }
}


fn cst(b: u32) -> (r: Input)
    ensures
        r == Input::Const(Bits32(b)),
{
    Input::Const(Bits32(b))
}

fn note(start: u64, len: u64, pitch: i32, vel: u32) -> (n: Note)
    ensures
        n == (Note { start: Bits64(start), len: Bits64(len), pitch, vel: Bits32(vel) }),
{
    Note { start: Bits64(start), len: Bits64(len), pitch, vel: Bits32(vel) }
}

/// The kinds of the nodes `ns`, in order.
pub open spec fn kind_seq(ns: Seq<NodeView>) -> Seq<Kind> {
    ns.map_values(|n: NodeView| n.kind)
}

fn ins0() -> (v: Vec<Input>)
    ensures
        v@ == Seq::<Input>::empty(),
{
    let v: Vec<Input> = Vec::new();
    assert(v@ =~= Seq::<Input>::empty());
    v
}

fn ins1(a: Input) -> (v: Vec<Input>)
    ensures
        v@ == seq![a],
{
    let mut v: Vec<Input> = Vec::new();
    v.push(a);
    assert(v@ =~= seq![a]);
    v
}

fn ins2(a: Input, b: Input) -> (v: Vec<Input>)
    ensures
        v@ == seq![a, b],
{
    let mut v = ins1(a);
    v.push(b);
    assert(v@ =~= seq![a, b]);
    v
}

fn ins3(a: Input, b: Input, c: Input) -> (v: Vec<Input>)
    ensures
        v@ == seq![a, b, c],
{
    let mut v = ins2(a, b);
    v.push(c);
    assert(v@ =~= seq![a, b, c]);
    v
}

fn ins5(a: Input, b: Input, c: Input, d: Input, e: Input) -> (v: Vec<Input>)
    ensures
        v@ == seq![a, b, c, d, e],
{
    let mut v = ins3(a, b, c);
    v.push(d);
    v.push(e);
    assert(v@ =~= seq![a, b, c, d, e]);
    v
}

/// Append a node (see `Graph::add`).
fn node(gr: &mut Graph, kind: Kind, var: usize, inputs: Vec<Input>) -> (id: u32)
    requires
        old(gr).next_id < u32::MAX,
    ensures
        id == old(gr).next_id,
        final(gr).next_id == id + 1,
        final(gr)@.nodes.len() == old(gr)@.nodes.len() + 1,
        final(gr)@ == added(old(gr)@, kind, var, inputs@),
        kind_seq(final(gr)@.nodes) == kind_seq(old(gr)@.nodes).push(kind),
{
    let ghost g0 = gr@;
    let id = gr.add(kind, var, inputs);
    assert(kind_seq(gr@.nodes) =~= kind_seq(g0.nodes).push(kind));
    id
}

/// Make input `i` of node `id` read `x` (nothing happens if there is no such node or input).
pub(crate) fn wire(gr: &mut Graph, id: u32, i: usize, x: Input)
    ensures
        final(gr)@ == wired(old(gr)@, id, i, x),
        final(gr).next_id == old(gr).next_id,
        final(gr)@.nodes == match find(old(gr)@.nodes, id) {
            Some(j) => if i < old(gr)@.nodes[j].inputs.len() { set_input(old(gr)@.nodes, j, i as int, x) } else { old(gr)@.nodes },
            None => old(gr)@.nodes,
        },
        final(gr)@.nodes.len() == old(gr)@.nodes.len(),
        kind_seq(final(gr)@.nodes) == kind_seq(old(gr)@.nodes),
{
    let ghost g0 = gr@;
    match gr.get_mut(id) {
        Some(n) => {
            if i < n.inputs.len() {
                n.inputs.set(i, x);
            }
        },
        None => {},
    }
    proof {
        if let Some(j) = find(g0.nodes, id) {
            if i < g0.nodes[j].inputs.len() {
                assert(gr@.nodes =~= set_input(g0.nodes, j, i as int, x));
            } else {
                assert(gr@.nodes =~= g0.nodes);
            }
        }
    }
    assert(kind_seq(gr@.nodes) =~= kind_seq(g0.nodes));
}

/// The kinds of the nodes of the demo's lead chain: saw -> env-swept lowpass -> feedback delay.
pub open spec fn lead_kinds() -> Seq<Kind> {
    seq![
        Kind::Osc, Kind::Env, Kind::Math, Kind::Math, Kind::Filt, Kind::Math, Kind::Math, Kind::Math,
        Kind::Delay, Kind::Math, Kind::Math, Kind::Math, Kind::Math
    ]
}

/// The kinds of the nodes of the demo's bass chain: square -> lowpass -> tanh drive.
pub open spec fn bass_kinds() -> Seq<Kind> {
    seq![
        Kind::Osc, Kind::Env, Kind::Math, Kind::Math, Kind::Filt, Kind::Math, Kind::Math, Kind::Shape,
        Kind::Math, Kind::Math
    ]
}

/// The kinds of the nodes of the demo's drum chains: a kick and a hat, each behind a KEY.
pub open spec fn drum_kinds() -> Seq<Kind> {
    seq![
        Kind::Key, Kind::Env, Kind::Math, Kind::Math, Kind::Osc, Kind::Env, Kind::Math, Kind::Math,
        Kind::Shape, Kind::Math, Kind::Key, Kind::Noise, Kind::Filt, Kind::Env, Kind::Math, Kind::Math,
        Kind::Math
    ]
}

/// The kinds of the nodes of the demo's pad chain: two triangles with sample & hold vibrato,
/// smeared through a buffer.
pub open spec fn pad_kinds() -> Seq<Kind> {
    seq![
        Kind::Osc, Kind::Osc, Kind::Noise, Kind::Sh, Kind::Math, Kind::Math, Kind::Math, Kind::Osc,
        Kind::Math, Kind::Env, Kind::Math, Kind::Osc, Kind::Osc, Kind::Buf, Kind::Math, Kind::Math,
        Kind::Filt, Kind::Math, Kind::Math
    ]
}

/// The kinds of the nodes that `demo_graph` appends, in order: the lead, bass, drum and pad
/// chains, then the four MATH + of the master mix.
pub open spec fn demo_chain_kinds() -> Seq<Kind> {
    lead_kinds() + bass_kinds() + drum_kinds() + pad_kinds() + seq![Kind::Math, Kind::Math, Kind::Math, Kind::Math]
}

/// The graph after `wire`: input `i` of the first node with id `id` reads `x`, when there is
/// such a node and input.
pub open spec fn wired(g: GraphView, id: u32, i: usize, x: Input) -> GraphView {
    GraphView {
        nodes: match find(g.nodes, id) {
            Some(j) => if i < g.nodes[j].inputs.len() { set_input(g.nodes, j, i as int, x) } else { g.nodes },
            None => g.nodes,
        },
        ..g
    }
}

/// The demo's lead chain on `g`, and its last node.
#[verifier::opaque]
pub open spec fn lead_graph(g0: GraphView, ids: Seq<u32>) -> (GraphView, u32) {
    let f = link_or_zero(id_at(g0.nodes, is_trk_of(ids[0], 0)));
    let g = link_or_zero(id_at(g0.nodes, is_trk_of(ids[0], 1)));
    let v = link_or_zero(id_at(g0.nodes, is_trk_of(ids[0], 2)));
    let osc = g0.next_id;
    let g1 = added(g0, Kind::Osc, 1, seq![f]);
    let env = g1.next_id;
    let g2 = added(g1, Kind::Env, 0, seq![g, c32(0x3c23d70a), c32(0x3e4ccccd), c32(0x3f000000), c32(0x3e99999a)]);
    let cs = g2.next_id;
    let g3 = added(g2, Kind::Math, 2, seq![Input::Link(env), c32(0x453b8000)]);
    let cut = g3.next_id;
    let g4 = added(g3, Kind::Math, 0, seq![Input::Link(cs), c32(0x43960000)]);
    let flt = g4.next_id;
    let g5 = added(g4, Kind::Filt, 0, seq![Input::Link(osc), Input::Link(cut), c32(0x3f4ccccd)]);
    let amp = g5.next_id;
    let g6 = added(g5, Kind::Math, 2, seq![Input::Link(flt), Input::Link(env)]);
    let dry = g6.next_id;
    let g7 = added(g6, Kind::Math, 2, seq![Input::Link(amp), v]);
    let fbin = g7.next_id;
    let g8 = added(g7, Kind::Math, 0, seq![Input::Link(dry), c32(0x00000000)]);
    let dl = g8.next_id;
    let g9 = added(g8, Kind::Delay, 0, seq![Input::Link(fbin), c32(0x3ec00000)]);
    let fb = g9.next_id;
    let g10 = added(g9, Kind::Math, 2, seq![Input::Link(dl), c32(0x3ecccccd)]);
    let g11 = wired(g10, fbin, 1, Input::Link(fb));
    let wet = g11.next_id;
    let g12 = added(g11, Kind::Math, 2, seq![Input::Link(dl), c32(0x3e99999a)]);
    let lmix = g12.next_id;
    let g13 = added(g12, Kind::Math, 0, seq![Input::Link(dry), Input::Link(wet)]);
    let lead_out = g13.next_id;
    let g14 = added(g13, Kind::Math, 2, seq![Input::Link(lmix), c32(0x3e800000)]);
    (g14, lead_out)
}

/// The demo's bass chain on `g`, and its last node.
#[verifier::opaque]
pub open spec fn bass_graph(g0: GraphView, ids: Seq<u32>) -> (GraphView, u32) {
    let f = link_or_zero(id_at(g0.nodes, is_trk_of(ids[1], 0)));
    let g = link_or_zero(id_at(g0.nodes, is_trk_of(ids[1], 1)));
    let v = link_or_zero(id_at(g0.nodes, is_trk_of(ids[1], 2)));
    let o = g0.next_id;
    let g1 = added(g0, Kind::Osc, 2, seq![f]);
    let a = g1.next_id;
    let g2 = added(g1, Kind::Env, 0, seq![g, c32(0x3ba3d70a), c32(0x3e19999a), c32(0x3e99999a), c32(0x3dcccccd)]);
    let cs = g2.next_id;
    let g3 = added(g2, Kind::Math, 2, seq![Input::Link(a), c32(0x44610000)]);
    let cut = g3.next_id;
    let g4 = added(g3, Kind::Math, 0, seq![Input::Link(cs), c32(0x42c80000)]);
    let fl = g4.next_id;
    let g5 = added(g4, Kind::Filt, 0, seq![Input::Link(o), Input::Link(cut), c32(0x3f99999a)]);
    let am = g5.next_id;
    let g6 = added(g5, Kind::Math, 2, seq![Input::Link(fl), Input::Link(a)]);
    let drv = g6.next_id;
    let g7 = added(g6, Kind::Math, 2, seq![Input::Link(am), c32(0x40000000)]);
    let sat = g7.next_id;
    let g8 = added(g7, Kind::Shape, 0, seq![Input::Link(drv)]);
    let bv = g8.next_id;
    let g9 = added(g8, Kind::Math, 2, seq![Input::Link(sat), v]);
    let bass_out = g9.next_id;
    let g10 = added(g9, Kind::Math, 2, seq![Input::Link(bv), c32(0x3eb33333)]);
    (g10, bass_out)
}

/// The demo's drum chains on `g`, and the last node of each.
#[verifier::opaque]
pub open spec fn drum_graph(g0: GraphView, ids: Seq<u32>) -> (GraphView, (u32, u32)) {
    let g = link_or_zero(id_at(g0.nodes, is_trk_of(ids[2], 1)));
    let v = link_or_zero(id_at(g0.nodes, is_trk_of(ids[2], 2)));
    let note = link_or_zero(id_at(g0.nodes, is_trk_of(ids[2], 3)));
    let kg = g0.next_id;
    let g1 = added(g0, Kind::Key, 0, seq![g, note, c32(0x42700000)]);
    let pe = g1.next_id;
    let g2 = added(g1, Kind::Env, 0, seq![Input::Link(kg), c32(0x3a83126f), c32(0x3d4ccccd), c32(0x00000000), c32(0x3d4ccccd)]);
    let ps = g2.next_id;
    let g3 = added(g2, Kind::Math, 2, seq![Input::Link(pe), c32(0x437a0000)]);
    let pitch = g3.next_id;
    let g4 = added(g3, Kind::Math, 0, seq![Input::Link(ps), c32(0x42480000)]);
    let ko = g4.next_id;
    let g5 = added(g4, Kind::Osc, 0, seq![Input::Link(pitch)]);
    let ka = g5.next_id;
    let g6 = added(g5, Kind::Env, 0, seq![Input::Link(kg), c32(0x3a83126f), c32(0x3e4ccccd), c32(0x00000000), c32(0x3dcccccd)]);
    let km = g6.next_id;
    let g7 = added(g6, Kind::Math, 2, seq![Input::Link(ko), Input::Link(ka)]);
    let kd = g7.next_id;
    let g8 = added(g7, Kind::Math, 2, seq![Input::Link(km), c32(0x40400000)]);
    let ks = g8.next_id;
    let g9 = added(g8, Kind::Shape, 0, seq![Input::Link(kd)]);
    let kick_out = g9.next_id;
    let g10 = added(g9, Kind::Math, 2, seq![Input::Link(ks), c32(0x3f333333)]);
    let hg = g10.next_id;
    let g11 = added(g10, Kind::Key, 0, seq![g, note, c32(0x42780000)]);
    let nz = g11.next_id;
    let g12 = added(g11, Kind::Noise, 0, Seq::<Input>::empty());
    let hf = g12.next_id;
    let g13 = added(g12, Kind::Filt, 1, seq![Input::Link(nz), c32(0x45bb8000), c32(0x3f333333)]);
    let ha = g13.next_id;
    let g14 = added(g13, Kind::Env, 0, seq![Input::Link(hg), c32(0x3a83126f), c32(0x3d4ccccd), c32(0x00000000), c32(0x3ca3d70a)]);
    let hm = g14.next_id;
    let g15 = added(g14, Kind::Math, 2, seq![Input::Link(hf), Input::Link(ha)]);
    let hv = g15.next_id;
    let g16 = added(g15, Kind::Math, 2, seq![Input::Link(hm), v]);
    let hat_out = g16.next_id;
    let g17 = added(g16, Kind::Math, 2, seq![Input::Link(hv), c32(0x3e800000)]);
    (g17, (kick_out, hat_out))
}

/// The demo's pad chain on `g`, and its last node.
#[verifier::opaque]
pub open spec fn pad_graph(g0: GraphView, ids: Seq<u32>) -> (GraphView, u32) {
    let f = link_or_zero(id_at(g0.nodes, is_trk_of(ids[3], 0)));
    let g = link_or_zero(id_at(g0.nodes, is_trk_of(ids[3], 1)));
    let v = link_or_zero(id_at(g0.nodes, is_trk_of(ids[3], 2)));
    let o1 = g0.next_id;
    let g1 = added(g0, Kind::Osc, 3, seq![f]);
    let clk = g1.next_id;
    let g2 = added(g1, Kind::Osc, 2, seq![c32(0x40c00000)]);
    let nz2 = g2.next_id;
    let g3 = added(g2, Kind::Noise, 0, Seq::<Input>::empty());
    let rnd = g3.next_id;
    let g4 = added(g3, Kind::Sh, 0, seq![Input::Link(nz2), Input::Link(clk)]);
    let vib = g4.next_id;
    let g5 = added(g4, Kind::Math, 2, seq![Input::Link(rnd), c32(0x40400000)]);
    let det = g5.next_id;
    let g6 = added(g5, Kind::Math, 2, seq![f, c32(0x3f8147ae)]);
    let f2 = g6.next_id;
    let g7 = added(g6, Kind::Math, 0, seq![Input::Link(det), Input::Link(vib)]);
    let o2 = g7.next_id;
    let g8 = added(g7, Kind::Osc, 3, seq![Input::Link(f2)]);
    let pm = g8.next_id;
    let g9 = added(g8, Kind::Math, 0, seq![Input::Link(o1), Input::Link(o2)]);
    let pe = g9.next_id;
    let g10 = added(g9, Kind::Env, 0, seq![g, c32(0x3e99999a), c32(0x3f000000), c32(0x3f333333), c32(0x3f4ccccd)]);
    let pa = g10.next_id;
    let g11 = added(g10, Kind::Math, 2, seq![Input::Link(pm), Input::Link(pe)]);
    let wph = g11.next_id;
    let g12 = added(g11, Kind::Osc, 5, seq![c32(0x3f000000)]);
    let rph = g12.next_id;
    let g13 = added(g12, Kind::Osc, 5, seq![c32(0x3f07ae14)]);
    let buf = g13.next_id;
    let g14 = added(g13, Kind::Buf, 0, seq![Input::Link(pa), Input::Link(wph), Input::Link(rph), c32(0x3f800000), c32(0x40000000)]);
    let bw = g14.next_id;
    let g15 = added(g14, Kind::Math, 2, seq![Input::Link(buf), c32(0x3f000000)]);
    let ps = g15.next_id;
    let g16 = added(g15, Kind::Math, 0, seq![Input::Link(pa), Input::Link(bw)]);
    let pf = g16.next_id;
    let g17 = added(g16, Kind::Filt, 0, seq![Input::Link(ps), c32(0x44960000), c32(0x3f000000)]);
    let pv = g17.next_id;
    let g18 = added(g17, Kind::Math, 2, seq![Input::Link(pf), v]);
    let pad_out = g18.next_id;
    let g19 = added(g18, Kind::Math, 2, seq![Input::Link(pv), c32(0x3df5c28f)]);
    (g19, pad_out)
}

/// The demo's signal graph built on `g`: the four chains, then the master mix into OUT.
#[verifier::opaque]
pub open spec fn demo_graph_of(g: GraphView, ids: Seq<u32>) -> GraphView {
    let (g1, lead_out) = lead_graph(g, ids);
    let (g2, bass_out) = bass_graph(g1, ids);
    let (g3, outs) = drum_graph(g2, ids);
    let (kick_out, hat_out) = outs;
    let (g4, pad_out) = pad_graph(g3, ids);
    let m1 = g4.next_id;
    let g5 = added(g4, Kind::Math, 0, seq![Input::Link(lead_out), Input::Link(bass_out)]);
    let m2 = g5.next_id;
    let g6 = added(g5, Kind::Math, 0, seq![Input::Link(m1), Input::Link(kick_out)]);
    let m3 = g6.next_id;
    let g7 = added(g6, Kind::Math, 0, seq![Input::Link(m2), Input::Link(hat_out)]);
    let m4 = g7.next_id;
    let g8 = added(g7, Kind::Math, 0, seq![Input::Link(m3), Input::Link(pad_out)]);
    match crate::graph::id_at(g8.nodes, crate::graph::is_out()) {
        Some(out) => wired(g8, out, 0, Input::Link(m4)),
        None => g8,
    }
}

/// The lead chain; returns its last node.
fn lead_chain(gr: &mut Graph, ids: &Vec<u32>) -> (out: u32)
    requires
        ids@.len() == 4,
        old(gr).next_id + 13 < u32::MAX,
    ensures
        (final(gr)@, out) == lead_graph(old(gr)@, ids@),
        final(gr).next_id == old(gr).next_id + 13,
        final(gr)@.nodes.len() == old(gr)@.nodes.len() + 13,
        kind_seq(final(gr)@.nodes) == kind_seq(old(gr)@.nodes) + lead_kinds(),
{
    proof {
        broadcast use crate::graph::lemma_position;
        reveal(lead_graph);
    }
    let ghost k0 = kind_seq(gr@.nodes);
    let f = link_or_zero_exec(gr.find_trk(ids[0], 0));
    let g = link_or_zero_exec(gr.find_trk(ids[0], 1));
    let v = link_or_zero_exec(gr.find_trk(ids[0], 2));
    let osc = node(gr, Kind::Osc, 1, ins1(f));
    let env = node(gr, Kind::Env, 0, ins5(g, cst(0x3c23d70a), cst(0x3e4ccccd), cst(0x3f000000), cst(0x3e99999a)));
    let cs = node(gr, Kind::Math, 2, ins2(Input::Link(env), cst(0x453b8000)));
    let cut = node(gr, Kind::Math, 0, ins2(Input::Link(cs), cst(0x43960000)));
    let flt = node(gr, Kind::Filt, 0, ins3(Input::Link(osc), Input::Link(cut), cst(0x3f4ccccd)));
    let amp = node(gr, Kind::Math, 2, ins2(Input::Link(flt), Input::Link(env)));
    let dry = node(gr, Kind::Math, 2, ins2(Input::Link(amp), v));
    let fbin = node(gr, Kind::Math, 0, ins2(Input::Link(dry), cst(0x00000000)));
    let dl = node(gr, Kind::Delay, 0, ins2(Input::Link(fbin), cst(0x3ec00000)));
    let fb = node(gr, Kind::Math, 2, ins2(Input::Link(dl), cst(0x3ecccccd)));
    wire(gr, fbin, 1, Input::Link(fb));
    let wet = node(gr, Kind::Math, 2, ins2(Input::Link(dl), cst(0x3e99999a)));
    let lmix = node(gr, Kind::Math, 0, ins2(Input::Link(dry), Input::Link(wet)));
    let lead_out = node(gr, Kind::Math, 2, ins2(Input::Link(lmix), cst(0x3e800000)));
    assert(kind_seq(gr@.nodes) =~= k0 + lead_kinds());
    lead_out
}

/// The bass chain; returns its last node.
fn bass_chain(gr: &mut Graph, ids: &Vec<u32>) -> (out: u32)
    requires
        ids@.len() == 4,
        old(gr).next_id + 10 < u32::MAX,
    ensures
        (final(gr)@, out) == bass_graph(old(gr)@, ids@),
        final(gr).next_id == old(gr).next_id + 10,
        final(gr)@.nodes.len() == old(gr)@.nodes.len() + 10,
        kind_seq(final(gr)@.nodes) == kind_seq(old(gr)@.nodes) + bass_kinds(),
{
    proof {
        broadcast use crate::graph::lemma_position;
        reveal(bass_graph);
    }
    let ghost k0 = kind_seq(gr@.nodes);
    let f = link_or_zero_exec(gr.find_trk(ids[1], 0));
    let g = link_or_zero_exec(gr.find_trk(ids[1], 1));
    let v = link_or_zero_exec(gr.find_trk(ids[1], 2));
    let o = node(gr, Kind::Osc, 2, ins1(f));
    let a = node(gr, Kind::Env, 0, ins5(g, cst(0x3ba3d70a), cst(0x3e19999a), cst(0x3e99999a), cst(0x3dcccccd)));
    let cs = node(gr, Kind::Math, 2, ins2(Input::Link(a), cst(0x44610000)));
    let cut = node(gr, Kind::Math, 0, ins2(Input::Link(cs), cst(0x42c80000)));
    let fl = node(gr, Kind::Filt, 0, ins3(Input::Link(o), Input::Link(cut), cst(0x3f99999a)));
    let am = node(gr, Kind::Math, 2, ins2(Input::Link(fl), Input::Link(a)));
    let drv = node(gr, Kind::Math, 2, ins2(Input::Link(am), cst(0x40000000)));
    let sat = node(gr, Kind::Shape, 0, ins1(Input::Link(drv)));
    let bv = node(gr, Kind::Math, 2, ins2(Input::Link(sat), v));
    let bass_out = node(gr, Kind::Math, 2, ins2(Input::Link(bv), cst(0x3eb33333)));
    assert(kind_seq(gr@.nodes) =~= k0 + bass_kinds());
    bass_out
}

/// The drum chains: KEY nodes route C4 to the kick chain and D4 to the hat chain.
/// Returns the last node of each.
fn drum_chain(gr: &mut Graph, ids: &Vec<u32>) -> (outs: (u32, u32))
    requires
        ids@.len() == 4,
        old(gr).next_id + 17 < u32::MAX,
    ensures
        (final(gr)@, outs) == drum_graph(old(gr)@, ids@),
        final(gr).next_id == old(gr).next_id + 17,
        final(gr)@.nodes.len() == old(gr)@.nodes.len() + 17,
        kind_seq(final(gr)@.nodes) == kind_seq(old(gr)@.nodes) + drum_kinds(),
{
    proof {
        broadcast use crate::graph::lemma_position;
        reveal(drum_graph);
    }
    let ghost k0 = kind_seq(gr@.nodes);
    let g = link_or_zero_exec(gr.find_trk(ids[2], 1));
    let v = link_or_zero_exec(gr.find_trk(ids[2], 2));
    let note = link_or_zero_exec(gr.find_trk(ids[2], 3));
    let kg = node(gr, Kind::Key, 0, ins3(g, note, cst(0x42700000)));
    let pe = node(gr, Kind::Env, 0, ins5(Input::Link(kg), cst(0x3a83126f), cst(0x3d4ccccd), cst(0x00000000), cst(0x3d4ccccd)));
    let ps = node(gr, Kind::Math, 2, ins2(Input::Link(pe), cst(0x437a0000)));
    let pitch = node(gr, Kind::Math, 0, ins2(Input::Link(ps), cst(0x42480000)));
    let ko = node(gr, Kind::Osc, 0, ins1(Input::Link(pitch)));
    let ka = node(gr, Kind::Env, 0, ins5(Input::Link(kg), cst(0x3a83126f), cst(0x3e4ccccd), cst(0x00000000), cst(0x3dcccccd)));
    let km = node(gr, Kind::Math, 2, ins2(Input::Link(ko), Input::Link(ka)));
    let kd = node(gr, Kind::Math, 2, ins2(Input::Link(km), cst(0x40400000)));
    let ks = node(gr, Kind::Shape, 0, ins1(Input::Link(kd)));
    let kick_out = node(gr, Kind::Math, 2, ins2(Input::Link(ks), cst(0x3f333333)));
    let hg = node(gr, Kind::Key, 0, ins3(g, note, cst(0x42780000)));
    let nz = node(gr, Kind::Noise, 0, ins0());
    let hf = node(gr, Kind::Filt, 1, ins3(Input::Link(nz), cst(0x45bb8000), cst(0x3f333333)));
    let ha = node(gr, Kind::Env, 0, ins5(Input::Link(hg), cst(0x3a83126f), cst(0x3d4ccccd), cst(0x00000000), cst(0x3ca3d70a)));
    let hm = node(gr, Kind::Math, 2, ins2(Input::Link(hf), Input::Link(ha)));
    let hv = node(gr, Kind::Math, 2, ins2(Input::Link(hm), v));
    let hat_out = node(gr, Kind::Math, 2, ins2(Input::Link(hv), cst(0x3e800000)));
    assert(kind_seq(gr@.nodes) =~= k0 + drum_kinds());
    (kick_out, hat_out)
}

/// The pad chain; returns its last node.
fn pad_chain(gr: &mut Graph, ids: &Vec<u32>) -> (out: u32)
    requires
        ids@.len() == 4,
        old(gr).next_id + 19 < u32::MAX,
    ensures
        (final(gr)@, out) == pad_graph(old(gr)@, ids@),
        final(gr).next_id == old(gr).next_id + 19,
        final(gr)@.nodes.len() == old(gr)@.nodes.len() + 19,
        kind_seq(final(gr)@.nodes) == kind_seq(old(gr)@.nodes) + pad_kinds(),
{
    proof {
        broadcast use crate::graph::lemma_position;
        reveal(pad_graph);
    }
    let ghost k0 = kind_seq(gr@.nodes);
    let f = link_or_zero_exec(gr.find_trk(ids[3], 0));
    let g = link_or_zero_exec(gr.find_trk(ids[3], 1));
    let v = link_or_zero_exec(gr.find_trk(ids[3], 2));
    let o1 = node(gr, Kind::Osc, 3, ins1(f));
    let clk = node(gr, Kind::Osc, 2, ins1(cst(0x40c00000)));
    let nz2 = node(gr, Kind::Noise, 0, ins0());
    let rnd = node(gr, Kind::Sh, 0, ins2(Input::Link(nz2), Input::Link(clk)));
    let vib = node(gr, Kind::Math, 2, ins2(Input::Link(rnd), cst(0x40400000)));
    let det = node(gr, Kind::Math, 2, ins2(f, cst(0x3f8147ae)));
    let f2 = node(gr, Kind::Math, 0, ins2(Input::Link(det), Input::Link(vib)));
    let o2 = node(gr, Kind::Osc, 3, ins1(Input::Link(f2)));
    let pm = node(gr, Kind::Math, 0, ins2(Input::Link(o1), Input::Link(o2)));
    let pe = node(gr, Kind::Env, 0, ins5(g, cst(0x3e99999a), cst(0x3f000000), cst(0x3f333333), cst(0x3f4ccccd)));
    let pa = node(gr, Kind::Math, 2, ins2(Input::Link(pm), Input::Link(pe)));
    let wph = node(gr, Kind::Osc, 5, ins1(cst(0x3f000000)));
    let rph = node(gr, Kind::Osc, 5, ins1(cst(0x3f07ae14)));
    let buf = node(gr, Kind::Buf, 0, ins5(Input::Link(pa), Input::Link(wph), Input::Link(rph), cst(0x3f800000), cst(0x40000000)));
    let bw = node(gr, Kind::Math, 2, ins2(Input::Link(buf), cst(0x3f000000)));
    let ps = node(gr, Kind::Math, 0, ins2(Input::Link(pa), Input::Link(bw)));
    let pf = node(gr, Kind::Filt, 0, ins3(Input::Link(ps), cst(0x44960000), cst(0x3f000000)));
    let pv = node(gr, Kind::Math, 2, ins2(Input::Link(pf), v));
    let pad_out = node(gr, Kind::Math, 2, ins2(Input::Link(pv), cst(0x3df5c28f)));
    assert(kind_seq(gr@.nodes) =~= k0 + pad_kinds());
    pad_out
}

/// The demo's signal graph, built onto a graph that already has the four tracks' TRK nodes.
fn demo_graph(gr: &mut Graph, ids: &Vec<u32>)
    requires
        ids@.len() == 4,
        old(gr).next_id + 63 < u32::MAX,
    ensures
        final(gr)@ == demo_graph_of(old(gr)@, ids@),
        final(gr).next_id == old(gr).next_id + 63,
        final(gr)@.nodes.len() == old(gr)@.nodes.len() + 63,
        kind_seq(final(gr)@.nodes) == kind_seq(old(gr)@.nodes) + demo_chain_kinds(),
{
    proof {
        broadcast use crate::graph::lemma_position;
        reveal(demo_graph_of);
    }
    let ghost k0 = kind_seq(gr@.nodes);
    let lead_out = lead_chain(gr, ids);
    let bass_out = bass_chain(gr, ids);
    let (kick_out, hat_out) = drum_chain(gr, ids);
    let pad_out = pad_chain(gr, ids);
    // master mix
    let m1 = node(gr, Kind::Math, 0, ins2(Input::Link(lead_out), Input::Link(bass_out)));
    let m2 = node(gr, Kind::Math, 0, ins2(Input::Link(m1), Input::Link(kick_out)));
    let m3 = node(gr, Kind::Math, 0, ins2(Input::Link(m2), Input::Link(hat_out)));
    let m4 = node(gr, Kind::Math, 0, ins2(Input::Link(m3), Input::Link(pad_out)));
    match gr.out_id() {
        Some(out) => wire(gr, out, 0, Input::Link(m4)),
        None => {},
    }
    assert(kind_seq(gr@.nodes) =~= k0 + demo_chain_kinds());
}

/// The lead melody's pitches, note by note.
pub open spec fn lead_pitches() -> Seq<i32> {
    seq![72, 76, 79, 76, 84, 83, 79, 76, 74, 79, 83, 79, 86, 83, 79, 77, 72, 76, 81, 76, 84, 83, 81, 76, 69, 72, 77, 72, 81, 79, 77, 74i32]
}

/// The bass line's pitches.
pub open spec fn bass_pitches() -> Seq<i32> {
    seq![36, 36, 48, 36, 36, 48i32]
}

/// The drum pattern's pitches (60 = kick, 62 = hat).
pub open spec fn drum_pitches() -> Seq<i32> {
    seq![60, 60, 60, 60, 62, 62, 62, 62i32]
}

/// A note of the demo: start and length in beats and velocity given as bit patterns.
pub open spec fn nt(start: u64, len: u64, pitch: i32, vel: u32) -> Note {
    Note { start: Bits64(start), len: Bits64(len), pitch, vel: Bits32(vel) }
}

/// The lead melody's notes: eighths over four bars, accented on the beat.
pub open spec fn lead_note_seq() -> Seq<Note> {
    seq![
        nt(0x0000000000000000, 0x3fdccccccccccccd, 72, 0x3f800000), nt(0x3fe0000000000000, 0x3fdccccccccccccd, 76, 0x3f400000),
        nt(0x3ff0000000000000, 0x3fdccccccccccccd, 79, 0x3f400000), nt(0x3ff8000000000000, 0x3fdccccccccccccd, 76, 0x3f400000),
        nt(0x4000000000000000, 0x3fdccccccccccccd, 84, 0x3f800000), nt(0x4004000000000000, 0x3fdccccccccccccd, 83, 0x3f400000),
        nt(0x4008000000000000, 0x3fdccccccccccccd, 79, 0x3f400000), nt(0x400c000000000000, 0x3fdccccccccccccd, 76, 0x3f400000),
        nt(0x4010000000000000, 0x3fdccccccccccccd, 74, 0x3f800000), nt(0x4012000000000000, 0x3fdccccccccccccd, 79, 0x3f400000),
        nt(0x4014000000000000, 0x3fdccccccccccccd, 83, 0x3f400000), nt(0x4016000000000000, 0x3fdccccccccccccd, 79, 0x3f400000),
        nt(0x4018000000000000, 0x3fdccccccccccccd, 86, 0x3f800000), nt(0x401a000000000000, 0x3fdccccccccccccd, 83, 0x3f400000),
        nt(0x401c000000000000, 0x3fdccccccccccccd, 79, 0x3f400000), nt(0x401e000000000000, 0x3fdccccccccccccd, 77, 0x3f400000),
        nt(0x4020000000000000, 0x3fdccccccccccccd, 72, 0x3f800000), nt(0x4021000000000000, 0x3fdccccccccccccd, 76, 0x3f400000),
        nt(0x4022000000000000, 0x3fdccccccccccccd, 81, 0x3f400000), nt(0x4023000000000000, 0x3fdccccccccccccd, 76, 0x3f400000),
        nt(0x4024000000000000, 0x3fdccccccccccccd, 84, 0x3f800000), nt(0x4025000000000000, 0x3fdccccccccccccd, 83, 0x3f400000),
        nt(0x4026000000000000, 0x3fdccccccccccccd, 81, 0x3f400000), nt(0x4027000000000000, 0x3fdccccccccccccd, 76, 0x3f400000),
        nt(0x4028000000000000, 0x3fdccccccccccccd, 69, 0x3f800000), nt(0x4029000000000000, 0x3fdccccccccccccd, 72, 0x3f400000),
        nt(0x402a000000000000, 0x3fdccccccccccccd, 77, 0x3f400000), nt(0x402b000000000000, 0x3fdccccccccccccd, 72, 0x3f400000),
        nt(0x402c000000000000, 0x3fdccccccccccccd, 81, 0x3f800000), nt(0x402d000000000000, 0x3fdccccccccccccd, 79, 0x3f400000),
        nt(0x402e000000000000, 0x3fdccccccccccccd, 77, 0x3f400000), nt(0x402f000000000000, 0x3fdccccccccccccd, 74, 0x3f400000)
    ]
}

/// One bar of the bass line.
pub open spec fn bass_note_seq() -> Seq<Note> {
    seq![
        nt(0x0000000000000000, 0x3fd999999999999a, 36, 0x3f666666), nt(0x3fe8000000000000, 0x3fd999999999999a, 36, 0x3f666666),
        nt(0x3ff8000000000000, 0x3fd999999999999a, 48, 0x3f666666), nt(0x4000000000000000, 0x3fd999999999999a, 36, 0x3f666666),
        nt(0x4006000000000000, 0x3fd999999999999a, 36, 0x3f666666), nt(0x400c000000000000, 0x3fd999999999999a, 48, 0x3f666666)
    ]
}

/// One bar of drums: kicks on the beats, hats between.
pub open spec fn drum_note_seq() -> Seq<Note> {
    seq![
        nt(0x0000000000000000, 0x3fd0000000000000, 60, 0x3f800000), nt(0x3ff0000000000000, 0x3fd0000000000000, 60, 0x3f800000),
        nt(0x4000000000000000, 0x3fd0000000000000, 60, 0x3f800000), nt(0x4008000000000000, 0x3fd0000000000000, 60, 0x3f800000),
        nt(0x3fe0000000000000, 0x3fc999999999999a, 62, 0x3f4ccccd), nt(0x3ff8000000000000, 0x3fc999999999999a, 62, 0x3f4ccccd),
        nt(0x4004000000000000, 0x3fc999999999999a, 62, 0x3f4ccccd), nt(0x400c000000000000, 0x3fc999999999999a, 62, 0x3f4ccccd)
    ]
}

/// The pad chord of bar `bar`, held for most of the bar.
pub open spec fn pad_note_seq(bar: int) -> Seq<Note> {
    let c = pad_chord(bar);
    seq![
        nt(0x0000000000000000, 0x400e666666666666, c[0], 0x3f4ccccd),
        nt(0x0000000000000000, 0x400e666666666666, c[1], 0x3f4ccccd),
        nt(0x0000000000000000, 0x400e666666666666, c[2], 0x3f4ccccd)
    ]
}

/// The lead melody: four bars of eighth notes, accented on the beat.
fn lead_notes() -> (v: Vec<Note>)
    ensures
        v@ == lead_note_seq(),
        v@.map_values(|n: Note| n.pitch) == lead_pitches(),
        v@.len() == 32,
{
    let mut v: Vec<Note> = Vec::new();
    v.push(note(0x0000000000000000, 0x3fdccccccccccccd, 72, 0x3f800000));
    v.push(note(0x3fe0000000000000, 0x3fdccccccccccccd, 76, 0x3f400000));
    v.push(note(0x3ff0000000000000, 0x3fdccccccccccccd, 79, 0x3f400000));
    v.push(note(0x3ff8000000000000, 0x3fdccccccccccccd, 76, 0x3f400000));
    v.push(note(0x4000000000000000, 0x3fdccccccccccccd, 84, 0x3f800000));
    v.push(note(0x4004000000000000, 0x3fdccccccccccccd, 83, 0x3f400000));
    v.push(note(0x4008000000000000, 0x3fdccccccccccccd, 79, 0x3f400000));
    v.push(note(0x400c000000000000, 0x3fdccccccccccccd, 76, 0x3f400000));
    v.push(note(0x4010000000000000, 0x3fdccccccccccccd, 74, 0x3f800000));
    v.push(note(0x4012000000000000, 0x3fdccccccccccccd, 79, 0x3f400000));
    v.push(note(0x4014000000000000, 0x3fdccccccccccccd, 83, 0x3f400000));
    v.push(note(0x4016000000000000, 0x3fdccccccccccccd, 79, 0x3f400000));
    v.push(note(0x4018000000000000, 0x3fdccccccccccccd, 86, 0x3f800000));
    v.push(note(0x401a000000000000, 0x3fdccccccccccccd, 83, 0x3f400000));
    v.push(note(0x401c000000000000, 0x3fdccccccccccccd, 79, 0x3f400000));
    v.push(note(0x401e000000000000, 0x3fdccccccccccccd, 77, 0x3f400000));
    v.push(note(0x4020000000000000, 0x3fdccccccccccccd, 72, 0x3f800000));
    v.push(note(0x4021000000000000, 0x3fdccccccccccccd, 76, 0x3f400000));
    v.push(note(0x4022000000000000, 0x3fdccccccccccccd, 81, 0x3f400000));
    v.push(note(0x4023000000000000, 0x3fdccccccccccccd, 76, 0x3f400000));
    v.push(note(0x4024000000000000, 0x3fdccccccccccccd, 84, 0x3f800000));
    v.push(note(0x4025000000000000, 0x3fdccccccccccccd, 83, 0x3f400000));
    v.push(note(0x4026000000000000, 0x3fdccccccccccccd, 81, 0x3f400000));
    v.push(note(0x4027000000000000, 0x3fdccccccccccccd, 76, 0x3f400000));
    v.push(note(0x4028000000000000, 0x3fdccccccccccccd, 69, 0x3f800000));
    v.push(note(0x4029000000000000, 0x3fdccccccccccccd, 72, 0x3f400000));
    v.push(note(0x402a000000000000, 0x3fdccccccccccccd, 77, 0x3f400000));
    v.push(note(0x402b000000000000, 0x3fdccccccccccccd, 72, 0x3f400000));
    v.push(note(0x402c000000000000, 0x3fdccccccccccccd, 81, 0x3f800000));
    v.push(note(0x402d000000000000, 0x3fdccccccccccccd, 79, 0x3f400000));
    v.push(note(0x402e000000000000, 0x3fdccccccccccccd, 77, 0x3f400000));
    v.push(note(0x402f000000000000, 0x3fdccccccccccccd, 74, 0x3f400000));
    assert(v@.map_values(|n: Note| n.pitch) =~= lead_pitches());
    assert(v@ =~= lead_note_seq());
    v
}

/// One bar of bass line; every third note an octave up.
fn bass_notes() -> (v: Vec<Note>)
    ensures
        v@ == bass_note_seq(),
        v@.map_values(|n: Note| n.pitch) == bass_pitches(),
        v@.len() == 6,
{
    let mut v: Vec<Note> = Vec::new();
    v.push(note(0x0000000000000000, 0x3fd999999999999a, 36, 0x3f666666));
    v.push(note(0x3fe8000000000000, 0x3fd999999999999a, 36, 0x3f666666));
    v.push(note(0x3ff8000000000000, 0x3fd999999999999a, 48, 0x3f666666));
    v.push(note(0x4000000000000000, 0x3fd999999999999a, 36, 0x3f666666));
    v.push(note(0x4006000000000000, 0x3fd999999999999a, 36, 0x3f666666));
    v.push(note(0x400c000000000000, 0x3fd999999999999a, 48, 0x3f666666));
    assert(v@.map_values(|n: Note| n.pitch) =~= bass_pitches());
    assert(v@ =~= bass_note_seq());
    v
}

/// One bar of drums: C4 kicks on the beats, D4 hats between.
fn drum_notes() -> (v: Vec<Note>)
    ensures
        v@ == drum_note_seq(),
        v@.map_values(|n: Note| n.pitch) == drum_pitches(),
        v@.len() == 8,
{
    let mut v: Vec<Note> = Vec::new();
    v.push(note(0x0000000000000000, 0x3fd0000000000000, 60, 0x3f800000));
    v.push(note(0x3ff0000000000000, 0x3fd0000000000000, 60, 0x3f800000));
    v.push(note(0x4000000000000000, 0x3fd0000000000000, 60, 0x3f800000));
    v.push(note(0x4008000000000000, 0x3fd0000000000000, 60, 0x3f800000));
    v.push(note(0x3fe0000000000000, 0x3fc999999999999a, 62, 0x3f4ccccd));
    v.push(note(0x3ff8000000000000, 0x3fc999999999999a, 62, 0x3f4ccccd));
    v.push(note(0x4004000000000000, 0x3fc999999999999a, 62, 0x3f4ccccd));
    v.push(note(0x400c000000000000, 0x3fc999999999999a, 62, 0x3f4ccccd));
    assert(v@.map_values(|n: Note| n.pitch) =~= drum_pitches());
    assert(v@ =~= drum_note_seq());
    v
}

/// The pitches of the pad chord held through bar `bar` of the demo: I, V, vi, IV.
pub open spec fn pad_chord(bar: int) -> Seq<i32> {
    if bar == 0 { seq![48i32, 52, 55] } else if bar == 1 { seq![47i32, 50, 55] }
    else if bar == 2 { seq![45i32, 48, 52] } else { seq![45i32, 48, 53] }
}

/// The pad chord held through bar `bar` of the demo.
fn pad_notes(bar: usize) -> (v: Vec<Note>)
    requires
        bar < 4,
    ensures
        v@ == pad_note_seq(bar as int),
        v@.map_values(|n: Note| n.pitch) == pad_chord(bar as int),
{
    let (a, b, c): (i32, i32, i32) = if bar == 0 { (48, 52, 55) } else if bar == 1 { (47, 50, 55) }
        else if bar == 2 { (45, 48, 52) } else { (45, 48, 53) };
    let mut v: Vec<Note> = Vec::new();
    v.push(note(0x0000000000000000, 0x400e666666666666, a, 0x3f4ccccd));
    v.push(note(0x0000000000000000, 0x400e666666666666, b, 0x3f4ccccd));
    v.push(note(0x0000000000000000, 0x400e666666666666, c, 0x3f4ccccd));
    assert(v@.map_values(|n: Note| n.pitch) =~= pad_chord(bar as int));
    assert(v@ =~= pad_note_seq(bar as int));
    v
}

/// Four TRK nodes follow the graph's nodes once a track is added.
proof fn lemma_trk_kinds(g: GraphView, id: u32)
    ensures
        kind_seq(track_nodes_added(g, id).nodes) == kind_seq(g.nodes) + seq![Kind::Trk, Kind::Trk, Kind::Trk, Kind::Trk],
{
    let g1 = trk_added(g, id, 0);
    let g2 = trk_added(g1, id, 1);
    let g3 = trk_added(g2, id, 2);
    let g4 = trk_added(g3, id, 3);
    assert(kind_seq(g1.nodes) =~= kind_seq(g.nodes).push(Kind::Trk));
    assert(kind_seq(g2.nodes) =~= kind_seq(g1.nodes).push(Kind::Trk));
    assert(kind_seq(g3.nodes) =~= kind_seq(g2.nodes).push(Kind::Trk));
    assert(kind_seq(g4.nodes) =~= kind_seq(g3.nodes).push(Kind::Trk));
    assert(kind_seq(g4.nodes) =~= kind_seq(g.nodes) + seq![Kind::Trk, Kind::Trk, Kind::Trk, Kind::Trk]);
}

/// The graph of the demo before its chains are built: OUT and the TRK nodes of tracks 1 to 4.
pub open spec fn demo_base() -> GraphView {
    track_nodes_added(track_nodes_added(track_nodes_added(track_nodes_added(empty_song().graph, 1), 2), 3), 4)
}

/// The kinds of the demo graph's nodes: OUT, the sixteen TRK nodes of its four tracks, then
/// the chains that `demo_graph` builds.
pub open spec fn demo_kinds() -> Seq<Kind> {
    seq![Kind::Out] + Seq::new(16, |i: int| Kind::Trk) + demo_chain_kinds()
}

/// Every kind of node occurs in the demo graph.
proof fn lemma_demo_kinds_cover(k: Kind)
    ensures
        demo_kinds().contains(k),
{
    let d = demo_kinds();
    assert(d.len() == 80);
    let i: int = match k {
        Kind::Out => 0,
        Kind::Trk => 1,
        Kind::Osc => 17,
        Kind::Env => 18,
        Kind::Math => 19,
        Kind::Filt => 21,
        Kind::Delay => 25,
        Kind::Shape => 37,
        Kind::Key => 40,
        Kind::Noise => 51,
        Kind::Sh => 60,
        Kind::Buf => 70,
    };
    assert(d[i] == k);
}

impl Song {
    fn push_pattern(&mut self, t: usize, p: Pattern)
        requires
            t < old(self)@.tracks.len(),
        ensures
            final(self)@ == with_patterns(old(self)@, t as int, old(self)@.tracks[t as int].patterns.push(p@)),
    {
        let ghost before = self@.tracks;
        let ghost pv = p@;
        self.tracks[t].push_pattern(p);
        assert(self@.tracks =~= before.update(t as int, TrackView { patterns: before[t as int].patterns.push(pv), ..before[t as int] }));
    }

    /// The sample project: a lead, a bass, drums and a pad over four bars, wired through a graph
    /// that uses every kind of node.
    pub fn demo() -> (s: Song)
        ensures
            s@.bpm == empty_song().bpm && s@.bars == 4 && s@.beats == 4 && s@.grid == 4,
            s@.swing == empty_song().swing && s@.root == 0 && !s@.minor && s@.prog == empty_song().prog,
            s@.next_track == 5,
            s@.graph.next_id == 80,
            s@.graph.nodes.len() == 80,
            s@.graph == demo_graph_of(demo_base(), seq![1u32, 2, 3, 4]),
            kind_seq(s@.graph.nodes) == demo_kinds(),
            forall|k: Kind| #[trigger] kind_seq(s@.graph.nodes).contains(k),
            s@.tracks.len() == 4,
            s@.tracks[0].name == "lead"@ && s@.tracks[1].name == "bass"@,
            s@.tracks[2].name == "drums"@ && s@.tracks[3].name == "pad"@,
            forall|t: int| 0 <= t < 4 ==> s@.tracks[t].id == t + 1 && !s@.tracks[t].mute,
            s@.tracks[0].patterns.len() == 1,
            s@.tracks[0].patterns[0].start == 0 && s@.tracks[0].patterns[0].len == 64 && s@.tracks[0].patterns[0].reps == 1,
            s@.tracks[0].patterns[0].notes == lead_note_seq(),
            s@.tracks[0].patterns[0].notes.map_values(|n: Note| n.pitch) == lead_pitches(),
            s@.tracks[1].patterns.len() == 1,
            s@.tracks[1].patterns[0].start == 0 && s@.tracks[1].patterns[0].len == 16 && s@.tracks[1].patterns[0].reps == 4,
            s@.tracks[1].patterns[0].notes == bass_note_seq(),
            s@.tracks[1].patterns[0].notes.map_values(|n: Note| n.pitch) == bass_pitches(),
            s@.tracks[2].patterns.len() == 1,
            s@.tracks[2].patterns[0].start == 0 && s@.tracks[2].patterns[0].len == 16 && s@.tracks[2].patterns[0].reps == 4,
            s@.tracks[2].patterns[0].notes == drum_note_seq(),
            s@.tracks[2].patterns[0].notes.map_values(|n: Note| n.pitch) == drum_pitches(),
            s@.tracks[3].patterns.len() == 4,
            forall|b: int| 0 <= b < 4 ==> {
                let p = #[trigger] s@.tracks[3].patterns[b];
                p.start == 16 * b && p.len == 16 && p.reps == 1 && p.notes.map_values(|n: Note| n.pitch) == pad_chord(b)
                    && p.notes == pad_note_seq(b)
            },
    {
        let mut s = Song::empty();
        let ghost g0 = s@.graph;
        let lead = s.add_track("lead");
        let ghost g1 = s@.graph;
        let bass = s.add_track("bass");
        let ghost g2 = s@.graph;
        let drums = s.add_track("drums");
        let ghost g3 = s@.graph;
        let pad = s.add_track("pad");
        let ids = s.track_ids();
        assert(ids@ =~= seq![1u32, 2, 3, 4]);
        assert(s@.graph == demo_base());
        assert(s.graph.next_id == 17 && s@.graph.nodes.len() == 17) by {
            assert(empty_song().graph.nodes.len() == 1);
        }
        proof {
            lemma_trk_kinds(g0, 1);
            lemma_trk_kinds(g1, 2);
            lemma_trk_kinds(g2, 3);
            lemma_trk_kinds(g3, 4);
            assert(kind_seq(g0.nodes) =~= seq![Kind::Out]);
            assert(kind_seq(s@.graph.nodes) =~= seq![Kind::Out] + Seq::new(16, |i: int| Kind::Trk));
        }
        demo_graph(&mut s.graph, &ids);
        let ln = lead_notes();
        s.push_pattern(lead, Pattern { start: 0, len: 64, reps: 1, notes: ln });
        let bn = bass_notes();
        s.push_pattern(bass, Pattern { start: 0, len: 16, reps: 4, notes: bn });
        let dn = drum_notes();
        s.push_pattern(drums, Pattern { start: 0, len: 16, reps: 4, notes: dn });
        let ghost s1 = s@;
        assert(s1.tracks.len() == 4);
        assert(s1.tracks[3].patterns.len() == 0);
        let mut bar: usize = 0;
        while bar < 4
            invariant
                bar <= 4,
                pad == 3,
                s1.tracks.len() == 4,
                s@ == (SongView { tracks: s@.tracks, ..s1 }),
                s@.tracks.len() == 4,
                forall|t: int| 0 <= t < 3 ==> #[trigger] s@.tracks[t] == s1.tracks[t],
                s@.tracks[3] == (TrackView { patterns: s@.tracks[3].patterns, ..s1.tracks[3] }),
                s@.tracks[3].patterns.len() == bar,
                forall|b: int| 0 <= b < bar ==> {
                    let p = #[trigger] s@.tracks[3].patterns[b];
                    p.start == 16 * b && p.len == 16 && p.reps == 1 && p.notes.map_values(|n: Note| n.pitch) == pad_chord(b)
                        && p.notes == pad_note_seq(b)
                },
            decreases 4 - bar,
        {
            let pn = pad_notes(bar);
            s.push_pattern(pad, Pattern { start: bar * 16, len: 16, reps: 1, notes: pn });
            bar += 1;
        }
        assert forall|k: Kind| #[trigger] kind_seq(s@.graph.nodes).contains(k) by {
            lemma_demo_kinds_cover(k);
        }
        s
    }
}


/// `fastrand::usize(0..n)`: an index below `n` drawn from the thread's random generator.
/// The contract claims only that the index is below `n`; which one comes out is left open.
#[verifier::external_body]
fn random_below(n: usize) -> (r: usize)
    requires
        n > 0,
    ensures
        r < n,
{
    fastrand::usize(0..n)
}

/// The pitches of `ps` within a fifth of `prev` (up to 7 semitones away), other than `prev` itself.
pub open spec fn near_of(ps: Seq<i32>, prev: int) -> Seq<i32>
    decreases ps.len(),
{
    if ps.len() == 0 {
        seq![]
    } else {
        let rest = near_of(ps.drop_last(), prev);
        let p = ps.last() as int;
        if -7 <= p - prev <= 7 && p != prev { rest.push(ps.last()) } else { rest }
    }
}

/// The chord tones a random melody over degree `deg` draws from: the triad in the octave
/// below, in `octave`, and in the octave above.
pub open spec fn tone_pool_of(s: SongView, deg: int, octave: int) -> Seq<i32> {
    chord_of(s, deg, octave - 1, 3) + chord_of(s, deg, octave, 3) + chord_of(s, deg, octave + 1, 3)
}

/// The scale a random melody draws from: degrees -7 to 14 around `octave`.
pub open spec fn scale_pool_of(s: SongView, octave: int) -> Seq<i32> {
    Seq::new(22, |i: int| degree_pitch_of(s, i - 7, octave) as i32)
}

/// Every pitch of both pools fits in an `i32`.
pub open spec fn pools_fit(s: SongView, deg: int, octave: int) -> bool {
    &&& i32::MIN < octave < i32::MAX
    &&& deg + 4 <= i32::MAX
    &&& forall|i: int| 0 <= i < 3 ==> i32::MIN <= #[trigger] degree_pitch_of(s, deg + 2 * i, octave - 1) <= i32::MAX
    &&& forall|i: int| 0 <= i < 3 ==> i32::MIN <= #[trigger] degree_pitch_of(s, deg + 2 * i, octave) <= i32::MAX
    &&& forall|i: int| 0 <= i < 3 ==> i32::MIN <= #[trigger] degree_pitch_of(s, deg + 2 * i, octave + 1) <= i32::MAX
    &&& forall|d: int| -7 <= d <= 14 ==> i32::MIN <= #[trigger] degree_pitch_of(s, d, octave) <= i32::MAX
}

impl Song {
    /// The chord tones around `octave` for a random melody over degree `deg`.
    pub fn tone_pool(&self, deg: i32, octave: i32) -> (r: Vec<i32>)
        requires
            pools_fit(self@, deg as int, octave as int),
        ensures
            r@ == tone_pool_of(self@, deg as int, octave as int),
    {
        let mut r = self.chord(deg, octave - 1, 3);
        let mut mid = self.chord(deg, octave, 3);
        let mut hi = self.chord(deg, octave + 1, 3);
        r.append(&mut mid);
        r.append(&mut hi);
        r
    }

    /// The scale from seven degrees below `octave`'s root to fourteen above.
    pub fn scale_pool(&self, octave: i32) -> (r: Vec<i32>)
        requires
            forall|d: int| -7 <= d <= 14 ==> i32::MIN <= #[trigger] degree_pitch_of(self@, d, octave as int) <= i32::MAX,
        ensures
            r@ == scale_pool_of(self@, octave as int),
    {
        let mut r: Vec<i32> = Vec::new();
        let mut d: i32 = -7;
        while d <= 14
            invariant
                -7 <= d <= 15,
                forall|d: int| -7 <= d <= 14 ==> i32::MIN <= #[trigger] degree_pitch_of(self@, d, octave as int) <= i32::MAX,
                r@ =~= scale_pool_of(self@, octave as int).take(d + 7),
            decreases 15 - d,
        {
            r.push(self.degree_pitch(d, octave));
            d += 1;
        }
        r
    }
}

/// The pitches of `pool` within a fifth of `prev` (up to 7 semitones away), other than `prev`.
pub fn near_pitches(pool: &Vec<i32>, prev: i32) -> (near: Vec<i32>)
    ensures
        near@ == near_of(pool@, prev as int),
{
    let mut near: Vec<i32> = Vec::new();
    let mut i: usize = 0;
    while i < pool.len()
        invariant
            i <= pool@.len(),
            near@ == near_of(pool@.take(i as int), prev as int),
        decreases pool@.len() - i,
    {
        let p = pool[i];
        assert(pool@.take(i + 1).drop_last() =~= pool@.take(i as int));
        if (p as i64 - prev as i64) <= 7 && (p as i64 - prev as i64) >= -7 && p != prev {
            near.push(p);
        }
        i += 1;
    }
    assert(pool@.take(pool@.len() as int) =~= pool@);
    near
}

/// How many pitches a melody at `prev` chooses among: the near ones when `pool` has any,
/// else the whole pool.
pub open spec fn choices(pool: Seq<i32>, prev: int) -> int {
    if near_of(pool, prev).len() > 0 { near_of(pool, prev).len() as int } else { pool.len() as int }
}

/// The pitch a melody at `prev` takes for draw `k`: the `k`-th pitch within a fifth of `prev`
/// (not `prev` itself) when `pool` has any, else the `k`-th pitch of the pool.
pub fn near_pick(pool: &Vec<i32>, prev: i32, k: usize) -> (r: i32)
    requires
        k < choices(pool@, prev as int),
    ensures
        r == if near_of(pool@, prev as int).len() > 0 { near_of(pool@, prev as int)[k as int] } else { pool@[k as int] },
{
    let near = near_pitches(pool, prev);
    if near.len() > 0 { near[k] } else { pool[k] }
}

/// A random pitch from `pool` for a melody that was at `prev`: one within a fifth of it
/// (not repeating it) when the pool has one, else any pitch of the pool.
pub fn pick_near(pool: &Vec<i32>, prev: i32) -> (r: i32)
    requires
        pool@.len() > 0,
    ensures
        near_of(pool@, prev as int).len() > 0 ==> near_of(pool@, prev as int).contains(r),
        near_of(pool@, prev as int).len() == 0 ==> pool@.contains(r),
{
    let near = near_pitches(pool, prev);
    let n = if near.len() > 0 { near.len() } else { pool.len() };
    let k = random_below(n);
    let r = near_pick(pool, prev, k);
    assert(near_of(pool@, prev as int).len() > 0 ==> near_of(pool@, prev as int)[k as int] == r);
    assert(near_of(pool@, prev as int).len() == 0 ==> pool@[k as int] == r);
    r
}

/// The length that draw `k` (of six) gives: 1, 1, 2, 2, 2 or 4 steps, cut to `left`.
pub open spec fn drawn_len(k: int, left: int) -> int {
    let c = seq![1int, 1, 2, 2, 2, 4][k];
    if c < left { c } else { left }
}

/// The note length that draw `k` (of six) gives a melody with `left` steps to go: 1, 1, 2, 2,
/// 2 or 4 steps, cut to what is left.
pub fn len_for(k: usize, left: usize) -> (r: usize)
    requires
        k < 6,
    ensures
        r == drawn_len(k as int, left as int),
{
    let c: usize = if k < 2 { 1 } else if k < 5 { 2 } else { 4 };
    if c < left { c } else { left }
}

/// A random note length for a melody with `left` steps to go: 1, 2 or 4 steps (2 most often),
/// cut to what is left.
pub fn pick_len(left: usize) -> (r: usize)
    ensures
        exists|k: int| 0 <= k < 6 && r == drawn_len(k, left as int),
        r <= left,
        r == left || r == 1 || r == 2 || r == 4,
        left >= 1 ==> r >= 1,
{
    let k = random_below(6);
    let r = len_for(k, left);
    assert(r == drawn_len(k as int, left as int));
    r
}

/// Where a note of pitch `key` goes in `sorted` (a list of note indices in pitch order): after
/// every note that is not higher.
pub open spec fn slot_for(ns: Seq<Note>, sorted: Seq<usize>, key: i32, j: int) -> int
    decreases sorted.len() - j,
{
    if j < 0 || j >= sorted.len() {
        sorted.len() as int
    } else if ns[sorted[j] as int].pitch > key {
        j
    } else {
        slot_for(ns, sorted, key, j + 1)
    }
}

/// The note indices `idx` ordered by pitch, notes of equal pitch in their order in `idx`
/// (insertion sort, which is stable).
pub open spec fn by_pitch_of(ns: Seq<Note>, idx: Seq<usize>) -> Seq<usize>
    decreases idx.len(),
{
    if idx.len() == 0 {
        seq![]
    } else {
        let s = by_pitch_of(ns, idx.drop_last());
        let k = idx.last();
        s.insert(slot_for(ns, s, ns[k as int].pitch, 0), k)
    }
}

/// The note indices `idx` (each below `notes.len()`) in pitch order, equal pitches kept in order:
/// the order an arpeggio plays the notes of a chord in (see `lemma_by_pitch_sorted` and
/// `lemma_by_pitch_stable`).
pub fn by_pitch(notes: &Vec<Note>, idx: &Vec<usize>) -> (r: Vec<usize>)
    requires
        forall|i: int| 0 <= i < idx@.len() ==> (#[trigger] idx@[i]) < notes@.len(),
    ensures
        r@ == by_pitch_of(notes@, idx@),
{
    let mut r: Vec<usize> = Vec::new();
    let mut i: usize = 0;
    while i < idx.len()
        invariant
            i <= idx@.len(),
            forall|i: int| 0 <= i < idx@.len() ==> (#[trigger] idx@[i]) < notes@.len(),
            r@ == by_pitch_of(notes@, idx@.take(i as int)),
            r@.len() == i,
            forall|m: int| 0 <= m < r@.len() ==> (#[trigger] r@[m]) < notes@.len(),
        decreases idx@.len() - i,
    {
        let k = idx[i];
        let key = notes[k].pitch;
        let mut j: usize = 0;
        while j < r.len() && notes[r[j]].pitch <= key
            invariant
                j <= r@.len(),
                forall|m: int| 0 <= m < r@.len() ==> (#[trigger] r@[m]) < notes@.len(),
                slot_for(notes@, r@, key, 0) == slot_for(notes@, r@, key, j as int),
            decreases r@.len() - j,
        {
            j += 1;
        }
        assert(slot_for(notes@, r@, key, j as int) == j);
        assert(idx@.take(i + 1).drop_last() =~= idx@.take(i as int));
        assert(idx@.take(i + 1).last() == k);
        r.insert(j, k);
        i += 1;
    }
    assert(idx@.take(idx@.len() as int) =~= idx@);
    r
}

proof fn lemma_slot_bounds(ns: Seq<Note>, s: Seq<usize>, key: i32, j: int)
    requires
        0 <= j <= s.len(),
    ensures
        j <= slot_for(ns, s, key, j) <= s.len(),
        forall|m: int| j <= m < slot_for(ns, s, key, j) ==> ns[#[trigger] s[m] as int].pitch <= key,
        slot_for(ns, s, key, j) < s.len() ==> ns[s[slot_for(ns, s, key, j)] as int].pitch > key,
    decreases s.len() - j,
{
    if j < s.len() && ns[s[j] as int].pitch <= key {
        lemma_slot_bounds(ns, s, key, j + 1);
    }
}

/// Arpeggio order is ascending pitch, holds exactly the given notes, and keeps notes of equal
/// pitch in the order they were given.
pub proof fn lemma_by_pitch_sorted(ns: Seq<Note>, idx: Seq<usize>)
    requires
        forall|i: int| 0 <= i < idx.len() ==> (#[trigger] idx[i]) < ns.len(),
    ensures
        ({
            let r = by_pitch_of(ns, idx);
            &&& r.to_multiset() == idx.to_multiset()
            &&& forall|a: int, b: int| 0 <= a < b < r.len() ==> ns[#[trigger] r[a] as int].pitch <= ns[#[trigger] r[b] as int].pitch
        }),
    decreases idx.len(),
{
    broadcast use vstd::seq_lib::group_seq_properties;
    broadcast use vstd::multiset::group_multiset_axioms;

    if idx.len() > 0 {
        let rest = idx.drop_last();
        lemma_by_pitch_sorted(ns, rest);
        let s = by_pitch_of(ns, rest);
        let k = idx.last();
        let key = ns[k as int].pitch;
        let j = slot_for(ns, s, key, 0);
        lemma_slot_bounds(ns, s, key, 0);
        let r = s.insert(j, k);
        assert(r == by_pitch_of(ns, idx));
        // the multiset of the result
        assert(r.to_multiset() == s.to_multiset().insert(k)) by {
            vstd::seq_lib::to_multiset_insert(s, j, k);
        }
        assert(idx =~= rest.push(k));
        assert(idx.to_multiset() == rest.to_multiset().insert(k));
        // sortedness: everything before the slot is not higher, everything after is higher
        assert forall|a: int, b: int| 0 <= a < b < r.len() implies ns[#[trigger] r[a] as int].pitch <= ns[#[trigger] r[b] as int].pitch by {
            if b < j {
                assert(r[a] == s[a] && r[b] == s[b]);
            } else if b == j {
                assert(r[a] == s[a]);
            } else if a < j {
                assert(r[a] == s[a] && r[b] == s[b - 1]);
                if j < s.len() {
                    assert(ns[s[j] as int].pitch > key);
                    if b - 1 > j {
                        assert(ns[s[j] as int].pitch <= ns[s[b - 1] as int].pitch);
                    }
                }
            } else if a == j {
                assert(r[b] == s[b - 1]);
                assert(j < s.len());
                assert(ns[s[j] as int].pitch > key);
                if b - 1 > j {
                    assert(ns[s[j] as int].pitch <= ns[s[b - 1] as int].pitch);
                }
            } else {
                assert(r[a] == s[a - 1] && r[b] == s[b - 1]);
            }
        }
    }
}

/// Arpeggio order is stable: of two given notes of equal pitch, the one given first plays first.
#[verifier::spinoff_prover]
pub proof fn lemma_by_pitch_stable(ns: Seq<Note>, idx: Seq<usize>)
    requires
        forall|i: int| 0 <= i < idx.len() ==> (#[trigger] idx[i]) < ns.len(),
        idx.no_duplicates(),
    ensures
        forall|p: int, q: int|
            0 <= p < q < idx.len() && ns[idx[p] as int].pitch == ns[idx[q] as int].pitch ==> exists|a: int, b: int|
                0 <= a < b < by_pitch_of(ns, idx).len() && #[trigger] by_pitch_of(ns, idx)[a] == idx[p]
                    && #[trigger] by_pitch_of(ns, idx)[b] == idx[q],
    decreases idx.len(),
{
    broadcast use vstd::seq_lib::group_seq_properties;
    broadcast use vstd::multiset::group_multiset_axioms;

    if idx.len() > 0 {
        let n = idx.len() as int;
        let rest = idx.drop_last();
        assert forall|i: int| 0 <= i < rest.len() implies (#[trigger] rest[i]) < ns.len() by {
            assert(rest[i] == idx[i]);
        }
        assert(rest.no_duplicates()) by {
            assert forall|i: int, j: int| 0 <= i < rest.len() && 0 <= j < rest.len() && i != j implies rest[i] != rest[j] by {
                assert(rest[i] == idx[i] && rest[j] == idx[j]);
            }
        }
        lemma_by_pitch_stable(ns, rest);
        lemma_by_pitch_sorted(ns, rest);
        let s = by_pitch_of(ns, rest);
        let k = idx.last();
        let key = ns[k as int].pitch;
        let j = slot_for(ns, s, key, 0);
        lemma_slot_bounds(ns, s, key, 0);
        let r = s.insert(j, k);
        assert(r == by_pitch_of(ns, idx));
        assert forall|p: int, q: int|
            0 <= p < q < n && ns[idx[p] as int].pitch == ns[idx[q] as int].pitch implies exists|a: int, b: int|
                0 <= a < b < r.len() && #[trigger] r[a] == idx[p] && #[trigger] r[b] == idx[q] by {
            if q < n - 1 {
                assert(rest[p] == idx[p] && rest[q] == idx[q]);
                let (a, b) = choose|a: int, b: int| 0 <= a < b < s.len() && #[trigger] s[a] == rest[p] && #[trigger] s[b] == rest[q];
                let a2 = if a < j { a } else { a + 1 };
                let b2 = if b < j { b } else { b + 1 };
                assert(r[a2] == s[a] && r[b2] == s[b]);
            } else {
                // `idx[q]` is the newly inserted note; `idx[p]` already sits before its slot
                assert(rest[p] == idx[p]);
                assert(rest.contains(idx[p]));
                assert(rest.to_multiset().count(idx[p]) > 0);
                assert(s.to_multiset().count(idx[p]) > 0);
                assert(s.contains(idx[p]));
                let a = choose|a: int| 0 <= a < s.len() && s[a] == idx[p];
                if a >= j {
                    assert(j < s.len());
                    assert(ns[s[j] as int].pitch > key);
                    if a > j {
                        assert(ns[s[j] as int].pitch <= ns[s[a] as int].pitch);
                    }
                    assert(false);
                }
                assert(r[a] == s[a] && r[j] == k);
            }
        }
    }
}

impl Pattern {
    /// A copy of the pattern, notes included.
    pub fn copy(&self) -> (r: Pattern)
        ensures
            r@ == self@,
    {
        Pattern { start: self.start, len: self.len, reps: self.reps, notes: copy_notes(&self.notes) }
    }
}

/// What the arrangement editor needs of a song: at least one step and at most `0x3fff_ffff`,
/// and on every track patterns at least one step long that end by step `0x3fff_ffff`. The bound
/// is not a musical limit: it keeps every step, and a pattern end plus its length or repeat
/// count, inside a 32-bit `usize` and inside the `i64` arithmetic of cursor and pattern moves.
pub open spec fn arrange_ok(s: SongView) -> bool {
    &&& s.beats * s.grid <= u32::MAX
    &&& 1 <= song_steps(s) <= 0x3fff_ffff
    &&& forall|t: int, i: int| 0 <= t < s.tracks.len() && 0 <= i < s.tracks[t].patterns.len() ==> {
        let p = #[trigger] s.tracks[t].patterns[i];
        p.len >= 1 && pat_end(p) <= 0x3fff_ffff
    }
}

impl Song {
    /// Mute or unmute track `t`.
    pub fn set_mute(&mut self, t: usize, mute: bool)
        requires
            t < old(self)@.tracks.len(),
        ensures
            final(self)@ == (SongView {
                tracks: old(self)@.tracks.update(t as int, TrackView { mute, ..old(self)@.tracks[t as int] }),
                ..old(self)@
            }),
    {
        let ghost before = self@.tracks;
        self.tracks[t].mute = mute;
        assert(self@.tracks =~= before.update(t as int, TrackView { mute, ..before[t as int] }));
    }

    /// Whether the arrangement editor can work on this song (see `arrange_ok`).
    pub fn arrange_ok(&self) -> (r: bool)
        ensures
            r == arrange_ok(self@),
    {
        assert((self.beats as int) * (self.grid as int) <= 0xffff_ffffu64 * 0xffff_ffffu64) by (nonlinear_arith)
            requires
                self.beats <= 0xffff_ffffu32,
                self.grid <= 0xffff_ffffu32,
        ;
        let bs: u64 = self.beats as u64 * self.grid as u64;
        if bs > u32::MAX as u64 {
            return false;
        }
        assert((self.bars as int) * (bs as int) <= 0xffff_ffff_ffff_ffffu128 * 0xffff_ffffu128) by (nonlinear_arith)
            requires
                self.bars <= 0xffff_ffff_ffff_ffffu128,
                bs <= 0xffff_ffffu64,
        ;
        let n: u128 = self.bars as u128 * bs as u128;
        assert(n == song_steps(self@)) by (nonlinear_arith)
            requires
                n == self.bars * bs,
                bs == self.beats * self.grid,
        ;
        if n < 1 || n > 0x3fff_ffff {
            return false;
        }
        let mut t: usize = 0;
        while t < self.tracks.len()
            invariant
                t <= self@.tracks.len(),
                forall|u: int, i: int| 0 <= u < t && 0 <= i < self@.tracks[u].patterns.len() ==> {
                    let p = #[trigger] self@.tracks[u].patterns[i];
                    p.len >= 1 && pat_end(p) <= 0x3fff_ffff
                },
            decreases self@.tracks.len() - t,
        {
            let tr = &self.tracks[t];
            let mut i: usize = 0;
            while i < tr.patterns.len()
                invariant
                    t < self@.tracks.len(),
                    tr@ == self@.tracks[t as int],
                    i <= tr@.patterns.len(),
                    forall|u: int, j: int| 0 <= u < t && 0 <= j < self@.tracks[u].patterns.len() ==> {
                        let p = #[trigger] self@.tracks[u].patterns[j];
                        p.len >= 1 && pat_end(p) <= 0x3fff_ffff
                    },
                    forall|j: int| 0 <= j < i ==> {
                        let p = #[trigger] self@.tracks[t as int].patterns[j];
                        p.len >= 1 && pat_end(p) <= 0x3fff_ffff
                    },
                decreases tr@.patterns.len() - i,
            {
                let p = &tr.patterns[i];
                assert(p@ == self@.tracks[t as int].patterns[i as int]);
                let times: u128 = if p.reps >= 1 { p.reps as u128 } else { 1 };
                assert((p.len as int) * (times as int) <= 0xffff_ffff_ffff_ffffu128 * 0xffff_ffff_ffff_ffffu128) by (nonlinear_arith)
                    requires
                        p.len <= 0xffff_ffff_ffff_ffffu128,
                        times <= 0xffff_ffff_ffff_ffffu128,
                ;
                let e: u128 = p.start as u128 + p.len as u128 * times;
                assert(e == pat_end(p@)) by {
                    assert(times == plays(p@));
                }
                if p.len < 1 || e > 0x3fff_ffff {
                    return false;
                }
                i += 1;
            }
            t += 1;
        }
        true
    }
}

/// The earliest start after step `a` among the first `n` patterns, if any.
pub open spec fn next_start(ps: Seq<PatternView>, a: int, n: int) -> Option<int>
    decreases n,
{
    if n <= 0 {
        None
    } else {
        let r = next_start(ps, a, n - 1);
        let st = ps[n - 1].start as int;
        if st > a {
            match r {
                Some(m) => if m <= st { Some(m) } else { Some(st) },
                None => Some(st),
            }
        } else {
            r
        }
    }
}

impl Song {
    /// Where a new pattern starting at `a` on track `t` has to end, at the latest `b`: at the
    /// next pattern that starts after `a`.
    pub fn room_until(&self, t: usize, a: usize, b: usize) -> (r: usize)
        requires
            t < self@.tracks.len(),
        ensures
            r == match next_start(self@.tracks[t as int].patterns, a as int, self@.tracks[t as int].patterns.len() as int) {
                Some(m) => if m <= b { m } else { b as int },
                None => b as int,
            },
    {
        let ghost ps = self@.tracks[t as int].patterns;
        let tr = &self.tracks[t];
        let mut best: Option<usize> = None;
        let mut j: usize = 0;
        while j < tr.patterns.len()
            invariant
                j <= ps.len(),
                tr@.patterns == ps,
                match best {
                    Some(m) => next_start(ps, a as int, j as int) == Some(m as int),
                    None => next_start(ps, a as int, j as int) is None,
                },
            decreases ps.len() - j,
        {
            assert(tr.patterns@[j as int]@ == ps[j as int]);
            let st = tr.patterns[j].start;
            if st > a {
                best = match best {
                    Some(m) => if m <= st { Some(m) } else { Some(st) },
                    None => Some(st),
                };
            }
            j += 1;
        }
        match best {
            Some(m) => if m <= b { m } else { b },
            None => b,
        }
    }

    /// Places a copy of `p`, playing once, at step `at` of track `t`, when steps `at..at + p.len`
    /// are free and end inside the song. Returns whether it did.
    pub fn paste_pattern(&mut self, t: usize, at: usize, p: &Pattern) -> (r: bool)
        requires
            t < old(self)@.tracks.len(),
            ends_fit(old(self)@.tracks[t as int].patterns),
            steps_fit(old(self)@),
            at + p.len <= usize::MAX,
        ensures
            r == (free_of(old(self)@.tracks[t as int].patterns, at as int, at + p.len, None)
                && at + p.len <= song_steps(old(self)@)),
            r ==> final(self)@ == with_patterns(old(self)@, t as int,
                old(self)@.tracks[t as int].patterns.push(PatternView { start: at, reps: 1, ..p@ })),
            !r ==> final(self)@ == old(self)@,
    {
        let end = at + p.len;
        if !(self.free(t, at, end, None) && end <= self.steps()) {
            return false;
        }
        let q = Pattern { start: at, len: p.len, reps: 1, notes: copy_notes(&p.notes) };
        assert(q@ == PatternView { start: at, reps: 1, ..p@ });
        let ghost before = self@.tracks;
        self.tracks[t].push_pattern(q);
        assert(self@.tracks =~= before.update(t as int, TrackView { patterns: before[t as int].patterns.push(q@), ..before[t as int] }));
        true
    }
}

/// A pasted pattern does not overlap the track's other patterns.
pub proof fn lemma_paste_keeps_apart(s: SongView, t: int, at: int, p: PatternView)
    requires
        0 <= t < s.tracks.len(),
        apart(s.tracks[t].patterns),
        0 <= at <= usize::MAX,
        free_of(s.tracks[t].patterns, at, at + p.len, None),
    ensures
        apart(with_patterns(s, t, s.tracks[t].patterns.push(PatternView { start: at as usize, reps: 1, ..p })).tracks[t].patterns),
{
    let ps = s.tracks[t].patterns;
    let q = PatternView { start: at as usize, reps: 1, ..p };
    let ps2 = ps.push(q);
    assert(with_patterns(s, t, ps2).tracks[t].patterns == ps2);
    assert(plays(q) == 1);
    assert(q.len * 1 == q.len);
    assert(pat_end(q) == at + p.len);
    assert forall|i: int, j: int| 0 <= i < ps2.len() && 0 <= j < ps2.len() && i != j implies
        pat_end(#[trigger] ps2[i]) <= ps2[j].start || pat_end(#[trigger] ps2[j]) <= ps2[i].start by {
        if i < ps.len() && j < ps.len() {
            assert(ps2[i] == ps[i] && ps2[j] == ps[j]);
        } else if i < ps.len() {
            assert(ps2[i] == ps[i]);
        } else {
            assert(ps2[j] == ps[j]);
        }
    }
}

/// A note's pitch moved by `semis` semitones, kept within the midi range.
pub fn transposed(pitch: i32, semis: i32) -> (r: i32)
    ensures
        r == clamp(pitch + semis, 0, 127),
{
    let v: i64 = pitch as i64 + semis as i64;
    if v < 0 { 0 } else if v > 127 { 127 } else { v as i32 }
}

/// Adding a track keeps the graph's node ids unique and below `next_id`.
pub proof fn lemma_add_track_keeps_ids(g: GraphView, id: u32)
    requires
        crate::graph::ids_ok(g),
        g.next_id + 4 <= u32::MAX,
    ensures
        crate::graph::ids_ok(track_nodes_added(g, id)),
{
    let g1 = trk_added(g, id, 0);
    let g2 = trk_added(g1, id, 1);
    let g3 = trk_added(g2, id, 2);
    crate::graph::lemma_trk_added_keeps_ids(g, id, 0);
    crate::graph::lemma_trk_added_keeps_ids(g1, id, 1);
    crate::graph::lemma_trk_added_keeps_ids(g2, id, 2);
    crate::graph::lemma_trk_added_keeps_ids(g3, id, 3);
}

/// Giving a track a voice keeps the graph's node ids unique and below `next_id`.
pub proof fn lemma_add_voice_keeps_ids(g: GraphView, track: u32)
    requires
        crate::graph::ids_ok(g),
        g.next_id + 5 < u32::MAX,
        to_out_ok(voice_nodes(g, track), (g.next_id + 5) as u32),
    ensures
        crate::graph::ids_ok(to_out_spec(voice_nodes(g, track), (g.next_id + 5) as u32).0),
{
    let f = link_or_zero(id_at(g.nodes, is_trk_of(track, 0)));
    let gt = link_or_zero(id_at(g.nodes, is_trk_of(track, 1)));
    let v = link_or_zero(id_at(g.nodes, is_trk_of(track, 2)));
    let s1 = seq![gt, c32(F_0_01), c32(F_0_2), c32(F_0_6), c32(F_0_2)];
    let g1 = added(g, Kind::Env, 0, s1);
    let s2 = seq![f, c32(F_0_5)];
    let g2 = added(g1, Kind::Osc, 1, s2);
    let s3 = seq![Input::Link(g1.next_id), c32(F_1500), c32(F_0_7)];
    let g3 = added(g2, Kind::Filt, 0, s3);
    let s4 = seq![Input::Link(g2.next_id), Input::Link(g.next_id)];
    let g4 = added(g3, Kind::Math, 2, s4);
    let s5 = seq![Input::Link(g3.next_id), v];
    let g5 = added(g4, Kind::Math, 2, s5);
    crate::graph::lemma_add_keeps_ids(g, Kind::Env, 0, s1);
    crate::graph::lemma_add_keeps_ids(g1, Kind::Osc, 1, s2);
    crate::graph::lemma_add_keeps_ids(g2, Kind::Filt, 0, s3);
    crate::graph::lemma_add_keeps_ids(g3, Kind::Math, 2, s4);
    crate::graph::lemma_add_keeps_ids(g4, Kind::Math, 2, s5);
    crate::graph::lemma_add_keeps_ids(g5, Kind::Math, 2, seq![Input::Link(g4.next_id), c32(F_0_3)]);
    crate::graph::lemma_to_out_keeps_ids(voice_nodes(g, track), (g.next_id + 5) as u32);
}

/// Removing a track's nodes keeps the graph's node ids unique and below `next_id`.
pub proof fn lemma_remove_track_keeps_ids(g: GraphView, ids: Seq<u32>)
    requires
        crate::graph::ids_ok(g),
    ensures
        crate::graph::ids_ok(remove_all(g, ids)),
    decreases ids.len(),
{
    if ids.len() > 0 {
        lemma_remove_track_keeps_ids(g, ids.drop_last());
        crate::graph::lemma_remove_keeps_ids(remove_all(g, ids.drop_last()), ids.last());
    }
}

} // verus!
