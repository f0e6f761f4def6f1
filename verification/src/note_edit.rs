//! The pattern editor's keyboard commands, as one step from the editor's state and a key to the
//! next state and the edit left to the program. The editor decides where the cursor goes, which
//! pitch is current, which steps an edit covers and which pitches a key inserts; the edits
//! themselves change note times and velocities, which are floating point, so the program
//! performs them.
use vstd::prelude::*;
use crate::song::{Song, SongView, walk_key, degree_pitch_of, chord_of, scale_of};
use crate::editor::{clamp, step_cursor};

verus! {

/// The pattern editor's state: the cursor step in the pattern, the current pitch, the length of
/// inserted notes (steps), the selection's other end, and a chord key waiting for its degree.
pub struct NoteEditor {
    pub pcursor: usize,
    pub cpitch: i32,
    pub ins_len: usize,
    pub sel: Option<usize>,
    pub pending: Option<char>,
}

pub struct NoteEditorView {
    pub pcursor: usize,
    pub cpitch: i32,
    pub ins_len: usize,
    pub sel: Option<usize>,
    pub pending: Option<char>,
}

impl View for NoteEditor {
    type V = NoteEditorView;

    open spec fn view(&self) -> NoteEditorView {
        NoteEditorView { pcursor: self.pcursor, cpitch: self.cpitch, ins_len: self.ins_len, sel: self.sel, pending: self.pending }
    }
}

/// What the program does on the pattern after a key. Ranges are steps `a..b` of the pattern.
#[derive(Clone, Debug, PartialEq, Eq)]
pub enum NoteAction {
    Nothing,
    /// put notes of these pitches at step `at` (removing what starts there)
    Insert(usize, Vec<i32>),
    /// the current pitch was toggled at step `at`: remove it there, or else everything there
    Delete(usize),
    /// arpeggiate the chord at step `at` in notes of `len` steps
    Arpeggiate(usize, usize),
    /// a new random melody over `a..b`, around this octave
    Randomize(usize, usize, i32),
    /// remove the notes of `a..b`
    Clear(usize, usize),
    /// copy the notes of `a..b` to the clipboard
    Yank(usize, usize),
    /// paste the clipboard at step `at`
    Paste(usize),
    /// humanize `a..b`
    Humanize(usize, usize),
    /// move the pitches of `a..b` up or down a semitone
    Transpose(usize, usize, i32),
    /// move the notes of `a..b` later (true) or earlier by an eighth of a step
    Nudge(usize, usize, bool),
    /// make the notes of `a..b` a step longer (true) or shorter
    Stretch(usize, usize, bool),
    /// make the notes of `a..b` louder (true) or softer
    Louder(usize, usize, bool),
    /// a chord key is waiting for its degree (`c` triad, `C` seventh)
    Chord(char),
    Undo,
    /// play from step `at` of the pattern
    Seek(usize),
    Command,
}

/// `NoteAction` with its pitches as a sequence.
pub enum NoteActionView {
    Nothing,
    Insert(usize, Seq<i32>),
    Delete(usize),
    Arpeggiate(usize, usize),
    Randomize(usize, usize, i32),
    Clear(usize, usize),
    Yank(usize, usize),
    Paste(usize),
    Humanize(usize, usize),
    Transpose(usize, usize, i32),
    Nudge(usize, usize, bool),
    Stretch(usize, usize, bool),
    Louder(usize, usize, bool),
    Chord(char),
    Undo,
    Seek(usize),
    Command,
}

impl View for NoteAction {
    type V = NoteActionView;

    open spec fn view(&self) -> NoteActionView {
        match self {
            NoteAction::Nothing => NoteActionView::Nothing,
            NoteAction::Insert(at, v) => NoteActionView::Insert(*at, v@),
            NoteAction::Delete(at) => NoteActionView::Delete(*at),
            NoteAction::Arpeggiate(at, l) => NoteActionView::Arpeggiate(*at, *l),
            NoteAction::Randomize(a, b, o) => NoteActionView::Randomize(*a, *b, *o),
            NoteAction::Clear(a, b) => NoteActionView::Clear(*a, *b),
            NoteAction::Yank(a, b) => NoteActionView::Yank(*a, *b),
            NoteAction::Paste(at) => NoteActionView::Paste(*at),
            NoteAction::Humanize(a, b) => NoteActionView::Humanize(*a, *b),
            NoteAction::Transpose(a, b, d) => NoteActionView::Transpose(*a, *b, *d),
            NoteAction::Nudge(a, b, u) => NoteActionView::Nudge(*a, *b, *u),
            NoteAction::Stretch(a, b, u) => NoteActionView::Stretch(*a, *b, *u),
            NoteAction::Louder(a, b, u) => NoteActionView::Louder(*a, *b, *u),
            NoteAction::Chord(c) => NoteActionView::Chord(*c),
            NoteAction::Undo => NoteActionView::Undo,
            NoteAction::Seek(at) => NoteActionView::Seek(*at),
            NoteAction::Command => NoteActionView::Command,
        }
    }
}

/// The editor can take a key: a pattern of `plen` steps (at least one, at most `0x3fff_ffff`,
/// a bound that keeps cursor arithmetic inside `i64`), the cursor and selection inside it, a
/// midi pitch, an insert length of 1 to 64 steps, and a song key whose root is a pitch class.
pub open spec fn note_ready(e: NoteEditorView, s: SongView, plen: int) -> bool {
    &&& 1 <= plen <= 0x3fff_ffff
    &&& e.pcursor < plen
    &&& (e.sel matches Some(m) ==> m < plen)
    &&& 1 <= e.ins_len <= 64
    &&& 0 <= e.cpitch <= 127
    &&& 0 <= s.root < 12
    &&& s.beats * s.grid <= 0x3fff_ffff
}

/// The octave of the current pitch (C4 = 60 is octave 4).
pub open spec fn octave_of(p: int) -> int {
    p / 12 - 1
}

/// The editor with the cursor moved by `d`, kept inside the pattern.
pub open spec fn cursor_moved(e: NoteEditorView, d: int, plen: int) -> NoteEditorView {
    NoteEditorView { pcursor: clamp(e.pcursor + d, 0, plen - 1) as usize, ..e }
}

/// Notes of pitches `ps` inserted at the cursor: the first becomes the current pitch, and the
/// cursor moves on by the insert length.
pub open spec fn inserted(e: NoteEditorView, ps: Seq<i32>, plen: int) -> (NoteEditorView, NoteActionView) {
    (NoteEditorView {
        cpitch: if ps.len() > 0 { ps[0] } else { e.cpitch },
        pcursor: clamp(e.pcursor + e.ins_len, 0, plen - 1) as usize,
        ..e
    }, NoteActionView::Insert(e.pcursor, ps))
}

/// The steps an edit covers: the selection (both ends included), else the whole pattern.
pub open spec fn range_of(e: NoteEditorView, plen: int) -> (int, int) {
    match e.sel {
        Some(m) => if m <= e.pcursor { (m as int, e.pcursor + 1) } else { (e.pcursor as int, m + 1) },
        None => (0, plen),
    }
}

/// The steps a note-level edit covers: the selection, else the cursor step.
pub open spec fn notes_of(e: NoteEditorView, plen: int) -> (int, int) {
    if e.sel is Some { range_of(e, plen) } else { (e.pcursor as int, e.pcursor + 1) }
}

/// One key `c` in the pattern editor.
pub open spec fn note_step(e: NoteEditorView, s: SongView, plen: int, c: char) -> (NoteEditorView, NoteActionView) {
    let oct = octave_of(e.cpitch as int);
    let (a, b) = range_of(e, plen);
    let (na, nb) = notes_of(e, plen);
    let bs = s.beats * s.grid;
    match e.pending {
        Some(p) => {
            let e1 = NoteEditorView { pending: None, ..e };
            if '1' <= c <= '7' {
                inserted(e1, chord_of(s, c as int - '1' as int, oct, if p == 'c' { 3 } else { 4 }), plen)
            } else {
                (e1, NoteActionView::Nothing)
            }
        },
        None => if c == 'h' {
            (cursor_moved(e, -1, plen), NoteActionView::Nothing)
        } else if c == 'l' {
            (cursor_moved(e, 1, plen), NoteActionView::Nothing)
        } else if c == 'H' {
            (cursor_moved(e, -bs, plen), NoteActionView::Nothing)
        } else if c == 'L' {
            (cursor_moved(e, bs, plen), NoteActionView::Nothing)
        } else if c == 'j' || c == 'k' {
            (NoteEditorView { cpitch: clamp(walk_key(s, e.cpitch as int, if c == 'j' { -1 } else { 1 }, 12), 0, 127) as i32, ..e },
                NoteActionView::Nothing)
        } else if c == 'J' {
            (NoteEditorView { cpitch: if e.cpitch >= 12 { (e.cpitch - 12) as i32 } else { 0 }, ..e }, NoteActionView::Nothing)
        } else if c == 'K' {
            (NoteEditorView { cpitch: if e.cpitch <= 115 { (e.cpitch + 12) as i32 } else { 127 }, ..e }, NoteActionView::Nothing)
        } else if c == 'g' {
            (NoteEditorView { pcursor: 0, ..e }, NoteActionView::Nothing)
        } else if c == 'G' {
            (NoteEditorView { pcursor: (plen - 1) as usize, ..e }, NoteActionView::Nothing)
        } else if '1' <= c <= '7' {
            inserted(e, seq![degree_pitch_of(s, c as int - '1' as int, oct) as i32], plen)
        } else if c == 'c' || c == 'C' {
            (NoteEditorView { pending: Some(c), ..e }, NoteActionView::Chord(c))
        } else if c == 'v' {
            (NoteEditorView { sel: if e.sel is Some { None } else { Some(e.pcursor) }, ..e }, NoteActionView::Nothing)
        } else if c == 'a' {
            (e, NoteActionView::Arpeggiate(e.pcursor, e.ins_len))
        } else if c == 'r' {
            (e, NoteActionView::Randomize(a as usize, b as usize, oct as i32))
        } else if c == 'x' {
            (e, NoteActionView::Delete(e.pcursor))
        } else if c == 'X' {
            (NoteEditorView { sel: None, ..e }, NoteActionView::Clear(a as usize, b as usize))
        } else if c == 'y' {
            (NoteEditorView { sel: None, ..e }, NoteActionView::Yank(a as usize, b as usize))
        } else if c == 'p' {
            (e, NoteActionView::Paste(e.pcursor))
        } else if c == 'n' {
            (e, NoteActionView::Humanize(a as usize, b as usize))
        } else if c == 'u' {
            (e, NoteActionView::Undo)
        } else if c == '-' || c == '=' {
            (e, NoteActionView::Transpose(na as usize, nb as usize, if c == '-' { -1i32 } else { 1i32 }))
        } else if c == '(' || c == ')' {
            (e, NoteActionView::Nudge(na as usize, nb as usize, c == ')'))
        } else if c == '<' || c == '>' {
            (e, NoteActionView::Stretch(na as usize, nb as usize, c == '>'))
        } else if c == '_' || c == '+' {
            (e, NoteActionView::Louder(na as usize, nb as usize, c == '+'))
        } else if c == ',' {
            (NoteEditorView { ins_len: if e.ins_len >= 2 { (e.ins_len / 2) as usize } else { 1 }, ..e }, NoteActionView::Nothing)
        } else if c == '.' {
            (NoteEditorView { ins_len: if e.ins_len <= 32 { (e.ins_len * 2) as usize } else { 64 }, ..e }, NoteActionView::Nothing)
        } else if c == 's' {
            (e, NoteActionView::Seek(e.pcursor))
        } else if c == ':' {
            (e, NoteActionView::Command)
        } else {
            (e, NoteActionView::Nothing)
        },
    }
}

proof fn lemma_pitch_fits(s: SongView, d: int, oct: int)
    requires
        0 <= s.root < 12,
        0 <= d <= 12,
        -1 <= oct <= 9,
    ensures
        0 <= degree_pitch_of(s, d, oct) <= 200,
{
    let sc = scale_of(s.minor);
    assert(0 <= d % 7 < 7);
    assert(0 <= sc[d % 7] <= 11);
    assert(0 <= d / 7 <= 1);
}

fn cursor_to(e: &NoteEditor, d: i64, plen: usize) -> (r: usize)
    requires
        1 <= plen <= 0x3fff_ffff,
        e.pcursor < plen,
        -0x4000_0000 <= d <= 0x4000_0000,
    ensures
        r == clamp(e.pcursor + d, 0, plen - 1),
{
    step_cursor(e.pcursor, d, plen)
}

/// One key `c` in the pattern editor on a pattern of `plen` steps of `song`.
pub fn note_char(ed: &mut NoteEditor, song: &Song, plen: usize, c: char) -> (act: NoteAction)
    requires
        note_ready(old(ed)@, song@, plen as int),
    ensures
        (final(ed)@, act@) == note_step(old(ed)@, song@, plen as int, c),
{
    let oct: i32 = ed.cpitch / 12 - 1;
    let pc = ed.pcursor;
    let (a, b) = match ed.sel {
        Some(m) => if m <= pc { (m, pc + 1) } else { (pc, m + 1) },
        None => (0, plen),
    };
    let (na, nb) = if ed.sel.is_some() { (a, b) } else { (pc, pc + 1) };
    let bs: i64 = song.beats as i64 * song.grid as i64;
    assert(bs == song@.beats * song@.grid);
    match ed.pending {
        Some(p) => {
            ed.pending = None;
            if c >= '1' && c <= '7' {
                let d: i32 = (c as u32 - '1' as u32) as i32;
                let n: usize = if p == 'c' { 3 } else { 4 };
                proof {
                    assert forall|i: int| 0 <= i < n implies i32::MIN <= #[trigger] degree_pitch_of(song@, d + 2 * i, oct as int) <= i32::MAX by {
                        lemma_pitch_fits(song@, d + 2 * i, oct as int);
                    }
                }
                let ch = song.chord(d, oct, n);
                let first = ch[0];
                ed.cpitch = first;
                ed.pcursor = cursor_to(ed, ed.ins_len as i64, plen);
                NoteAction::Insert(pc, ch)
            } else {
                NoteAction::Nothing
            }
        },
        None => {
            if c == 'h' {
                ed.pcursor = cursor_to(ed, -1, plen);
                NoteAction::Nothing
            } else if c == 'l' {
                ed.pcursor = cursor_to(ed, 1, plen);
                NoteAction::Nothing
            } else if c == 'H' {
                ed.pcursor = cursor_to(ed, -bs, plen);
                NoteAction::Nothing
            } else if c == 'L' {
                ed.pcursor = cursor_to(ed, bs, plen);
                NoteAction::Nothing
            } else if c == 'j' || c == 'k' {
                ed.cpitch = song.scale_step(ed.cpitch, if c == 'j' { -1 } else { 1 });
                NoteAction::Nothing
            } else if c == 'J' {
                ed.cpitch = if ed.cpitch >= 12 { ed.cpitch - 12 } else { 0 };
                NoteAction::Nothing
            } else if c == 'K' {
                ed.cpitch = if ed.cpitch <= 115 { ed.cpitch + 12 } else { 127 };
                NoteAction::Nothing
            } else if c == 'g' {
                ed.pcursor = 0;
                NoteAction::Nothing
            } else if c == 'G' {
                ed.pcursor = plen - 1;
                NoteAction::Nothing
            } else if c >= '1' && c <= '7' {
                let d: i32 = (c as u32 - '1' as u32) as i32;
                proof {
                    lemma_pitch_fits(song@, d as int, oct as int);
                }
                let p = song.degree_pitch(d, oct);
                let mut v: Vec<i32> = Vec::new();
                v.push(p);
                assert(v@ =~= seq![p]);
                ed.cpitch = p;
                ed.pcursor = cursor_to(ed, ed.ins_len as i64, plen);
                NoteAction::Insert(pc, v)
            } else if c == 'c' || c == 'C' {
                ed.pending = Some(c);
                NoteAction::Chord(c)
            } else if c == 'v' {
                ed.sel = if ed.sel.is_some() { None } else { Some(pc) };
                NoteAction::Nothing
            } else if c == 'a' {
                NoteAction::Arpeggiate(pc, ed.ins_len)
            } else if c == 'r' {
                NoteAction::Randomize(a, b, oct)
            } else if c == 'x' {
                NoteAction::Delete(pc)
            } else if c == 'X' {
                ed.sel = None;
                NoteAction::Clear(a, b)
            } else if c == 'y' {
                ed.sel = None;
                NoteAction::Yank(a, b)
            } else if c == 'p' {
                NoteAction::Paste(pc)
            } else if c == 'n' {
                NoteAction::Humanize(a, b)
            } else if c == 'u' {
                NoteAction::Undo
            } else if c == '-' || c == '=' {
                NoteAction::Transpose(na, nb, if c == '-' { -1 } else { 1 })
            } else if c == '(' || c == ')' {
                NoteAction::Nudge(na, nb, c == ')')
            } else if c == '<' || c == '>' {
                NoteAction::Stretch(na, nb, c == '>')
            } else if c == '_' || c == '+' {
                NoteAction::Louder(na, nb, c == '+')
            } else if c == ',' {
                ed.ins_len = if ed.ins_len >= 2 { ed.ins_len / 2 } else { 1 };
                NoteAction::Nothing
            } else if c == '.' {
                ed.ins_len = if ed.ins_len <= 32 { ed.ins_len * 2 } else { 64 };
                NoteAction::Nothing
            } else if c == 's' {
                NoteAction::Seek(pc)
            } else if c == ':' {
                NoteAction::Command
            } else {
                NoteAction::Nothing
            }
        },
    }
}

} // verus!
