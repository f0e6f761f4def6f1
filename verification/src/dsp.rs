//! The flat form a track's synth graph is compiled to. A Program is a list of ops; every op
//! writes one value per sample. `Row(r)` reads another node's value: current sample if it was
//! computed earlier this sample, previous sample otherwise (that's how feedback loops work).
use vstd::prelude::*;
use crate::value::Bits32;

verus! {

#[derive(Clone, Copy, Debug, PartialEq, Eq, Structural)]
pub enum Wave {
    Sin,
    Saw,
    Sqr,
    Tri,
    Pulse,
    Phase,
}

#[derive(Clone, Copy, Debug, PartialEq, Eq, Structural)]
pub enum Filt {
    Lp,
    Hp,
    Bp,
}

#[derive(Clone, Copy, Debug, PartialEq, Eq, Structural)]
pub enum Bin {
    Add,
    Sub,
    Mul,
    Div,
    Min,
    Max,
    Pow,
    Gt,
    Lt,
}

#[derive(Clone, Copy, Debug, PartialEq, Eq, Structural)]
pub enum Un {
    Tanh,
    Clip,
    Abs,
    Sqrt,
    Neg,
}

/// One step of a program; the `usize` arguments are indices of earlier ops whose values it reads.
#[derive(Clone, Copy, Debug, PartialEq, Eq, Structural)]
pub enum Op {
    Param(usize),
    Freq,
    Gate,
    Vel,
    Note,
    Row(usize),
    Bin(Bin, usize, usize),
    Un(Un, usize),
    /// wave, freq, pulse width, amp
    Osc(Wave, usize, usize, usize),
    /// amp
    Noise(usize),
    /// gate, attack, decay, sustain, release
    Env(usize, usize, usize, usize, usize),
    Filt(Filt, usize, usize, usize),
    Delay(usize, usize),
    Sh(usize, usize),
    /// in, write pos (0..1), read pos (0..1), record gate, size in seconds
    Buf(usize, usize, usize, usize, usize),
    /// gate, note, key: passes gate only while note == key
    Key(usize, usize, usize),
}

/// `ops` define structure (changing them resets voices); `params` are the constant
/// knob values and can change freely while playing.
#[derive(Clone, Debug)]
pub struct Program {
    pub ops: Vec<Op>,
    pub params: Vec<Bits32>,
    /// row (node in eval order) -> op index holding its value
    pub row_slot: Vec<usize>,
    /// row -> graph node index (for meters)
    pub row_node: Vec<usize>,
    pub out: Option<usize>,
}

impl Default for Program {
    fn default() -> (p: Program)
        ensures
            p.ops@.len() == 0,
            p.params@.len() == 0,
            p.row_slot@.len() == 0,
            p.row_node@.len() == 0,
            p.out is None,
    {
        Program { ops: Vec::new(), params: Vec::new(), row_slot: Vec::new(), row_node: Vec::new(), out: None }
    }
}

} // verus!
