//! A keyboard-driven synthesizer and pattern sequencer: one signal graph shared by the
//! whole song, tracks of repeating note patterns that play into it, and a compiler that
//! turns the graph into one flat evaluation program per track.
pub mod value;
pub mod text;
pub mod graph;
pub mod flow;
pub mod dsp;
pub mod compile;
pub mod layout;
pub mod docs;
pub mod song;
pub mod editor;
pub mod voices;
pub mod arrange;
pub mod synth_edit;
pub mod note_edit;
