//! Built-in manual: one HTML page, generated from the same tables the synth uses
//! (names, inputs, defaults, variants, palette keys), so it can't drift from the code.
use vstd::prelude::*;
use crate::graph::{Kind, ALL, kind_name, param_names, default_texts, variant_names, arity};
use crate::text::{push_char, push_str};

verus! {

/// The page up to the node reference.
pub const MANUAL_HEAD: &'static str = "<!doctype html><html><head><meta charset=\"utf-8\"><title>dirty daw manual</title>\n<style>\nbody{background:#101014;color:#ddd;font:15px/1.5 -apple-system,Helvetica,Arial,sans-serif;max-width:900px;margin:0 auto;padding:24px}\nh1{color:#5ac8ff} h2{color:#ffcd50;margin-top:40px;border-bottom:1px solid #333} h3{color:#78e68c;margin:24px 0 4px}\nkbd{background:#2a2a30;border:1px solid #555;border-radius:4px;padding:0 5px;font-family:monospace;color:#fff}\ncode{background:#22222a;padding:1px 5px;border-radius:3px;font-family:monospace}\ntable{border-collapse:collapse;width:100%} td{padding:3px 8px;border-bottom:1px solid #222;vertical-align:top} td:first-child{white-space:nowrap;color:#fff}\n.l{color:#888;display:inline-block;width:70px} .dim{color:#777} .tip{color:#bbb;background:#17171c;padding:8px 10px;border-left:3px solid #ffcd50}\nsection{margin-bottom:10px} nav a{margin-right:12px;color:#5ac8ff}\n</style></head><body>\n<h1>dirty daw</h1>\n<p>Keyboard-only, pure-synthesis DAW. No samples, no plugins: one signal graph you patch by hand, and an arrangement of patterns that plays into it. This page is served by the running app (<kbd>F12</kbd> or <code>:help</code>).</p>\n<nav><a href=\"#concepts\">concepts</a><a href=\"#arrange\">arrangement</a><a href=\"#pattern\">pattern editor</a><a href=\"#synth\">synth graph</a><a href=\"#commands\">commands</a><a href=\"#nodes\">nodes</a><a href=\"#files\">files</a></nav>\n\n<h2 id=\"concepts\">Concepts</h2>\n<p><b>Everything is a signal.</b> The synth is one graph shared by the whole song. Each node computes one number per sample (48000 times a second) from its inputs. An input is either a constant you type or a link to another node's output. Any output can drive any input: audio, pitch, cutoff, envelope times, buffer positions.</p>\n<p><b>Inputs and outputs.</b> A node has exactly <em>one output</em> (the number it computes) and a handful of named <em>inputs</em> (the rows inside the box). Each input holds either a constant you type or a link that reads another node's output. That is the only kind of connection there is: \"connect A to B\" means \"some input of B reads A\". A node's output can feed any number of inputs; the <code>out ▸</code> row lists where it goes, and the dots on the box edges are the ports (bright = linked). Connect from either side, with two different keys so the direction is never ambiguous: <kbd>c</kbd> sends <em>this node's output</em> into an input of a node you pick (works in node and param mode); <kbd>i</kbd> makes <em>this input</em> read a node you pick (param mode, or node mode for the first input). While picking, a white preview wire with a label like <code>env5 ▸ *7.b</code> shows exactly what will be connected. <kbd>d</kbd> cuts one of a node's output connections, <kbd>x</kbd> in param mode cuts an input.</p>\n<p><b>Envelopes don't trigger oscillators, they control volume.</b> Oscillators run all the time. An ENV is a 0..1 curve that starts when its <b>gate</b> rises (the note starts) and fades when it drops. Connect the ENV's output to the oscillator's <b>amp</b> input and the note has a shape: select the ENV, <kbd>c</kbd>, move onto the OSC, <kbd>Enter</kbd>, pick <b>amp</b>. (Adding an OSC while an ENV is selected, or an ENV while an OSC is selected, wires this automatically.) The standard voice is TRK freq → OSC (amp ◂ ENV from TRK gate) → OUT; <code>:voice</code> or <kbd>a</kbd> <kbd>v</kbd> builds it.</p>\n<p><b>Fastest way to hear something:</b> select any node, press <kbd>a</kbd> then <kbd>v</kbd>. That builds OSC × ENV → OUT for the current track, reusing the selected node if it already is an OSC or an ENV. Then put notes in a pattern on that track.</p>\n<p><b>Tracks are sources.</b> A track shows up in the graph as <code>TRK</code> nodes carrying the freq / gate / vel / note of whatever note the track is playing. A chain of nodes from a track's TRK nodes to <code>OUT</code> is that track's instrument. Nothing is hard-wired: a track with no path to OUT is silent.</p>\n<p><b>Voices.</b> Each track has 8 voices. A voice is a private copy of the graph, pruned to the nodes that track can influence (nodes that depend only on other tracks are skipped), running with that voice's note. Voices are summed at OUT. Consequence: effects are per-voice. That's perfect for anything linear (delay, filters, mixing) and slightly different from a DAW's shared bus for nonlinear things like a master <code>tanh</code>.</p>\n<p><b>Feedback is allowed.</b> The graph is evaluated from OUT backwards each sample; a link that points \"back\" reads the previous sample's value. That one-sample delay is what makes feedback loops stable. Feedback links draw in orange.</p>\n<p><b>Live view.</b> Every node has a level bar, links glow with their signal level, and track rows show meters. Constants change instantly while playing; changing the graph's structure restarts that track's voices.</p>\n\n<h2 id=\"arrange\">Arrangement view</h2>\n<p>All tracks at once. Each solid block is a pattern; outlined <code>↻n</code> blocks are its repeats. The cursor is a white box: <kbd>j</kbd>/<kbd>k</kbd> track, <kbd>h</kbd>/<kbd>l</kbd> step, <kbd>H</kbd>/<kbd>L</kbd> bar, <kbd>g</kbd>/<kbd>G</kbd> start/end.</p>\n<table>\n<tr><td><kbd>Enter</kbd></td><td>open the pattern under the cursor in the editor. On empty space: create a bar-long pattern there and open it.</td></tr>\n<tr><td><kbd>v</kbd> then move, then <kbd>P</kbd></td><td>select a range of steps and create an empty pattern exactly that long.</td></tr>\n<tr><td><kbd>R</kbd></td><td>repeat the pattern until the next pattern on the track (or the end of the song).</td></tr>\n<tr><td><kbd>E</kbd></td><td>end the repeats at the cursor.</td></tr>\n<tr><td><kbd>D</kbd></td><td>detach the repeat copy under the cursor into an independent pattern, so you can change it without changing the others.</td></tr>\n<tr><td><kbd>x</kbd> / <kbd>Delete</kbd></td><td>delete the pattern.</td></tr>\n<tr><td><kbd>y</kbd> / <kbd>p</kbd></td><td>yank the pattern / paste a copy at the cursor.</td></tr>\n<tr><td><kbd>{</kbd> / <kbd>}</kbd></td><td>move the pattern one step earlier / later.</td></tr>\n<tr><td><kbd>,</kbd> / <kbd>.</kbd></td><td>shorten / lengthen the pattern by one step.</td></tr>\n<tr><td><kbd>r</kbd> / <kbd>n</kbd></td><td>random melody in the pattern (follows the chord progression) / humanize it.</td></tr>\n<tr><td><kbd>m</kbd></td><td>mute the track.</td></tr>\n<tr><td><kbd>Space</kbd></td><td>play / pause (from the cursor). <kbd>s</kbd> moves the playhead to the cursor while playing.</td></tr>\n<tr><td><kbd>u</kbd> / <kbd>Cmd+Z</kbd></td><td>undo (everything, including graph edits).</td></tr>\n<tr><td><kbd>Tab</kbd></td><td>synth graph, landing on this track's TRK gate node.</td></tr>\n<tr><td><kbd>:</kbd></td><td>command line (below).</td></tr>\n</table>\n\n<h2 id=\"pattern\">Pattern editor</h2>\n<p>A piano roll of one pattern. While it is open, <kbd>Space</kbd> loops only this pattern, at its own length, so you can hear edits immediately. <kbd>Esc</kbd> returns to the arrangement and the whole song plays again. Rows are pitches (in-key rows are lighter); the cursor's octave is the octave that degree keys use.</p>\n<table>\n<tr><td><kbd>h</kbd>/<kbd>l</kbd>, <kbd>H</kbd>/<kbd>L</kbd></td><td>step / bar. <kbd>j</kbd>/<kbd>k</kbd> move by scale tone, <kbd>J</kbd>/<kbd>K</kbd> by octave.</td></tr>\n<tr><td><kbd>Enter</kbd></td><td>put a note at the cursor pitch (or remove the one that is there), then advance by the insert length.</td></tr>\n<tr><td><kbd>1</kbd>…<kbd>7</kbd></td><td>scale degree in the cursor's octave, replacing whatever is at that step, then advance.</td></tr>\n<tr><td><kbd>c</kbd> + degree, <kbd>C</kbd> + degree</td><td>diatonic triad / seventh chord on that degree. <kbd>a</kbd> arpeggiates the chord under the cursor.</td></tr>\n<tr><td><kbd>,</kbd> / <kbd>.</kbd></td><td>halve / double the insert length (shown in the header as ins n/grid).</td></tr>\n<tr><td><kbd>v</kbd></td><td>start a step selection. Range operations use the selection, otherwise the whole pattern (<kbd>r</kbd> <kbd>n</kbd> <kbd>X</kbd> <kbd>y</kbd>) or the cursor step (<kbd>-</kbd> <kbd>=</kbd> <kbd>(</kbd> <kbd>)</kbd> <kbd>&lt;</kbd> <kbd>&gt;</kbd> <kbd>_</kbd> <kbd>+</kbd>).</td></tr>\n<tr><td><kbd>r</kbd></td><td>new random melody using each bar's chord from the progression (<code>:prog</code>).</td></tr>\n<tr><td><kbd>n</kbd></td><td>humanize: small random timing and velocity changes.</td></tr>\n<tr><td><kbd>(</kbd> / <kbd>)</kbd></td><td>nudge notes earlier / later by 1/8 of a step. Times are stored as floats, so nothing is ever re-quantized.</td></tr>\n<tr><td><kbd>-</kbd> / <kbd>=</kbd></td><td>transpose by a semitone.</td></tr>\n<tr><td><kbd>&lt;</kbd> / <kbd>&gt;</kbd></td><td>shorten / lengthen notes by a step.</td></tr>\n<tr><td><kbd>_</kbd> / <kbd>+</kbd></td><td>velocity down / up.</td></tr>\n<tr><td><kbd>x</kbd> / <kbd>X</kbd></td><td>delete the note at the cursor (or all notes at that step) / clear the range.</td></tr>\n<tr><td><kbd>y</kbd> / <kbd>p</kbd></td><td>yank notes in the range / paste them at the cursor.</td></tr>\n</table>\n\n<h2 id=\"synth\">Synth graph</h2>\n<p>Nodes are laid out automatically: track inputs on the left, OUT on the right, each column one step further along the signal flow. The selected node has a white border. There are three modes; the help line at the bottom always shows the current one.</p>\n<p><b>Silent?</b> The second header line turns orange with a diagnosis: a track with no path to OUT, nothing connected to OUT, or an oscillator whose freq is driven by a 0..1 signal (an envelope or gate) and therefore runs at 0..1 Hz. A typical voice is TRK freq → OSC → MATH * (other input: ENV from TRK gate) → OUT.</p>\n<h3>Node mode</h3>\n<table>\n<tr><td><kbd>h</kbd> <kbd>j</kbd> <kbd>k</kbd> <kbd>l</kbd></td><td>move between nodes (columns / rows of the layout).</td></tr>\n<tr><td><kbd>Enter</kbd></td><td>edit the node's inputs (param mode).</td></tr>\n<tr><td><kbd>c</kbd></td><td>connect this node's <em>output</em>: move the yellow box onto the target node, <kbd>Enter</kbd>, then pick which of its inputs should read this node (<kbd>j</kbd>/<kbd>k</kbd> or a number), <kbd>Enter</kbd>. A white preview wire shows the connection before you confirm.</td></tr>\n<tr><td><kbd>i</kbd></td><td>the other direction: pick a node that this node's first input should read.</td></tr>\n<tr><td><kbd>d</kbd></td><td>disconnect this node's output from one (or all) of the inputs it feeds.</td></tr>\n<tr><td><kbd>a</kbd></td><td>add a node: a palette opens, press its letter. Chainable nodes (filter, delay, math, shaper, S&amp;H, buffer) are spliced right after the selected node. If the selected node feeds several places you are asked which connection the new node goes into (<kbd>j</kbd>/<kbd>k</kbd> or a number, the candidate wire turns white, <kbd>Enter</kbd>); \"all\" splices every connection, \"none\" only wires the input. Every new node's first input (OSC freq, ENV gate, KEY gate, FILT in, …) reads the selected node when that makes sense: an OSC takes the selection only if it is a TRK freq, MATH or S&amp;H node; an ENV or KEY only if it is a TRK gate, KEY or a MATH comparison. Otherwise they fall back to the current track's TRK nodes. So select a KEY and add an ENV to get an envelope triggered by that key.</td></tr>\n<tr><td><kbd>o</kbd></td><td>send the selected node to OUT. If OUT already has an input, a MATH + is inserted so both are mixed. This is how you make a new track audible: build its chain, then <kbd>o</kbd> on the last node.</td></tr>\n<tr><td><kbd>x</kbd></td><td>delete the node; its consumers are rewired to its main input.</td></tr>\n<tr><td><kbd>w</kbd> / <kbd>W</kbd></td><td>cycle the node's variant (saw → sqr, lp → hp, + → *, …).</td></tr>\n<tr><td><kbd>v</kbd></td><td>mark / unmark the selected node (small dot). Marks are the seeds for focus.</td></tr>\n<tr><td><kbd>f</kbd></td><td>toggle <b>focus</b>: show only the marked nodes plus everything upstream or downstream of them. Nodes you add while focused are marked automatically so they stay visible. <kbd>F</kbd> clears the marks.</td></tr>\n<tr><td><kbd>[</kbd> / <kbd>]</kbd></td><td>change the current track (affects auto-wiring and where Tab lands).</td></tr>\n</table>\n<h3>Param mode</h3>\n<table>\n<tr><td><kbd>j</kbd> / <kbd>k</kbd></td><td>choose the parameter.</td></tr>\n<tr><td><kbd>h</kbd> / <kbd>l</kbd></td><td>decrease / increase by about 12% (<kbd>H</kbd> / <kbd>L</kbd>: 1%). On a TRK node this cycles the track; on a KEY node's key it steps a semitone.</td></tr>\n<tr><td>digits then <kbd>Enter</kbd></td><td>type an exact value: <code>0.25</code>, <code>-3</code>, <code>6000</code>. For a KEY node's key you can also type a note name like <code>D4</code>. The value shows in the row as you type; <kbd>Backspace</kbd> edits, <kbd>Enter</kbd> commits.</td></tr>\n<tr><td><kbd>i</kbd></td><td>this input reads…: pick the source node with <kbd>h j k l</kbd> (yellow border) and press <kbd>Enter</kbd>. The input now follows that node's output.</td></tr>\n<tr><td><kbd>c</kbd></td><td>this node's output goes to…: same as <kbd>c</kbd> in node mode.</td></tr>\n<tr><td><kbd>x</kbd></td><td>disconnect: back to the default constant.</td></tr>\n<tr><td><kbd>Enter</kbd> / <kbd>Esc</kbd></td><td>back to node mode.</td></tr>\n</table>\n\n<h2 id=\"commands\">Command line</h2>\n<p>Press <kbd>:</kbd>, type the command with its arguments separated by spaces, press <kbd>Enter</kbd>. For example <code>:bpm 128</code> is three keystrokes plus the number: <kbd>:</kbd>, then <code>bpm 128</code>, then <kbd>Enter</kbd>. <kbd>Esc</kbd> cancels.</p>\n<table>\n<tr><td><code>bpm 128</code></td><td>tempo.</td></tr>\n<tr><td><code>bars 8</code></td><td>song length in bars.</td></tr>\n<tr><td><code>beats 3</code></td><td>beats per bar (3 = 3/4).</td></tr>\n<tr><td><code>grid 3</code></td><td>steps per beat: 4 = sixteenths, 3 = triplets, 8 = 32nds. Patterns keep their place in time.</td></tr>\n<tr><td><code>swing 0.67</code></td><td>delay the off-beat eighths: 0.5 straight, 0.67 triplet feel.</td></tr>\n<tr><td><code>key F# minor</code></td><td>key and mode (also <code>key Bbm</code>, <code>key C</code>). Affects degree entry, chords, random melodies and the piano-roll shading.</td></tr>\n<tr><td><code>prog 1 5 6 4</code></td><td>chord progression by scale degree, one per bar, repeating. Random melodies follow it.</td></tr>\n<tr><td><code>add pluck</code></td><td>new track named pluck. Its TRK nodes appear in the graph; wire them up.</td></tr>\n<tr><td><code>del</code> · <code>name X</code></td><td>delete / rename the current track.</td></tr>\n<tr><td><code>voice</code></td><td>build a playable synth for the current track: TRK freq → OSC saw → FILT lp → × ENV(gate) → × vel → × 0.3, mixed into OUT. Then tweak it.</td></tr>\n<tr><td><code>new</code></td><td>empty project: one track, an empty graph with just OUT and the track's TRK nodes. The app starts like this.</td></tr>\n<tr><td><code>sampleproject</code></td><td>replace the project with the demo song (lead, bass, drums routed with KEY nodes, pad) whose graph uses every node kind. <kbd>u</kbd> undoes it.</td></tr>\n<tr><td><code>help</code></td><td>this page.</td></tr>\n</table>\n\n<h2 id=\"nodes\">Nodes</h2>\n";

/// The page after the node reference.
pub const MANUAL_TAIL: &'static str = "\n\n<h2 id=\"files\">Files</h2>\n<p><kbd>Cmd+S</kbd> saves (Shift for save-as), <kbd>Cmd+O</kbd> opens. A song is a single JSON file (<code>.dd</code>) holding the graph, the tracks and their patterns, so it diffs and versions well.</p>\n</body></html>";

pub open spec fn doc_what(k: Kind) -> Seq<char> {
    match k {
        Kind::Trk => "The notes of one track, as signals. Pick which track with h/l on its <b>track</b> param. Variants: <b>freq</b> = pitch in Hz, <b>gate</b> = 1 while the note is held (0 after), <b>vel</b> = velocity 0..1, <b>note</b> = MIDI note number (C4 = 60). Every voice of that track evaluates the graph with its own values here."@,
        Kind::Osc => "Oscillator. <b>freq</b> in Hz (wire it to TRK freq, or type a constant for an LFO), <b>pw</b> only matters for <b>pulse</b>, <b>amp</b> scales the output: put an ENV there and the note has a volume envelope. Variants: sin, saw, sqr, tri, pulse, and <b>phase</b>, a raw 0..1 ramp for driving BUF, S&amp;H or your own waveshaping. saw/sqr/pulse are anti-aliased."@,
        Kind::Noise => "White noise, -1..1 every sample, times <b>amp</b> (put an ENV there for a hit)."@,
        Kind::Env => "ADSR envelope, 0..1. <b>gate</b> starts it on a rising edge and releases when it drops. <b>att</b>/<b>dec</b>/<b>rel</b> are seconds, <b>sus</b> is a level 0..1."@,
        Kind::Filt => "State-variable filter. <b>in</b> audio, <b>cut</b> cutoff in Hz (modulate it with anything), <b>q</b> resonance 0.1..50. Variants: lp lowpass, hp highpass, bp bandpass."@,
        Kind::Delay => "Delay line up to 2 seconds. <b>in</b> audio, <b>time</b> seconds (modulating it slowly gives chorus/flanger). Output is the delayed signal only, so mix it back with MATH +."@,
        Kind::Math => "Two-input arithmetic. Variants: + - * / min max pow, and comparisons &gt; and &lt; which output 1 or 0. Divide by zero gives 0."@,
        Kind::Shape => "Waveshapers on one input. tanh = soft clip / drive (scale the input up first with MATH *), clip = hard clip to -1..1, abs = full-wave rectify (octave up), sqrt (of |x|), neg = invert."@,
        Kind::Sh => "Sample &amp; hold. Captures <b>x</b> whenever <b>trig</b> goes above 0.5 and holds it until the next rising edge."@,
        Kind::Buf => "A recordable buffer up to 4 seconds: the primitive that makes wavetables, loopers, granular and tape effects possible. <b>in</b> is written at position <b>wpos</b> (0..1 across <b>size</b> seconds) while <b>rec</b> &gt; 0.5; the output is read (interpolated) at <b>rpos</b> (0..1, wraps). Both positions are signals, so drive them with OSC <b>phase</b> ramps, S&amp;H, envelopes or constants."@,
        Kind::Key => "Note router. Outputs <b>gate</b> only while <b>note</b> equals <b>key</b> (MIDI number, shown as a note name; type 62 or D4). Zero otherwise."@,
        Kind::Out => "The master output. Everything you hear goes through its <b>in</b>. There is exactly one; it can't be deleted."@,
    }
}

pub open spec fn doc_tips(k: Kind) -> Seq<char> {
    match k {
        Kind::Trk => "A track is silent until something wires its TRK nodes toward OUT. Tab from the arrangement jumps to the current track's gate node."@,
        Kind::Osc => "FM: wire an OSC (times a MATH *) into another OSC's freq. Detune: MATH * freq by 1.01. Sub osc: MATH * freq by 0.5. Vibrato: add a slow sin*3 to freq."@,
        Kind::Noise => "Hi-hat: NOISE → FILT hp 6000 → * ENV. Snare: NOISE + sine, short envelope. Random modulation: NOISE → S&amp;H."@,
        Kind::Env => "Percussive: sus 0. Pitch envelope for a kick: ENV → MATH * 250 → MATH + 50 → OSC sin freq. Filter sweep: ENV → MATH * 3000 → MATH + 300 → FILT cut."@,
        Kind::Filt => "Subtractive synth: OSC saw → FILT lp with an envelope on cut. Wah: cut from a slow OSC sin. Self-oscillating: q 30+."@,
        Kind::Delay => "Echo with feedback: feed the DELAY output through MATH * 0.4 back into the MATH + that feeds the DELAY (cycles are allowed; the loop reads the previous sample). Karplus-Strong string: NOISE burst → DELAY with time = 1/freq (MATH / : 1 divided by TRK freq) and high feedback through a FILT lp. Reverb: several delays with different times, mixed."@,
        Kind::Math => "Gain: MATH * by a constant. Mix: MATH +. Ring mod: MATH * two oscillators. Gates from any signal: MATH &gt; 0.5. Rectify: max(x, 0)."@,
        Kind::Shape => "Distortion: MATH * 5 → SHAPE tanh → MATH * 0.3. Octaver: SHAPE abs then a FILT lp to smooth."@,
        Kind::Sh => "Random stepped modulation: NOISE into x, OSC sqr at 6 Hz into trig. Arpeggio-like pitch steps: sample a slow OSC saw with a fast clock."@,
        Kind::Buf => "Wavetable: write one cycle (rec 1, wpos from OSC phase at 1/size Hz... or just record any sound) then read with an OSC phase at the note frequency times size. Tape/pitch shift: write with phase at 0.5 Hz, read with phase at 0.53 Hz (the demo pad). Reverse: rpos = MATH 1 - phase. Freeze: rec from TRK gate so it only records while a note is held, then keep reading. Granular: rpos = S&amp;H(NOISE) + a small fast phase ramp."@,
        Kind::Key => "Drums on one track: KEY C4 → kick chain, KEY D4 → hat chain, KEY E4 → snare chain, all summed with MATH + into the mix. Adding a KEY node auto-wires the current track's gate and note."@,
        Kind::Out => "Sum tracks into it with a chain of MATH + nodes. A MATH * before OUT is your master volume. A SHAPE tanh before OUT is a soft limiter."@,
    }
}

/// What a node kind does, and recipes that use it.
fn node_doc(k: Kind) -> (r: (&'static str, &'static str))
    ensures
        r.0@ == doc_what(k),
        r.1@ == doc_tips(k),
{
    match k {
        Kind::Trk => (
            "The notes of one track, as signals. Pick which track with h/l on its <b>track</b> param. Variants: <b>freq</b> = pitch in Hz, <b>gate</b> = 1 while the note is held (0 after), <b>vel</b> = velocity 0..1, <b>note</b> = MIDI note number (C4 = 60). Every voice of that track evaluates the graph with its own values here.",
            "A track is silent until something wires its TRK nodes toward OUT. Tab from the arrangement jumps to the current track's gate node.",
        ),
        Kind::Osc => (
            "Oscillator. <b>freq</b> in Hz (wire it to TRK freq, or type a constant for an LFO), <b>pw</b> only matters for <b>pulse</b>, <b>amp</b> scales the output: put an ENV there and the note has a volume envelope. Variants: sin, saw, sqr, tri, pulse, and <b>phase</b>, a raw 0..1 ramp for driving BUF, S&amp;H or your own waveshaping. saw/sqr/pulse are anti-aliased.",
            "FM: wire an OSC (times a MATH *) into another OSC's freq. Detune: MATH * freq by 1.01. Sub osc: MATH * freq by 0.5. Vibrato: add a slow sin*3 to freq.",
        ),
        Kind::Noise => (
            "White noise, -1..1 every sample, times <b>amp</b> (put an ENV there for a hit).",
            "Hi-hat: NOISE → FILT hp 6000 → * ENV. Snare: NOISE + sine, short envelope. Random modulation: NOISE → S&amp;H.",
        ),
        Kind::Env => (
            "ADSR envelope, 0..1. <b>gate</b> starts it on a rising edge and releases when it drops. <b>att</b>/<b>dec</b>/<b>rel</b> are seconds, <b>sus</b> is a level 0..1.",
            "Percussive: sus 0. Pitch envelope for a kick: ENV → MATH * 250 → MATH + 50 → OSC sin freq. Filter sweep: ENV → MATH * 3000 → MATH + 300 → FILT cut.",
        ),
        Kind::Filt => (
            "State-variable filter. <b>in</b> audio, <b>cut</b> cutoff in Hz (modulate it with anything), <b>q</b> resonance 0.1..50. Variants: lp lowpass, hp highpass, bp bandpass.",
            "Subtractive synth: OSC saw → FILT lp with an envelope on cut. Wah: cut from a slow OSC sin. Self-oscillating: q 30+.",
        ),
        Kind::Delay => (
            "Delay line up to 2 seconds. <b>in</b> audio, <b>time</b> seconds (modulating it slowly gives chorus/flanger). Output is the delayed signal only, so mix it back with MATH +.",
            "Echo with feedback: feed the DELAY output through MATH * 0.4 back into the MATH + that feeds the DELAY (cycles are allowed; the loop reads the previous sample). Karplus-Strong string: NOISE burst → DELAY with time = 1/freq (MATH / : 1 divided by TRK freq) and high feedback through a FILT lp. Reverb: several delays with different times, mixed.",
        ),
        Kind::Math => (
            "Two-input arithmetic. Variants: + - * / min max pow, and comparisons &gt; and &lt; which output 1 or 0. Divide by zero gives 0.",
            "Gain: MATH * by a constant. Mix: MATH +. Ring mod: MATH * two oscillators. Gates from any signal: MATH &gt; 0.5. Rectify: max(x, 0).",
        ),
        Kind::Shape => (
            "Waveshapers on one input. tanh = soft clip / drive (scale the input up first with MATH *), clip = hard clip to -1..1, abs = full-wave rectify (octave up), sqrt (of |x|), neg = invert.",
            "Distortion: MATH * 5 → SHAPE tanh → MATH * 0.3. Octaver: SHAPE abs then a FILT lp to smooth.",
        ),
        Kind::Sh => (
            "Sample &amp; hold. Captures <b>x</b> whenever <b>trig</b> goes above 0.5 and holds it until the next rising edge.",
            "Random stepped modulation: NOISE into x, OSC sqr at 6 Hz into trig. Arpeggio-like pitch steps: sample a slow OSC saw with a fast clock.",
        ),
        Kind::Buf => (
            "A recordable buffer up to 4 seconds: the primitive that makes wavetables, loopers, granular and tape effects possible. <b>in</b> is written at position <b>wpos</b> (0..1 across <b>size</b> seconds) while <b>rec</b> &gt; 0.5; the output is read (interpolated) at <b>rpos</b> (0..1, wraps). Both positions are signals, so drive them with OSC <b>phase</b> ramps, S&amp;H, envelopes or constants.",
            "Wavetable: write one cycle (rec 1, wpos from OSC phase at 1/size Hz... or just record any sound) then read with an OSC phase at the note frequency times size. Tape/pitch shift: write with phase at 0.5 Hz, read with phase at 0.53 Hz (the demo pad). Reverse: rpos = MATH 1 - phase. Freeze: rec from TRK gate so it only records while a note is held, then keep reading. Granular: rpos = S&amp;H(NOISE) + a small fast phase ramp.",
        ),
        Kind::Key => (
            "Note router. Outputs <b>gate</b> only while <b>note</b> equals <b>key</b> (MIDI number, shown as a note name; type 62 or D4). Zero otherwise.",
            "Drums on one track: KEY C4 → kick chain, KEY D4 → hat chain, KEY E4 → snare chain, all summed with MATH + into the mix. Adding a KEY node auto-wires the current track's gate and note.",
        ),
        Kind::Out => (
            "The master output. Everything you hear goes through its <b>in</b>. There is exactly one; it can't be deleted.",
            "Sum tracks into it with a chain of MATH + nodes. A MATH * before OUT is your master volume. A SHAPE tanh before OUT is a soft limiter.",
        ),
    }
}

/// A character as it must appear in HTML text.
pub open spec fn esc_char(c: char) -> Seq<char> {
    if c == '&' {
        seq!['&', 'a', 'm', 'p', ';']
    } else if c == '<' {
        seq!['&', 'l', 't', ';']
    } else if c == '>' {
        seq!['&', 'g', 't', ';']
    } else {
        seq![c]
    }
}

/// `s` with `&`, `<` and `>` escaped.
pub open spec fn escaped(s: Seq<char>) -> Seq<char>
    decreases s.len(),
{
    if s.len() == 0 {
        seq![]
    } else {
        escaped(s.drop_last()) + esc_char(s.last())
    }
}

/// `parts` joined with `sep` between them.
pub open spec fn joined(parts: Seq<Seq<char>>, sep: Seq<char>) -> Seq<char>
    decreases parts.len(),
{
    if parts.len() == 0 {
        seq![]
    } else if parts.len() == 1 {
        parts[0]
    } else {
        joined(parts.drop_last(), sep) + sep + parts.last()
    }
}

/// The palette key that adds a kind.
pub open spec fn key_char(k: Kind) -> char {
    match k {
        Kind::Trk => 't',
        Kind::Osc => 'o',
        Kind::Noise => 'n',
        Kind::Env => 'e',
        Kind::Filt => 'f',
        Kind::Delay => 'd',
        Kind::Math => 'm',
        Kind::Shape => 's',
        Kind::Sh => 'h',
        Kind::Buf => 'b',
        Kind::Key => 'k',
        Kind::Out => 'v',
    }
}

pub open spec fn key_text(k: Kind) -> Seq<char> {
    "<kbd>a</kbd> then <kbd>"@ + seq![key_char(k)] + "</kbd>"@
}

/// Each input with its default, joined by " · ".
pub open spec fn inputs_text(k: Kind) -> Seq<char> {
    let ps = Seq::new(arity(k), |i: int| "<b>"@ + param_names(k)[i] + "</b> = "@ + default_texts(k)[i]);
    if ps.len() == 0 { "none"@ } else { joined(ps, " · "@) }
}

/// The names of a kind's variants, escaped, separated by ", ".
pub open spec fn variants_list(k: Kind) -> Seq<char> {
    joined(variant_names(k).map_values(|x: Seq<char>| escaped(x)), ", "@)
}

pub open spec fn variants_text(k: Kind) -> Seq<char> {
    let v = variant_names(k);
    if v.len() == 0 {
        seq![]
    } else {
        "<div><span class=l>variants</span> "@ + variants_list(k)
            + " <span class=dim>(w / W cycles)</span></div>"@
    }
}

/// The heading of a kind's section.
pub open spec fn heading(k: Kind) -> Seq<char> {
    "<h3>"@ + kind_name(k) + "</h3>"@
}

#[verifier::opaque]
pub open spec fn section_rest(k: Kind) -> Seq<char> {
    "<div><span class=l>add</span> "@ + key_text(k) + "</div><div><span class=l>inputs</span> "@ + inputs_text(k) + "</div>"@
        + variants_text(k) + "<p>"@ + doc_what(k) + "</p><p class=tip><b>Recipes.</b> "@ + doc_tips(k) + "</p></section>"@
}

/// The manual's section on one kind.
#[verifier::opaque]
pub open spec fn section(k: Kind) -> Seq<char> {
    "<section id=\""@ + kind_name(k) + "\">"@ + heading(k) + section_rest(k)
}

pub open spec fn all_kinds() -> Seq<Kind> {
    seq![Kind::Trk, Kind::Osc, Kind::Noise, Kind::Env, Kind::Filt, Kind::Delay, Kind::Math, Kind::Shape, Kind::Sh, Kind::Buf, Kind::Key, Kind::Out]
}

/// The sections of the first `m` kinds, in order.
pub open spec fn sections(m: int) -> Seq<char>
    decreases m,
{
    if m <= 0 || m > 12 {
        seq![]
    } else {
        sections(m - 1) + section(all_kinds()[m - 1])
    }
}

/// The whole page.
pub open spec fn manual() -> Seq<char> {
    MANUAL_HEAD@ + sections(12) + MANUAL_TAIL@
}

fn esc(s: &str) -> (r: String)
    ensures
        r@ == escaped(s@),
{
    let mut r = String::new();
    let n = s.unicode_len();
    let mut i: usize = 0;
    while i < n
        invariant
            n == s@.len(),
            i <= n,
            r@ == escaped(s@.take(i as int)),
        decreases n - i,
    {
        let c = s.get_char(i);
        let ghost before = r@;
        if c == '&' {
            push_str(&mut r, "&amp;");
            proof { reveal_strlit("&amp;"); }
        } else if c == '<' {
            push_str(&mut r, "&lt;");
            proof { reveal_strlit("&lt;"); }
        } else if c == '>' {
            push_str(&mut r, "&gt;");
            proof { reveal_strlit("&gt;"); }
        } else {
            push_char(&mut r, c);
        }
        assert(r@ =~= before + esc_char(c));
        assert(s@.take(i + 1).drop_last() =~= s@.take(i as int));
        i += 1;
    }
    assert(s@.take(n as int) =~= s@);
    r
}

fn key_exec(k: Kind) -> (c: char)
    ensures
        c == key_char(k),
{
    match k {
        Kind::Trk => 't',
        Kind::Osc => 'o',
        Kind::Noise => 'n',
        Kind::Env => 'e',
        Kind::Filt => 'f',
        Kind::Delay => 'd',
        Kind::Math => 'm',
        Kind::Shape => 's',
        Kind::Sh => 'h',
        Kind::Buf => 'b',
        Kind::Key => 'k',
        Kind::Out => 'v',
    }
}

fn inputs_exec(k: Kind) -> (r: String)
    ensures
        r@ == inputs_text(k),
{
    let ps = k.params();
    let ds = k.default_labels();
    let ghost parts = Seq::new(arity(k), |i: int| "<b>"@ + param_names(k)[i] + "</b> = "@ + default_texts(k)[i]);
    let mut r = String::new();
    let mut i: usize = 0;
    assert(ps@.len() == arity(k));
    while i < ps.len()
        invariant
            ps@.map_values(|s: &str| s@) == param_names(k),
            ds@.map_values(|s: &str| s@) == default_texts(k),
            ps@.len() == arity(k),
            ds@.len() == arity(k),
            parts == Seq::new(arity(k), |i: int| "<b>"@ + param_names(k)[i] + "</b> = "@ + default_texts(k)[i]),
            i <= ps@.len(),
            r@ == joined(parts.take(i as int), " · "@),
        decreases ps@.len() - i,
    {
        let ghost before = r@;
        if i > 0 {
            push_str(&mut r, " · ");
        }
        push_str(&mut r, "<b>");
        push_str(&mut r, ps[i]);
        push_str(&mut r, "</b> = ");
        push_str(&mut r, ds[i]);
        proof {
            assert(ps@.map_values(|s: &str| s@)[i as int] == ps@[i as int]@);
            assert(ds@.map_values(|s: &str| s@)[i as int] == ds@[i as int]@);
            assert(parts.take(i + 1).drop_last() =~= parts.take(i as int));
            if i == 0 {
                assert(r@ =~= parts[0]);
                assert(parts.take(1).len() == 1);
            } else {
                assert(r@ =~= before + " · "@ + parts[i as int]);
            }
        }
        i += 1;
    }
    assert(parts.take(ps@.len() as int) =~= parts);
    if ps.len() == 0 {
        push_str(&mut r, "none");
    }
    r
}

fn variants_exec(k: Kind) -> (r: String)
    ensures
        r@ == variants_text(k),
{
    let v = k.variants();
    let mut r = String::new();
    if v.len() == 0 {
        return r;
    }
    let ghost parts = variant_names(k).map_values(|x: Seq<char>| escaped(x));
    push_str(&mut r, "<div><span class=l>variants</span> ");
    let ghost start = r@;
    let mut i: usize = 0;
    while i < v.len()
        invariant
            v@.map_values(|s: &str| s@) == variant_names(k),
            parts == variant_names(k).map_values(|x: Seq<char>| escaped(x)),
            i <= v@.len(),
            r@ == start + joined(parts.take(i as int), ", "@),
        decreases v@.len() - i,
    {
        let ghost before = r@;
        if i > 0 {
            push_str(&mut r, ", ");
        }
        let e = esc(v[i]);
        push_str(&mut r, e.as_str());
        proof {
            assert(v@.map_values(|s: &str| s@)[i as int] == v@[i as int]@);
            assert(parts[i as int] == escaped(v@[i as int]@));
            assert(parts.take(i + 1).drop_last() =~= parts.take(i as int));
            if i == 0 {
                assert(r@ =~= start + parts[0]);
            } else {
                assert(r@ =~= before + ", "@ + parts[i as int]);
            }
        }
        i += 1;
    }
    assert(parts.take(v@.len() as int) =~= parts);
    push_str(&mut r, " <span class=dim>(w / W cycles)</span></div>");
    r
}

fn section_exec(k: Kind) -> (r: String)
    ensures
        r@ == section(k),
{
    let (what, tips) = node_doc(k);
    let mut r = String::new();
    push_str(&mut r, "<section id=\"");
    push_str(&mut r, k.name());
    push_str(&mut r, "\">");
    push_str(&mut r, "<h3>");
    push_str(&mut r, k.name());
    push_str(&mut r, "</h3>");
    push_str(&mut r, "<div><span class=l>add</span> ");
    push_str(&mut r, "<kbd>a</kbd> then <kbd>");
    push_char(&mut r, key_exec(k));
    push_str(&mut r, "</kbd>");
    push_str(&mut r, "</div><div><span class=l>inputs</span> ");
    let p = inputs_exec(k);
    push_str(&mut r, p.as_str());
    push_str(&mut r, "</div>");
    let v = variants_exec(k);
    push_str(&mut r, v.as_str());
    push_str(&mut r, "<p>");
    push_str(&mut r, what);
    push_str(&mut r, "</p><p class=tip><b>Recipes.</b> ");
    push_str(&mut r, tips);
    push_str(&mut r, "</p></section>");
    reveal(section_rest);
    reveal(section);
    assert(r@ =~= section(k));
    r
}

/// The manual page.
pub fn html() -> (r: String)
    ensures
        r@ == manual(),
{
    let mut nodes = String::new();
    let mut i: usize = 0;
    while i < 12
        invariant
            i <= 12,
            nodes@ == sections(i as int),
        decreases 12 - i,
    {
        let k = ALL[i];
        assert(k == all_kinds()[i as int]);
        let sec = section_exec(k);
        push_str(&mut nodes, sec.as_str());
        i += 1;
    }
    let mut r = String::new();
    push_str(&mut r, MANUAL_HEAD);
    push_str(&mut r, nodes.as_str());
    push_str(&mut r, MANUAL_TAIL);
    r
}

/// `text` occurs in `page` at position `i`.
pub open spec fn occurs_at(page: Seq<char>, text: Seq<char>, i: int) -> bool {
    0 <= i && i + text.len() <= page.len() && page.subrange(i, i + text.len()) == text
}

/// Every node kind has its own section on the manual page, headed by its name.
pub proof fn lemma_manual_lists_every_kind(k: Kind)
    ensures
        exists|i: int| #[trigger] occurs_at(manual(), heading(k), i),
{
    let j: int = match k {
        Kind::Trk => 0,
        Kind::Osc => 1,
        Kind::Noise => 2,
        Kind::Env => 3,
        Kind::Filt => 4,
        Kind::Delay => 5,
        Kind::Math => 6,
        Kind::Shape => 7,
        Kind::Sh => 8,
        Kind::Buf => 9,
        Kind::Key => 10,
        Kind::Out => 11,
    };
    assert(all_kinds()[j] == k);
    lemma_heading_at(j);
}

proof fn lemma_heading_at(j: int)
    requires
        0 <= j < 12,
    ensures
        exists|i: int| #[trigger] occurs_at(manual(), heading(all_kinds()[j]), i),
{
    let k = all_kinds()[j];
    let a = MANUAL_HEAD@ + sections(j);
    let b = "<section id=\""@ + kind_name(k) + "\">"@;
    let c = section_rest(k) + sections_after(j + 1) + MANUAL_TAIL@;
    lemma_sections_split(j);
    reveal(section);
    assert(section(k) == b + heading(k) + section_rest(k));
    assert(manual() =~= (a + b) + heading(k) + c);
    lemma_occurs(a + b, heading(k), c);
}

proof fn lemma_occurs(a: Seq<char>, b: Seq<char>, c: Seq<char>)
    ensures
        occurs_at(a + b + c, b, a.len() as int),
{
    assert((a + b + c).subrange(a.len() as int, (a.len() + b.len()) as int) =~= b);
}

/// The sections after the first `m`.
pub open spec fn sections_after(m: int) -> Seq<char>
    decreases 12 - m,
{
    if m >= 12 || m < 0 {
        seq![]
    } else {
        section(all_kinds()[m]) + sections_after(m + 1)
    }
}

proof fn lemma_sections_split(j: int)
    requires
        0 <= j < 12,
    ensures
        sections(12) == sections(j) + section(all_kinds()[j]) + sections_after(j + 1),
    decreases 12 - j,
{
    lemma_sections_concat(j);
    assert(sections_after(j) == section(all_kinds()[j]) + sections_after(j + 1));
    assert(sections(12) =~= sections(j) + section(all_kinds()[j]) + sections_after(j + 1));
}

proof fn lemma_sections_concat(j: int)
    requires
        0 <= j <= 12,
    ensures
        sections(12) == sections(j) + sections_after(j),
    decreases 12 - j,
{
    if j < 12 {
        lemma_sections_concat(j + 1);
        assert(sections(j + 1) == sections(j) + section(all_kinds()[j]));
        assert(sections(12) =~= sections(j) + sections_after(j));
    } else {
        assert(sections(12) =~= sections(12) + seq![]);
    }
}


proof fn lemma_occurs_within(big: Seq<char>, mid: Seq<char>, small: Seq<char>, x: int, y: int)
    requires
        occurs_at(big, mid, x),
        occurs_at(mid, small, y),
    ensures
        occurs_at(big, small, x + y),
{
    assert(big.subrange(x + y, x + y + small.len()) =~= mid.subrange(y, y + small.len()));
}

/// Part `i` of `parts` occurs in `parts` joined with `sep`.
proof fn lemma_part_in_joined(parts: Seq<Seq<char>>, sep: Seq<char>, i: int)
    requires
        0 <= i < parts.len(),
    ensures
        exists|x: int| #[trigger] occurs_at(joined(parts, sep), parts[i], x),
    decreases parts.len(),
{
    if parts.len() == 1 {
        assert(joined(parts, sep).subrange(0, parts[0].len() as int) =~= parts[0]);
        assert(occurs_at(joined(parts, sep), parts[i], 0));
    } else {
        let dl = parts.drop_last();
        let head = joined(dl, sep);
        assert(joined(parts, sep) == head + sep + parts.last());
        if i < parts.len() - 1 {
            lemma_part_in_joined(dl, sep, i);
            let x = choose|x: int| occurs_at(head, dl[i], x);
            assert(dl[i] == parts[i]);
            assert(occurs_at(joined(parts, sep), head, 0)) by {
                assert(joined(parts, sep).subrange(0, head.len() as int) =~= head);
            }
            lemma_occurs_within(joined(parts, sep), head, parts[i], 0, x);
        } else {
            lemma_occurs(head + sep, parts.last(), seq![]);
            assert(head + sep + parts.last() + seq![] =~= joined(parts, sep));
            assert(occurs_at(joined(parts, sep), parts[i], (head + sep).len() as int));
        }
    }
}

/// The section of kind `k` is on the manual page.
proof fn lemma_section_in_manual(k: Kind)
    ensures
        exists|x: int| #[trigger] occurs_at(manual(), section(k), x),
{
    let j: int = match k {
        Kind::Trk => 0,
        Kind::Osc => 1,
        Kind::Noise => 2,
        Kind::Env => 3,
        Kind::Filt => 4,
        Kind::Delay => 5,
        Kind::Math => 6,
        Kind::Shape => 7,
        Kind::Sh => 8,
        Kind::Buf => 9,
        Kind::Key => 10,
        Kind::Out => 11,
    };
    assert(all_kinds()[j] == k);
    lemma_sections_split(j);
    let a = MANUAL_HEAD@ + sections(j);
    let c = sections_after(j + 1) + MANUAL_TAIL@;
    assert(manual() =~= a + section(k) + c);
    lemma_occurs(a, section(k), c);
}

/// Every input of every kind is listed on the manual page, with its default value.
pub proof fn lemma_manual_lists_inputs(k: Kind, i: int)
    requires
        0 <= i < arity(k),
    ensures
        exists|x: int| #[trigger] occurs_at(manual(), "<b>"@ + param_names(k)[i] + "</b> = "@ + default_texts(k)[i], x),
{
    let ps = Seq::new(arity(k), |q: int| "<b>"@ + param_names(k)[q] + "</b> = "@ + default_texts(k)[q]);
    let line = ps[i];
    lemma_part_in_joined(ps, " · "@, i);
    assert(inputs_text(k) == joined(ps, " · "@));
    let y = choose|y: int| occurs_at(inputs_text(k), line, y);
    reveal(section);
    reveal(section_rest);
    let pre = "<section id=\""@ + kind_name(k) + "\">"@ + heading(k) + "<div><span class=l>add</span> "@ + key_text(k)
        + "</div><div><span class=l>inputs</span> "@;
    let post = "</div>"@ + variants_text(k) + "<p>"@ + doc_what(k) + "</p><p class=tip><b>Recipes.</b> "@ + doc_tips(k) + "</p></section>"@;
    assert(section(k) =~= pre + inputs_text(k) + post);
    lemma_occurs(pre, inputs_text(k), post);
    lemma_section_in_manual(k);
    let x = choose|x: int| occurs_at(manual(), section(k), x);
    lemma_occurs_within(section(k), inputs_text(k), line, pre.len() as int, y);
    lemma_occurs_within(manual(), section(k), line, x, pre.len() + y);
}

/// Every kind with variants has them listed on the manual page, escaped and comma-separated.
pub proof fn lemma_manual_lists_variants(k: Kind)
    requires
        variant_names(k).len() > 0,
    ensures
        exists|x: int| #[trigger] occurs_at(manual(), variants_list(k), x),
{
    let list = variants_list(k);
    let vpre = "<div><span class=l>variants</span> "@;
    let vpost = " <span class=dim>(w / W cycles)</span></div>"@;
    assert(variants_text(k) == vpre + list + vpost);
    lemma_occurs(vpre, list, vpost);
    reveal(section);
    reveal(section_rest);
    let pre = "<section id=\""@ + kind_name(k) + "\">"@ + heading(k) + "<div><span class=l>add</span> "@ + key_text(k)
        + "</div><div><span class=l>inputs</span> "@ + inputs_text(k) + "</div>"@;
    let post = "<p>"@ + doc_what(k) + "</p><p class=tip><b>Recipes.</b> "@ + doc_tips(k) + "</p></section>"@;
    assert(section(k) =~= pre + variants_text(k) + post);
    lemma_occurs(pre, variants_text(k), post);
    lemma_section_in_manual(k);
    let x = choose|x: int| occurs_at(manual(), section(k), x);
    lemma_occurs_within(section(k), variants_text(k), list, pre.len() as int, vpre.len() as int);
    lemma_occurs_within(manual(), section(k), list, x, (pre.len() + vpre.len()) as int);
}


/// The manual has one section per kind, in the order of `all_kinds()` (the order of `ALL`), each
/// starting where the one before it ends.
pub proof fn lemma_manual_sections_in_order(j: int)
    requires
        0 <= j < 12,
    ensures
        occurs_at(manual(), section(all_kinds()[j]), (MANUAL_HEAD@.len() + sections(j).len()) as int),
        sections(j + 1).len() == sections(j).len() + section(all_kinds()[j]).len(),
{
    lemma_sections_split(j);
    let a = MANUAL_HEAD@ + sections(j);
    let c = sections_after(j + 1) + MANUAL_TAIL@;
    assert(manual() =~= a + section(all_kinds()[j]) + c);
    lemma_occurs(a, section(all_kinds()[j]), c);
    assert(sections(j + 1) == sections(j) + section(all_kinds()[j]));
}

} // verus!