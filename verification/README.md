# dirty daw

A keyboard-driven synthesizer and pattern sequencer. One signal graph is shared by the
whole song; each track feeds it through TRK nodes, and every track gets its own pruned,
flat evaluation program compiled from the graph.

The library (`src/`) is written in Verus and verified: every public function carries a
contract over a mathematical model of the song and the graph, and the properties that span
several operations are proved as lemmas.

- `value` — floating-point quantities held as IEEE bit patterns (the library stores and
  compares them, it does not compute with them).
- `text` — decimal numbers and ASCII case for display strings.
- `graph` — node kinds and their tables, the graph and its edits (add, insert with
  splicing, remove with rewiring, send to OUT, voice recipe, normalize), and the laws
  that node ids stay fresh, splicing leaves nothing reading the old node, removal leaves
  no dangling link, and normalizing gives every node exactly its kind's inputs.
- `flow` — which tracks each node depends on, which nodes are related to marked ones,
  and the "why is it silent" diagnosis.
- `dsp`, `compile` — the flat program form and the per-track compiler (pruning to the
  nodes a track drives, evaluation order with feedback reading the previous sample).
- `layout` — columns along the signal flow and rows within a column for drawing.
- `docs` — the HTML manual, generated from the same tables the synth uses.
- `song` — tracks, patterns and their placement, keys, scales and chords, the demo song,
  and the laws that pattern edits keep patterns from overlapping.
- `editor`, `voices` — the editor's cursor movement and command arguments, and which
  voice a new note takes.
- `arrange`, `note_edit`, `synth_edit` — the keyboard commands of the arrangement view, the
  pattern editor and the synth view,
  each key one step from (editor, song) to the next editor, the next song and what is left
  for the window to do.

`app/` is the program around the library: the egui window, the audio engine and the
per-sample oscillators and filters (floating point), file dialogs, the JSON file format,
and the local server for the manual. `tests/` exercises the library.
