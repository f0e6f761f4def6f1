use dirty_daw::arrange::EditAction;
use dirty_daw::graph::{Input, Kind};
use dirty_daw::song::Song;
use dirty_daw::synth_edit::{synth_char, synth_key, synth_tidy, EditKey, SMode, SynthEditor};

fn editor() -> SynthEditor {
    SynthEditor {
        sel_node: None, mode: SMode::Node, param: 0, num: String::new(), pick: None, marks: vec![], focus: false,
        splice_kind: Kind::Math, splice_choices: vec![], splice_idx: 0,
    }
}

fn voiced_song() -> (Song, u32) {
    let mut s = Song::empty();
    s.add_track("a");
    let gain = s.add_voice(0);
    (s, gain)
}

#[test]
fn palette_adds_and_splices() {
    let (mut s, _) = voiced_song();
    let osc = s.graph.nodes.iter().find(|n| n.kind == Kind::Osc).unwrap().id;
    let mut ed = editor();
    ed.sel_node = Some(osc);
    assert_eq!(synth_char(&mut ed, &mut s, 0, 'a'), EditAction::Nothing);
    assert_eq!(ed.mode, SMode::Palette);
    assert_eq!(synth_char(&mut ed, &mut s, 0, 'd'), EditAction::Changed);
    let d = ed.sel_node.unwrap();
    assert_eq!(s.graph.get(d).unwrap().kind, Kind::Delay);
    assert_eq!(s.graph.get(d).unwrap().inputs[0], Input::Link(osc));
    assert!(s.graph.nodes.iter().filter(|n| n.id != d).all(|n| !n.inputs.contains(&Input::Link(osc))));
    assert_eq!(ed.mode, SMode::Node);
}

#[test]
fn delete_reselects_and_out_is_kept() {
    let (mut s, _) = voiced_song();
    let mut ed = editor();
    let n = s.graph.nodes.len();
    assert_eq!(synth_key(&mut ed, &mut s, 0, EditKey::Delete), EditAction::Refused);
    assert_eq!(s.graph.nodes.len(), n);
    let flt = s.graph.nodes.iter().find(|x| x.kind == Kind::Filt).unwrap().id;
    ed.sel_node = Some(flt);
    assert_eq!(synth_char(&mut ed, &mut s, 0, 'x'), EditAction::Changed);
    assert!(s.graph.get(flt).is_none());
    assert!(ed.sel_node.is_some());
    assert_ne!(ed.sel_node, Some(flt));
}

#[test]
fn param_mode_and_number_entry() {
    let (mut s, gain) = voiced_song();
    let mut ed = editor();
    ed.sel_node = Some(gain);
    assert_eq!(synth_key(&mut ed, &mut s, 0, EditKey::Enter), EditAction::Nothing);
    assert_eq!(ed.mode, SMode::Param);
    synth_char(&mut ed, &mut s, 0, 'j');
    assert_eq!(ed.param, 1);
    synth_char(&mut ed, &mut s, 0, 'j');
    assert_eq!(ed.param, 1);
    synth_char(&mut ed, &mut s, 0, '0');
    synth_char(&mut ed, &mut s, 0, '.');
    synth_char(&mut ed, &mut s, 0, '5');
    assert_eq!(ed.num, "0.5");
    synth_key(&mut ed, &mut s, 0, EditKey::Backspace);
    assert_eq!(ed.num, "0.");
    assert_eq!(synth_key(&mut ed, &mut s, 0, EditKey::Enter), EditAction::CommitNumber);
    assert_eq!(synth_char(&mut ed, &mut s, 0, 'l'), EditAction::Adjust(true, false));
    assert_eq!(synth_char(&mut ed, &mut s, 0, 'H'), EditAction::Adjust(false, true));
    assert_eq!(synth_char(&mut ed, &mut s, 0, 'x'), EditAction::Changed);
    assert_eq!(s.graph.get(gain).unwrap().inputs[1], Input::Const(Kind::Math.defaults()[1]));
    synth_char(&mut ed, &mut s, 0, 'k');
    assert_eq!(synth_char(&mut ed, &mut s, 0, 'l'), EditAction::Refused);
}

#[test]
fn marks_focus_and_disconnect() {
    let (mut s, gain) = voiced_song();
    let mut ed = editor();
    ed.sel_node = Some(gain);
    assert_eq!(synth_char(&mut ed, &mut s, 0, 'f'), EditAction::Refused);
    synth_char(&mut ed, &mut s, 0, 'v');
    assert_eq!(ed.marks, vec![gain]);
    synth_char(&mut ed, &mut s, 0, 'f');
    assert!(ed.focus);
    synth_char(&mut ed, &mut s, 0, 'v');
    assert!(ed.marks.is_empty());
    synth_char(&mut ed, &mut s, 0, 'F');
    assert!(!ed.focus);
    assert_eq!(synth_char(&mut ed, &mut s, 0, 'd'), EditAction::Nothing);
    assert_eq!(ed.mode, SMode::Disconnect);
    assert_eq!(synth_key(&mut ed, &mut s, 0, EditKey::Enter), EditAction::Changed);
    let out = s.graph.get(s.graph.out_id().unwrap()).unwrap();
    assert!(matches!(out.inputs[0], Input::Const(_)));
    assert_eq!(synth_char(&mut ed, &mut s, 0, 'o'), EditAction::Changed);
    let out = s.graph.get(s.graph.out_id().unwrap()).unwrap();
    assert_eq!(out.inputs[0], Input::Link(gain));
    assert_eq!(synth_char(&mut ed, &mut s, 0, ']'), EditAction::Track(0));
}

#[test]
fn variants_cycle_and_voice_recipe() {
    let (mut s, _) = voiced_song();
    let osc = s.graph.nodes.iter().find(|n| n.kind == Kind::Osc).unwrap().id;
    let mut ed = editor();
    ed.sel_node = Some(osc);
    assert_eq!(synth_char(&mut ed, &mut s, 0, 'W'), EditAction::Changed);
    assert_eq!(s.graph.get(osc).unwrap().var, 0);
    assert_eq!(synth_char(&mut ed, &mut s, 0, 'W'), EditAction::Changed);
    assert_eq!(s.graph.get(osc).unwrap().var, 5);
    let n = s.graph.nodes.len();
    ed.sel_node = None;
    synth_char(&mut ed, &mut s, 0, 'a');
    assert_eq!(synth_char(&mut ed, &mut s, 0, 'v'), EditAction::Changed);
    assert!(s.graph.nodes.len() > n);
    assert_eq!(s.graph.get(ed.sel_node.unwrap()).unwrap().kind, Kind::Math);
}

#[test]
fn tidy_follows_the_graph() {
    let (mut s, gain) = voiced_song();
    let mut ed = editor();
    ed.sel_node = Some(9999);
    ed.marks = vec![gain, 9999];
    ed.param = 7;
    ed.mode = SMode::Param;
    synth_tidy(&mut ed, &s.graph);
    assert_eq!(ed.marks, vec![gain]);
    assert_eq!(ed.sel_node, s.graph.out_id());
    assert_eq!(ed.param, 0);
    let noise = s.graph.add(Kind::Noise, 0, vec![]);
    ed.focus = true;
    ed.sel_node = Some(noise);
    synth_tidy(&mut ed, &s.graph);
    assert_ne!(ed.sel_node, Some(noise));
    assert!(ed.sel_node.is_some());
}
