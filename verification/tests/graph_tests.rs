use dirty_daw::graph::{palette, Graph, Input, Kind, ALL};
use dirty_daw::song::Song;
use dirty_daw::value::Bits32;

fn c(v: f32) -> Input {
    Input::Const(Bits32(v.to_bits()))
}

#[test]
fn pruning_and_splicing() {
    let song = Song::demo();
    let ids: Vec<u32> = song.tracks.iter().map(|t| t.id).collect();
    let mut g = song.graph.clone();
    let progs = g.compile_all(&ids);
    // every track program is smaller than the whole graph but has an output
    for p in &progs {
        assert!(p.out.is_some());
        assert!(p.row_node.len() < g.nodes.len());
    }
    let osc = g.nodes.iter().find(|n| n.kind == Kind::Osc).unwrap().id;
    let f = g.insert(Kind::Filt, Some(osc), ids[0]);
    assert_eq!(g.get(f).unwrap().inputs[0], Input::Link(osc));
    assert!(g.nodes.iter().filter(|n| n.id != f).all(|n| !n.inputs.contains(&Input::Link(osc))));
    g.remove(f);
    assert!(g.nodes.iter().any(|n| n.inputs.contains(&Input::Link(osc))));
    let lay = g.layout(&ids);
    let out = g.idx(g.out_id().unwrap()).unwrap();
    assert_eq!(lay[out].0, lay.iter().map(|p| p.0).max().unwrap());
}

#[test]
fn kind_tables_line_up() {
    for k in ALL {
        assert_eq!(k.params().len(), k.defaults().len(), "{}", k.name());
        assert_eq!(k.default_labels().len(), k.defaults().len());
        for (d, l) in k.defaults().iter().zip(k.default_labels()) {
            assert_eq!(f32::from_bits(d.0).to_string(), *l);
        }
    }
    assert_eq!(Kind::Sh.name(), "S&H");
    assert_eq!(Kind::Osc.params(), &["freq", "pw", "amp"]);
    assert_eq!(Kind::Math.variants().len(), 9);
    assert!(Kind::Filt.chainable() && !Kind::Osc.chainable() && !Kind::Out.chainable() && !Kind::Key.chainable());
    let keys: String = palette().iter().map(|e| e.0).collect();
    assert_eq!(keys, "tonefdmshbkv");
}

#[test]
fn add_fills_defaults_and_titles() {
    let mut g = Graph::default();
    let a = g.add(Kind::Osc, 1, vec![c(220.0)]);
    let n = g.get(a).unwrap();
    assert_eq!(n.inputs, vec![c(220.0), c(0.5), c(1.0)]);
    assert_eq!(n.title(), "OSC saw #0");
    assert_eq!(n.short(), "saw0");
    let b = g.add(Kind::Noise, 0, vec![c(1.0), c(2.0)]);
    assert_eq!(g.get(b).unwrap().inputs.len(), 1);
    assert_eq!(g.get(b).unwrap().title(), "NOISE #1");
    assert_eq!(g.get(b).unwrap().short(), "noise1");
    assert_eq!(g.next_id, 2);
    assert_eq!(g.idx(1), Some(1));
    assert_eq!(g.idx(7), None);
}

#[test]
fn to_out_mixes_when_busy() {
    let mut g = Graph::default();
    let out = g.add(Kind::Out, 0, vec![]);
    let a = g.add(Kind::Osc, 0, vec![]);
    let b = g.add(Kind::Noise, 0, vec![]);
    assert_eq!(g.to_out(a), Some(out));
    assert_eq!(g.get(out).unwrap().inputs[0], Input::Link(a));
    assert_eq!(g.to_out(a), Some(out));
    let mix = g.to_out(b).unwrap();
    assert_ne!(mix, out);
    assert_eq!(g.get(mix).unwrap().kind, Kind::Math);
    assert_eq!(g.get(mix).unwrap().inputs, vec![Input::Link(a), Input::Link(b)]);
    assert_eq!(g.get(out).unwrap().inputs[0], Input::Link(mix));
    assert_eq!(g.to_out(out), None);
}

#[test]
fn consumers_disconnect_and_remove() {
    let mut g = Graph::default();
    let out = g.add(Kind::Out, 0, vec![]);
    let o = g.add(Kind::Osc, 0, vec![]);
    let f = g.add(Kind::Filt, 0, vec![Input::Link(o)]);
    let m = g.add(Kind::Math, 2, vec![Input::Link(f), Input::Link(f)]);
    g.get_mut(out).unwrap().inputs[0] = Input::Link(m);
    assert_eq!(g.consumers(f), vec![(m, 0), (m, 1)]);
    g.disconnect(m, 1);
    assert_eq!(g.get(m).unwrap().inputs[1], c(1.0));
    // removing f rewires its consumers to what f read
    g.remove(f);
    assert_eq!(g.get(m).unwrap().inputs[0], Input::Link(o));
    assert!(g.get(f).is_none());
    // OUT is never removed
    g.remove(out);
    assert!(g.get(out).is_some());
}

#[test]
fn insert_into_reaches_only_targets() {
    let mut g = Graph::default();
    let _out = g.add(Kind::Out, 0, vec![]);
    let o = g.add(Kind::Osc, 0, vec![]);
    let a = g.add(Kind::Math, 2, vec![Input::Link(o)]);
    let b = g.add(Kind::Math, 2, vec![Input::Link(o)]);
    let d = g.insert_into(Kind::Delay, o, &[(b, 0)], 0);
    assert_eq!(g.get(d).unwrap().inputs[0], Input::Link(o));
    assert_eq!(g.get(a).unwrap().inputs[0], Input::Link(o));
    assert_eq!(g.get(b).unwrap().inputs[0], Input::Link(d));
}

#[test]
fn normalize_fixes_inputs_and_out() {
    let mut g = Graph { nodes: vec![], next_id: 5 };
    g.nodes.push(dirty_daw::graph::Node { id: 3, kind: Kind::Filt, var: 0, inputs: vec![c(f32::NAN)], track: 0 });
    g.normalize();
    let f = g.get(3).unwrap();
    assert_eq!(f.inputs, vec![c(0.0), c(1000.0), c(0.7)]);
    assert!(g.out_id().is_some());
}

#[test]
fn deps_and_related_follow_links() {
    let mut s = Song::empty();
    s.add_track("a");
    s.add_track("b");
    let ids = s.track_ids();
    let g = &mut s.graph;
    let fa = g.find_trk(ids[0], 0).unwrap();
    let fb = g.find_trk(ids[1], 0).unwrap();
    let oa = g.add(Kind::Osc, 0, vec![Input::Link(fa)]);
    let ob = g.add(Kind::Osc, 0, vec![Input::Link(fb)]);
    let mix = g.add(Kind::Math, 0, vec![Input::Link(oa), Input::Link(ob)]);
    let d = g.deps(&ids);
    let ia = g.idx(oa).unwrap();
    let ib = g.idx(ob).unwrap();
    let im = g.idx(mix).unwrap();
    assert_eq!(d[ia], vec![true, false]);
    assert_eq!(d[ib], vec![false, true]);
    assert_eq!(d[im], vec![true, true]);
    let r = g.related(&[oa]);
    assert!(r[ia] && r[im] && r[g.idx(fa).unwrap()]);
    assert!(!r[ib] && !r[g.idx(fb).unwrap()]);
}

#[test]
fn voice_recipe_reaches_out() {
    let mut s = Song::empty();
    s.add_track("t");
    let id = s.tracks[0].id;
    let vca = s.graph.voice(None, id);
    let out = s.graph.out_id().unwrap();
    assert_eq!(s.graph.get(vca).unwrap().kind, Kind::Math);
    assert_eq!(s.graph.get(vca).unwrap().var, 2);
    let Input::Link(gain) = s.graph.get(out).unwrap().inputs[0] else { panic!("OUT is not connected") };
    assert_eq!(s.graph.get(gain).unwrap().inputs[0], Input::Link(vca));
}

#[test]
fn compile_keeps_only_the_tracks_chain() {
    let mut s = Song::empty();
    s.add_track("a");
    s.add_track("b");
    s.add_voice(0);
    let ids = s.track_ids();
    let progs = s.graph.compile_all(&ids);
    assert_eq!(progs.len(), 2);
    assert!(progs[0].out.is_some());
    assert!(progs[0].row_node.len() > progs[1].row_node.len());
}

#[test]
fn diagnose_reports_silent_tracks() {
    let mut s = Song::empty();
    s.add_track("lonely");
    let ids = s.track_ids();
    let names: Vec<String> = s.tracks.iter().map(|t| t.name.clone()).collect();
    let msgs = s.graph.diagnose(&ids, &names);
    assert!(!msgs.is_empty());
    assert!(msgs.iter().any(|m| m.contains("lonely")));
}

fn ids_ok(g: &Graph) -> bool {
    let ids: Vec<u32> = g.nodes.iter().map(|n| n.id).collect();
    ids.iter().all(|&i| i < g.next_id) && (0..ids.len()).all(|a| (0..ids.len()).all(|b| a == b || ids[a] != ids[b]))
}

#[test]
fn edits_keep_ids_fresh() {
    let mut s = Song::empty();
    s.add_track("a");
    s.add_voice(0);
    assert!(ids_ok(&s.graph));
    let osc = s.graph.nodes.iter().find(|n| n.kind == Kind::Osc).unwrap().id;
    let d = s.graph.insert(Kind::Delay, Some(osc), 1);
    assert!(ids_ok(&s.graph));
    s.graph.remove(osc);
    assert!(ids_ok(&s.graph));
    assert!(s.graph.nodes.iter().all(|n| !n.inputs.contains(&Input::Link(osc))));
    s.remove_track(0);
    assert!(ids_ok(&s.graph));
    assert!(s.graph.get(d).is_some());
}

#[test]
fn columns_follow_the_longest_chain() {
    let mut g = Graph::default();
    let out = g.add(Kind::Out, 0, vec![]);
    let a = g.add(Kind::Osc, 0, vec![]);
    let b = g.add(Kind::Filt, 0, vec![Input::Link(a)]);
    let m = g.add(Kind::Math, 0, vec![Input::Link(a), Input::Link(b)]);
    g.get_mut(out).unwrap().inputs[0] = Input::Link(m);
    let lay = g.layout(&[]);
    let col = |id: u32| lay[g.idx(id).unwrap()].0;
    assert_eq!((col(a), col(b), col(m), col(out)), (0, 1, 2, 3));
}

#[test]
fn out_is_drawn_rightmost() {
    let mut g = Graph::default();
    let out = g.add(Kind::Out, 0, vec![]);
    let a = g.add(Kind::Osc, 0, vec![]);
    g.get_mut(out).unwrap().inputs[0] = Input::Link(a);
    let b = g.add(Kind::Osc, 0, vec![]);
    let c1 = g.add(Kind::Filt, 0, vec![Input::Link(b)]);
    let c2 = g.add(Kind::Delay, 0, vec![Input::Link(c1)]);
    let c3 = g.add(Kind::Shape, 0, vec![Input::Link(c2)]);
    let lay = g.layout(&[]);
    let col = |id: u32| lay[g.idx(id).unwrap()].0;
    assert_eq!((col(a), col(b), col(c1), col(c2), col(c3)), (0, 0, 1, 2, 3));
    assert_eq!(col(out), 3);
    let hide_chain: Vec<bool> = g.nodes.iter().map(|n| n.id == out || n.id == a).collect();
    let lay2 = g.layout_masked(&[], &hide_chain);
    assert_eq!(lay2[g.idx(out).unwrap()].0, 1);
    assert_eq!(lay2[g.idx(c3).unwrap()].0, usize::MAX);
}

#[test]
fn removing_a_spliced_node_undoes_the_splice() {
    let song = Song::demo();
    let ids = song.track_ids();
    let mut g = song.graph.clone();
    let before: Vec<(u32, Vec<Input>)> = g.nodes.iter().map(|n| (n.id, n.inputs.clone())).collect();
    let osc = g.nodes.iter().find(|n| n.kind == Kind::Osc).unwrap().id;
    let f = g.insert(Kind::Delay, Some(osc), ids[0]);
    assert_eq!(f, 80);
    g.remove(f);
    let after: Vec<(u32, Vec<Input>)> = g.nodes.iter().map(|n| (n.id, n.inputs.clone())).collect();
    assert_eq!(after, before);
    assert_eq!(g.next_id, 81);
}
