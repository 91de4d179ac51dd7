use still_core::project::Project;

fn paths(v: &[&str]) -> Vec<String> {
    v.iter().map(|s| s.to_string()).collect()
}

#[test]
fn clips_append_to_the_base_layer() {
    let p = Project::new_layers(vec![vec!["/a.wav".into()], vec!["/b.wav".into()]]);
    let g = p.clip_groups(&paths(&["/c.wav", "/d.wav"])).unwrap();
    let base: Vec<&str> = g[0].iter().map(|s| s.path.as_str()).collect();
    assert_eq!(base, vec!["/a.wav", "/c.wav", "/d.wav"]);
    assert!(g[0].iter().all(|s| s.start.is_none()));
    assert_eq!(g[1].len(), 1);
    assert_eq!(p.clip_groups(&vec![]).err(), Some("No audio file given.".to_string()));
}

#[test]
fn a_take_puts_one_file_per_layer_in_name_order() {
    let p = Project::new_layers(vec![vec!["/a1.wav".into()], vec!["/b1.wav".into()]]);
    let g = p.take_groups(&paths(&["/take2_Tr2.wav", "/take2_Tr1.wav"]), 44_100).unwrap();
    assert_eq!(g[0][1].path, "/take2_Tr1.wav");
    assert_eq!(g[1][1].path, "/take2_Tr2.wav");
    assert_eq!(g[0][1].start, Some(44_100));
    assert_eq!(g[1][0].start, None);
    assert_eq!(
        p.take_groups(&paths(&["/x.wav"]), 0).err(),
        Some("This session has 2 layers but 1 file(s) were given. A take needs exactly one file per layer (in order).".to_string())
    );
    assert_eq!(p.take_groups(&vec![], 0).err(), Some("No audio file given.".to_string()));
}

#[test]
fn new_layers_take_fresh_ids() {
    let mut p = Project::new_layers(vec![vec!["/a.wav".into()]]);
    assert_eq!(p.next_layer_id, 2);
    let (g, layers) = p.layer_groups(&paths(&["/b.wav", "/c.wav"])).unwrap();
    assert_eq!(g.len(), 3);
    assert_eq!(g[2][0].path, "/c.wav");
    let ids: Vec<u32> = layers.iter().map(|l| l.id).collect();
    assert_eq!(ids, vec![2, 3]);
    assert_eq!(p.next_layer_id, 4);
    assert_eq!(p.layers.len(), 1);
    assert!(layers.iter().all(|l| !l.muted && !l.solo && l.inserts.is_empty() && l.custom_name.is_none()));
    assert!(p.layer_groups(&vec![]).is_err());
    assert_eq!(p.next_layer_id, 4);
}
