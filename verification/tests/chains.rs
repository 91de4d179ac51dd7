use still_core::peaks::PeakPyramid;
use still_core::project::{ChainTarget, Project, ProjectState};
use still_core::timeline::{AudioInfo, ClipInfo, ScannedLayer};

const SEC: u64 = 44_100;

fn state() -> ProjectState {
    let clips = vec![ClipInfo {
        path: "/tmp/a.wav".into(),
        name: "a.wav".into(),
        start_sample: 0,
        duration_samples: 60 * SEC,
    }];
    let layer = ScannedLayer { clips: clips.clone(), channels: 2, duration_samples: 60 * SEC };
    let info = AudioInfo {
        path: "/tmp/a.wav".into(),
        clips,
        layers: vec![layer.clone(), layer],
        duration_samples: 60 * SEC,
        sample_rate: 44_100,
        channels: 2,
        format: "WAV".into(),
    };
    let project = Project::new_layers(vec![vec!["/tmp/a.wav".into()], vec!["/tmp/a.wav".into()]]);
    ProjectState::new(project, info, vec![PeakPyramid::empty(), PeakPyramid::empty()])
}

fn ids(chain: &[still_core::project::MasteringPluginCfg]) -> Vec<u32> {
    chain.iter().map(|c| c.id).collect()
}

#[test]
fn plugins_get_global_ids_and_land_in_their_chain() {
    let mut s = state();
    let a = s.add_chain_plugin(ChainTarget::Master, "aufx:a:b".into(), "A".into()).unwrap();
    let b = s.add_chain_plugin(ChainTarget::Layer { id: 2 }, "vst3:00".into(), "B".into()).unwrap();
    let c = s.add_chain_plugin(ChainTarget::Master, "aufx:c:d".into(), "C".into()).unwrap();
    assert_eq!((a, b, c), (1, 2, 3));
    assert_eq!(ids(&s.project.mastering_chain), vec![1, 3]);
    assert_eq!(ids(&s.project.layers[1].inserts), vec![2]);
    assert!(!s.project.mastering_chain[0].bypass && s.project.mastering_chain[0].state_b64.is_none());
    // A vanished track: refused, the id is still used up.
    assert_eq!(
        s.add_chain_plugin(ChainTarget::Track { id: 99 }, "x".into(), "X".into()),
        Err("this layer or track no longer exists".to_string())
    );
    assert_eq!(s.project.next_plugin_id, 5);
    assert_eq!(s.chain_containing(2), Some(ChainTarget::Layer { id: 2 }));
    assert_eq!(s.chain_containing(3), Some(ChainTarget::Master));
    assert_eq!(s.chain_containing(42), None);
}

#[test]
fn plugins_move_within_their_chain_and_are_removed_by_id() {
    let mut s = state();
    for n in ["A", "B", "C"] {
        s.add_chain_plugin(ChainTarget::Master, format!("aufx:{n}"), n.into()).unwrap();
    }
    s.move_chain_plugin(1, 1);
    assert_eq!(ids(&s.project.mastering_chain), vec![2, 1, 3]);
    // Clamped at both ends.
    s.move_chain_plugin(3, -10);
    assert_eq!(ids(&s.project.mastering_chain), vec![3, 2, 1]);
    s.move_chain_plugin(3, 10);
    assert_eq!(ids(&s.project.mastering_chain), vec![2, 1, 3]);
    s.remove_chain_plugin(1);
    assert_eq!(ids(&s.project.mastering_chain), vec![2, 3]);
    // Unknown ids change nothing.
    s.remove_chain_plugin(9);
    s.move_chain_plugin(9, 1);
    assert_eq!(ids(&s.project.mastering_chain), vec![2, 3]);
}

#[test]
fn chains_are_replaced_by_target() {
    let mut s = state();
    let id = s.add_chain_plugin(ChainTarget::Layer { id: 1 }, "aufx:x".into(), "X".into()).unwrap();
    let chain = s.project.layers[0].inserts.clone();
    assert!(s.set_chain(ChainTarget::Master, chain));
    assert_eq!(ids(&s.project.mastering_chain), vec![id]);
    assert!(s.set_chain(ChainTarget::Layer { id: 1 }, Vec::new()));
    assert!(s.project.layers[0].inserts.is_empty());
    assert!(!s.set_chain(ChainTarget::Track { id: 7 }, Vec::new()));
}

#[test]
fn engine_topology_follows_the_chains() {
    let mut s = state();
    let late = s.add_region(30 * SEC, 40 * SEC, None).unwrap();
    let early = s.add_region(5 * SEC, 10 * SEC, None).unwrap();
    let _plain = s.add_region(12 * SEC, 20 * SEC, None).unwrap();
    let m = s.add_chain_plugin(ChainTarget::Master, "aufx:m".into(), "M".into()).unwrap();
    let a = s.add_chain_plugin(ChainTarget::Track { id: late }, "aufx:a".into(), "A".into()).unwrap();
    let b = s.add_chain_plugin(ChainTarget::Track { id: early }, "aufx:b".into(), "B".into()).unwrap();
    let l = s.add_chain_plugin(ChainTarget::Layer { id: 2 }, "aufx:l".into(), "L".into()).unwrap();
    // Tracks with a chain, in start order, then the master chain.
    let sections = s.insert_sections();
    assert_eq!(
        sections,
        vec![
            (Some((5 * SEC, 10 * SEC)), vec![b]),
            (Some((30 * SEC, 40 * SEC)), vec![a]),
            (None, vec![m]),
        ]
    );
    assert_eq!(s.lane_ids(), vec![vec![], vec![l]]);
    // Master, then layers, then tracks in their list order.
    let mut all = s.all_chain_ids();
    assert_eq!(all.remove(0), m);
    assert_eq!(all.remove(0), l);
    all.sort();
    assert_eq!(all, vec![a, b]);
}

#[test]
fn layer_labels_name_layers_after_their_first_file() {
    let mut s = state();
    let labels = s.layer_labels();
    assert_eq!(labels[0].source_name, "a.wav");
    assert_eq!(labels[0].name, "a.wav");
    s.rename_layer(2, "Room").unwrap();
    let labels = s.layer_labels();
    assert_eq!(labels[1].name, "Room");
    assert_eq!(labels[1].source_name, "a.wav");
}
