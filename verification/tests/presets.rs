use still_core::error::StillError;
use still_core::presets::{
    is_preset_file, preset_file_name, preset_info, save_file_name, sort_listing, ChainPreset, ChainPresetInfo,
};
use still_core::project::MasteringPluginCfg;

fn cfg(name: &str) -> MasteringPluginCfg {
    MasteringPluginCfg {
        id: 7,
        component: "aufx:test:demo".into(),
        name: name.into(),
        bypass: false,
        state_b64: Some("AAEC".into()),
    }
}

#[test]
fn presets_keep_the_chain_recipe() {
    let preset = ChainPreset::from_chain("Warm Master", &[cfg("EQ"), cfg("Comp")]);
    assert_eq!(preset.name, "Warm Master");
    assert_eq!(preset.plugins.len(), 2);
    assert_eq!(preset.plugins[0].state_b64.as_deref(), Some("AAEC"));
    assert_eq!(preset.plugins[1].component, "aufx:test:demo");
    let info = preset_info(&preset);
    assert_eq!(info.name, "Warm Master");
    assert_eq!(info.plugins, vec!["EQ", "Comp"]);
    assert_eq!(save_file_name(&preset).unwrap(), "Warm Master.json");
}

#[test]
fn empty_chains_and_blank_names_are_refused() {
    match save_file_name(&ChainPreset::from_chain("X", &[])) {
        Err(StillError::InvalidProject(m)) => {
            assert_eq!(m, "The mastering chain is empty \u{2014} add a plugin before saving a preset")
        }
        other => panic!("{other:?}"),
    }
    match save_file_name(&ChainPreset::from_chain("  ", &[cfg("EQ")])) {
        Err(StillError::InvalidProject(m)) => assert_eq!(m, "Preset name cannot be empty"),
        other => panic!("{other:?}"),
    }
    assert_eq!(preset_file_name(" A/B ").unwrap(), "A_B.json");
}

#[test]
fn listing_sorts_by_name_ignoring_case() {
    let infos = vec![
        ChainPresetInfo { name: "beta".into(), plugins: vec!["1".into()] },
        ChainPresetInfo { name: "Alpha".into(), plugins: vec![] },
        ChainPresetInfo { name: "BETA".into(), plugins: vec!["2".into()] },
        ChainPresetInfo { name: "\u{c9}cho".into(), plugins: vec![] },
    ];
    let sorted = sort_listing(&infos);
    let names: Vec<&str> = sorted.iter().map(|i| i.name.as_str()).collect();
    // Stable: the two "beta" keep their order; "é" sorts after ASCII.
    assert_eq!(names, vec!["Alpha", "beta", "BETA", "\u{c9}cho"]);
    assert_eq!(sorted[1].plugins, vec!["1"]);
}

#[test]
fn preset_files_are_json() {
    assert!(is_preset_file(Some("json")));
    assert!(!is_preset_file(Some("JSON")));
    assert!(!is_preset_file(Some("txt")));
    assert!(!is_preset_file(None));
}
