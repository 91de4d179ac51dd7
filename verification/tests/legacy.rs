use still_core::error::StillError;
use still_core::legacy::{
    mark_current, migrate_v1, migrate_v2, migrate_v3, migrate_v4, project_format, LegacyLayerV4, LegacyMarker,
    LegacyProjectV1, LegacyProjectV2, LegacyProjectV3, LegacyProjectV4, ProjectFormat,
};
use still_core::project::{sanitize_regions, ExportConfig, MasteringPluginCfg, Project, Region, PROJECT_VERSION};

const SR: u32 = 44_100;
const SEC: u64 = SR as u64;

#[test]
fn migrates_v1_split_projects() {
    let legacy = LegacyProjectV1 {
        source_path: "/tmp/test.wav".into(),
        markers: vec![LegacyMarker { id: 2, position: 60 * SEC }, LegacyMarker { id: 1, position: 30 * SEC }],
        track_names: vec![("0".into(), "Opening".into()), ("2".into(), "Finale".into())],
        snap_to_zero: true,
        export_config: Some(ExportConfig::default()),
    };
    assert_eq!(project_format(Some(1)).unwrap(), ProjectFormat::V1);
    let mut p = migrate_v1(legacy);
    assert_eq!(p.version, PROJECT_VERSION);
    assert!(p.snap_to_zero);
    assert_eq!(p.regions.len(), 3);
    sanitize_regions(&mut p, 120 * SEC, SR);
    assert_eq!(p.regions.len(), 3);
    assert_eq!(p.regions[0].title.as_deref(), Some("Opening"));
    assert_eq!(p.regions[0].start, 0);
    assert_eq!(p.regions[0].end, 30 * SEC);
    assert_eq!(p.regions[2].title.as_deref(), Some("Finale"));
    assert_eq!(p.regions[2].end, 120 * SEC);
}

#[test]
fn migrates_v2_single_source_projects() {
    let legacy = LegacyProjectV2 {
        source_path: "/tmp/test.wav".into(),
        regions: vec![Region::new(1, 10 * SEC, 40 * SEC, Some("Intro".into()))],
        snap_to_zero: false,
        export_config: Some(ExportConfig::default()),
        next_region_id: 2,
    };
    assert_eq!(project_format(Some(2)).unwrap(), ProjectFormat::V2);
    let p = migrate_v2(legacy);
    assert_eq!(p.version, PROJECT_VERSION);
    assert_eq!(p.layers.len(), 1);
    assert_eq!(p.layers[0].sources.len(), 1);
    assert_eq!(p.layers[0].sources[0].path, "/tmp/test.wav");
    assert_eq!(p.layers[0].sources[0].start, None);
    assert_eq!(p.regions.len(), 1);
    assert_eq!(p.regions[0].title.as_deref(), Some("Intro"));
    assert_eq!(p.next_region_id, 2);
}

/// A v6 project (no per-layer/per-track inserts) opens as v7 with empty
/// chains everywhere, keeping its master chain intact.
#[test]
fn migrates_v6_to_v7() {
    let mut p = Project::new(vec!["/tmp/x.wav".into()]);
    p.regions.push(Region::new(1, 0, 10 * SEC, None));
    p.mastering_chain.push(MasteringPluginCfg {
        id: 1,
        component: "aufx:lpas:appl".into(),
        name: "Lowpass".into(),
        bypass: false,
        state_b64: None,
    });
    p.version = 6;
    assert_eq!(project_format(Some(6)).unwrap(), ProjectFormat::Compatible);
    mark_current(&mut p);
    assert_eq!(p.version, PROJECT_VERSION);
    assert_eq!(p.mastering_chain.len(), 1);
    assert!(p.layers.iter().all(|l| l.inserts.is_empty()));
    assert!(p.regions.iter().all(|r| r.inserts.is_empty()));
}

#[test]
fn format_versions() {
    assert_eq!(project_format(None).unwrap(), ProjectFormat::V1);
    assert_eq!(project_format(Some(0)).unwrap(), ProjectFormat::V1);
    assert_eq!(project_format(Some(3)).unwrap(), ProjectFormat::V3);
    assert_eq!(project_format(Some(4)).unwrap(), ProjectFormat::V4);
    assert_eq!(project_format(Some(5)).unwrap(), ProjectFormat::Compatible);
    assert_eq!(project_format(Some(7)).unwrap(), ProjectFormat::Current);
    // The field is read as a 32-bit number.
    assert_eq!(project_format(Some((1u64 << 32) + 3)).unwrap(), ProjectFormat::V3);
    match project_format(Some(8)) {
        Err(StillError::InvalidProject(m)) => {
            assert_eq!(m, "this project was created by a newer version of AudioDistillery (v8)")
        }
        other => panic!("{other:?}"),
    }
}

#[test]
fn v1_markers_sort_stably_and_default_settings() {
    let legacy = LegacyProjectV1 {
        source_path: "/s.wav".into(),
        markers: vec![
            LegacyMarker { id: 5, position: 300 },
            LegacyMarker { id: 3, position: 100 },
            LegacyMarker { id: 4, position: 100 },
        ],
        track_names: vec![("3".into(), "A".into()), ("3".into(), "B".into())],
        snap_to_zero: false,
        export_config: None,
    };
    let p = migrate_v1(legacy);
    let bounds: Vec<(u32, u64, u64)> = p.regions.iter().map(|r| (r.id, r.start, r.end)).collect();
    assert_eq!(bounds, vec![(1, 0, 100), (2, 100, 100), (3, 100, 300), (4, 300, u64::MAX)]);
    // A later name for the same marker wins.
    assert_eq!(p.regions[1].title.as_deref(), Some("B"));
    assert_eq!(p.regions[0].title, None);
    assert_eq!(p.next_region_id, 5);
    assert_eq!(p.export_config.template, "{n} - {title}");
}

#[test]
fn v3_and_v4_layers() {
    let p3 = migrate_v3(LegacyProjectV3 {
        sources: vec!["/a.wav".into(), "/b.wav".into()],
        regions: vec![],
        snap_to_zero: true,
        export_config: None,
        next_region_id: 1,
    });
    assert_eq!(p3.layers.len(), 1);
    assert_eq!(p3.layers[0].sources.len(), 2);
    assert_eq!(p3.next_layer_id, 2);
    let p4 = migrate_v4(LegacyProjectV4 {
        layers: vec![
            LegacyLayerV4 { id: 1, sources: vec!["/a.wav".into()], gain_db_bits: 0, muted: false, solo: false, collapsed: false },
            LegacyLayerV4 { id: 4, sources: vec!["/v.wav".into()], gain_db_bits: (-6.0f32).to_bits(), muted: true, solo: true, collapsed: true },
        ],
        regions: vec![Region::new(1, 0, 10, None)],
        snap_to_zero: false,
        export_config: None,
        next_region_id: 2,
        next_layer_id: 5,
    });
    assert_eq!(p4.version, PROJECT_VERSION);
    assert_eq!(p4.layers[1].id, 4);
    assert!(p4.layers[1].muted && p4.layers[1].solo && p4.layers[1].collapsed);
    assert_eq!(p4.layers[1].gain_db_bits, (-6.0f32).to_bits());
    assert_eq!(p4.layers[1].sources[0].start, None);
    assert_eq!(p4.next_layer_id, 5);
    assert_eq!(p4.next_plugin_id, 1);
}
