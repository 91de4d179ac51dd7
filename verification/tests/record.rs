use still_core::error::StillError;
use still_core::record::{
    check_config, device_info, fourcc, input_channel_names, lane_channels, lane_file_name, le24, missing_input, take_folder,
    wav_header, wav_sizes, DeviceCache, InputDeviceInfo, LaneBytes, RecordConfig, RecordLane, MAX_DATA_BYTES,
};

/// "Take N" folders never collide.
#[test]
fn take_folders_increment() {
    let a = take_folder(&vec![]).unwrap();
    let b = take_folder(&vec![a.clone(), "notes".into()]).unwrap();
    assert_eq!(a, "Take 1");
    assert_eq!(b, "Take 2");
    assert_eq!(take_folder(&vec!["Take 2".into()]).unwrap(), "Take 1");
}

fn lane(input: u16, name: &str) -> RecordLane {
    RecordLane { input, name: name.into() }
}

#[test]
fn configs_are_checked_in_order() {
    let mut cfg = RecordConfig { host: String::new(), device: String::new(), lanes: vec![], dest_dir: " ".into() };
    let msg = |r: Result<(), StillError>| match r {
        Err(StillError::InvalidProject(m)) => m,
        other => panic!("{other:?}"),
    };
    assert_eq!(msg(check_config(&cfg)), "at least one input must be recorded");
    cfg.lanes = vec![lane(1, "Kick"), lane(0, "")];
    assert_eq!(msg(check_config(&cfg)), "inputs are numbered from 1");
    cfg.lanes = vec![lane(1, "Kick"), lane(3, "")];
    assert_eq!(msg(check_config(&cfg)), "no recording folder selected");
    cfg.dest_dir = "/rec".into();
    assert!(check_config(&cfg).is_ok());
    assert_eq!(missing_input(&cfg.lanes, 2), Some(3));
    assert_eq!(missing_input(&cfg.lanes, 8), None);
    assert_eq!(lane_channels(&cfg.lanes), vec![0, 2]);
}

#[test]
fn lane_files_are_named_after_the_layer_or_the_input() {
    assert_eq!(lane_file_name(0, &lane(1, " Kick In ")), "01 - Kick In.wav");
    assert_eq!(lane_file_name(1, &lane(12, "")), "02 - Input 12.wav");
    assert_eq!(lane_file_name(9, &lane(3, "Gtr/Amp")), "10 - Gtr_Amp.wav");
}

#[test]
fn wav_layout_of_a_lane() {
    let h = wav_header(48_000);
    assert_eq!(h.len(), 44);
    assert_eq!(&h[0..4], b"RIFF");
    assert_eq!(&h[4..8], &36u32.to_le_bytes());
    assert_eq!(&h[8..16], b"WAVEfmt ");
    assert_eq!(&h[20..24], &[1, 0, 1, 0]);
    assert_eq!(&h[24..28], &48_000u32.to_le_bytes());
    assert_eq!(&h[28..32], &144_000u32.to_le_bytes());
    assert_eq!(&h[32..36], &[3, 0, 24, 0]);
    assert_eq!(&h[36..40], b"data");
    assert_eq!(wav_sizes(21), (57, 21));
    assert_eq!(le24(-2), [0xfe, 0xff, 0xff]);
    assert_eq!(le24(8_388_607), [0xff, 0xff, 0x7f]);
    let mut b = LaneBytes::new();
    assert!(b.add_sample());
    assert!(b.needs_pad());
    assert!(b.add_sample());
    assert!(!b.needs_pad());
    let mut full = LaneBytes { data_bytes: MAX_DATA_BYTES - 3 };
    assert!(!full.add_sample());
}

#[test]
fn devices_and_input_names() {
    assert_eq!(input_channel_names(None, 3), vec!["Input 1", "Input 2", "Input 3"]);
    assert_eq!(input_channel_names(Some(vec![Some("MIC 1".into())]), 1), vec!["MIC 1"]);
    assert_eq!(
        input_channel_names(Some(vec![Some("MIC 1".into()), Some("  ".into()), None]), 4),
        vec!["MIC 1", "Input 2", "Input 3", "Input 4"]
    );
    assert_eq!(input_channel_names(Some(vec![]), 2), vec!["Input 1", "Input 2"]);
    assert!(input_channel_names(None, 0).is_empty());
    assert_eq!(fourcc(b"dev#"), 0x6465_7623);
    let dev = |n: &str| InputDeviceInfo {
        host: "CoreAudio".into(),
        name: n.into(),
        channels: 2,
        sample_rate: 48_000,
        is_default: false,
        input_names: vec![],
    };
    let all = still_core::record::list_input_devices(vec![dev("A")], vec![dev("B"), dev("C")]);
    let names: Vec<&str> = all.iter().map(|d| d.name.as_str()).collect();
    assert_eq!(names, vec!["A", "B", "C"]);
    let mut cache = DeviceCache::new();
    assert!(cache.reuse(false).is_none());
    cache.store(vec![dev("X")]);
    assert_eq!(cache.reuse(false).map(|l| l.len()), Some(1));
    assert!(cache.reuse(true).is_none());
}

#[test]
fn device_info_names_every_input() {
    let d = device_info(
        "CoreAudio".into(),
        "Interface".into(),
        3,
        48_000,
        true,
        Some(vec![None, Some("SPDIF L".into())]),
    );
    assert_eq!(d.input_names, vec!["Input 1", "SPDIF L", "Input 3"]);
    assert_eq!(d.input_names.len(), d.channels as usize);
    let d = device_info("WASAPI".into(), "Mic".into(), 2, 44_100, false, None);
    assert_eq!(d.input_names, vec!["Input 1", "Input 2"]);
}
