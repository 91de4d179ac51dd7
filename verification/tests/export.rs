use still_core::error::StillError;
use still_core::export::{
    audible_layers, catalog, cd_args, cd_base_name, cd_disc, cd_dither, cd_names, check_destination, codec_args,
    cue_time, export_concurrency, file_place, format_for_extension, gap_sectors, mix_args, progress_time,
    plan_export, plan_export_stems, plan_export_with_meta, render_channels, rendered_args, resample_filter,
    resolve_source_format, stem_job, stem_volume, track_job, unique_file_name, CdProgram, LayerMix, StemLayer,
    NOTHING_AUDIBLE,
};
use still_core::metadata::{AlbumMeta, MacroContext};
use still_core::paths::source_stem;
use still_core::export::{needs_render, report_order};
use still_core::plugins::MasterPluginSpec;
use still_core::project::{DitherMode, ExportConfig, ExportFormat, TrackInfo};
use still_core::timeline::ClipInfo;

const ONE: u32 = 0x3f80_0000;

fn track(number: u32, title: &str, start: u64, end: u64) -> TrackInfo {
    TrackInfo {
        id: number,
        number,
        title: title.into(),
        start_sample: start,
        end_sample: end,
        isrc: String::new(),
        gap_before_ms: None,
        gap_before_effective_ms: 0,
    }
}

fn empty_meta() -> AlbumMeta {
    AlbumMeta {
        album: "".into(),
        album_artist: "".into(),
        artist: "".into(),
        date: "".into(),
        genre: "".into(),
        comment: "".into(),
        disc_breaks: vec![],
        catalog_ean: "".into(),
        artwork_path: "".into(),
    }
}

const DEST: &str = "/tmp/still-out";

fn cfg_at(template: &str) -> ExportConfig {
    let mut cfg = ExportConfig::default();
    cfg.dest_dir = DEST.into();
    cfg.template = template.into();
    cfg
}

fn unity(n: usize) -> Vec<Vec<u32>> {
    vec![vec![ONE]; n]
}

fn file_name(path: &str) -> &str {
    path.rsplit('/').next().unwrap()
}

#[test]
fn plan_renders_names_and_resolves_collisions() {
    // Two tracks with the same title: the second gets a suffix.
    let tracks = vec![track(1, "Same", 0, 44_100), track(2, "Same", 44_100, 88_200)];
    let cfg = cfg_at("{title}");
    let jobs = plan_export(&tracks, &unity(2), &cfg, "source", None, &vec![]).unwrap();
    assert_eq!(file_name(&jobs[0].out_path), "Same.flac");
    assert_eq!(file_name(&jobs[1].out_path), "Same (1).flac");
    assert_eq!(jobs[0].out_path, "/tmp/still-out/Same.flac");
}

#[test]
fn plan_avoids_existing_files() {
    let existing = vec![format!("{DEST}/01 - Intro.flac")];
    let cfg = cfg_at("{n} - {title}");
    let tracks = vec![track(1, "Intro", 0, 44_100)];
    let jobs = plan_export(&tracks, &unity(1), &cfg, "source", None, &existing).unwrap();
    assert_eq!(file_name(&jobs[0].out_path), "01 - Intro (1).flac");
}

#[test]
fn multi_disc_template_builds_subfolders() {
    let cfg = cfg_at("{disc}/{n} - {title}");
    let mut meta = empty_meta();
    meta.disc_breaks = vec![2];
    meta.album = "X".into();
    let tracks = vec![track(1, "One", 0, 44_100), track(2, "Two", 44_100, 88_200)];
    let jobs = plan_export_with_meta(&tracks, &unity(2), &cfg, "source", None, &meta, &vec![]).unwrap();
    assert!(jobs[0].out_path.ends_with("1/01 - One.flac"), "{:?}", jobs[0].out_path);
    assert!(jobs[1].out_path.ends_with("2/01 - Two.flac"), "{:?}", jobs[1].out_path);
    // A slash in a TITLE must not create a folder.
    let tracks2 = vec![track(1, "AC/DC Cover", 0, 44_100)];
    let jobs2 = plan_export_with_meta(&tracks2, &unity(1), &cfg, "source", None, &meta, &vec![]).unwrap();
    assert!(jobs2[0].out_path.ends_with("1/01 - AC_DC Cover.flac"), "{:?}", jobs2[0].out_path);
}

#[test]
fn plan_fills_jobs_and_tags() {
    let mut meta = empty_meta();
    meta.artist = "Band".into();
    let mut t = track(1, "Intro", 10, 500);
    t.isrc = "FRXXX2400001".into();
    t.gap_before_effective_ms = 2000;
    let cfg = cfg_at("{n} - {title}");
    let jobs = plan_export_with_meta(&vec![t], &vec![vec![ONE, 0]], &cfg, "source", None, &meta, &vec![]).unwrap();
    let j = &jobs[0];
    assert_eq!(j.number, 1);
    assert_eq!(j.title, "Intro");
    assert_eq!((j.start_sample, j.end_sample), (10, 500));
    assert_eq!(j.layer_volumes, vec![ONE, 0]);
    assert_eq!(j.isrc, "FRXXX2400001");
    assert_eq!(j.gap_before_sectors, 150);
    assert!(!j.silence_ok);
    assert_eq!(j.tags.as_ref().unwrap().artist, "Band");
    // Empty metadata: no tags at all.
    let plain = plan_export(&vec![track(1, "Intro", 0, 1)], &unity(1), &cfg, "source", None, &vec![]).unwrap();
    assert!(plain[0].tags.is_none());
}

#[test]
fn plan_source_format_only_for_source_config() {
    let probed = Some((ExportFormat::Mp3, 24u8, Some(48_000u32)));
    let tracks = vec![track(1, "A", 0, 1)];
    let cfg = cfg_at("{title}");
    let jobs = plan_export(&tracks, &unity(1), &cfg, "s", probed, &vec![]).unwrap();
    assert_eq!(jobs[0].out_path, "/tmp/still-out/A.flac");
    assert_eq!(jobs[0].source_fmt, None);
    let mut src = cfg_at("{title}");
    src.format = ExportFormat::Source;
    let jobs = plan_export(&tracks, &unity(1), &src, "s", probed, &vec![]).unwrap();
    assert_eq!(jobs[0].out_path, "/tmp/still-out/A.mp3");
    assert_eq!(jobs[0].source_fmt, probed);
}

#[test]
fn plan_joins_a_destination_ending_in_a_slash() {
    let mut cfg = cfg_at("{title}");
    cfg.dest_dir = "/tmp/x/".into();
    let jobs = plan_export(&vec![track(1, "A", 0, 1)], &unity(1), &cfg, "s", None, &vec![]).unwrap();
    assert_eq!(jobs[0].out_path, "/tmp/x/A.flac");
}

#[test]
fn stems_plan_one_job_per_track_and_layer() {
    let layers = vec![
        StemLayer { name: "Drums".into(), source_path: "/a/drums.wav".into() },
        StemLayer { name: "Bass".into(), source_path: "/a/bass.wav".into() },
    ];
    let fmts = vec![None, None];
    let tracks = vec![track(1, "One", 0, 100), track(2, "Two", 100, 200)];
    let cfg = cfg_at("{n} {ln} {layer}");
    // Raw cut: every layer at unity, even a muted one.
    let vols = vec![vec![ONE, 0], vec![ONE, ONE]];
    let jobs = plan_export_stems(&tracks, &vols, &cfg, "s", &empty_meta(), &layers, &fmts, false, &vec![]).unwrap();
    let names: Vec<&str> = jobs.iter().map(|j| file_name(&j.out_path)).collect();
    assert_eq!(names, vec!["01 01 Drums.flac", "01 02 Bass.flac", "02 01 Drums.flac", "02 02 Bass.flac"]);
    let numbers: Vec<u32> = jobs.iter().map(|j| j.number).collect();
    assert_eq!(numbers, vec![1, 2, 3, 4]);
    assert_eq!(jobs[1].title, "One \u{b7} Bass");
    assert_eq!(jobs[1].layer_volumes, vec![0, ONE]);
    assert!(jobs.iter().all(|j| j.silence_ok && j.isrc.is_empty() && j.gap_before_sectors == 0));
    // Mix applied: the muted layer of track one gives no stem.
    let jobs = plan_export_stems(&tracks, &vols, &cfg, "s", &empty_meta(), &layers, &fmts, true, &vec![]).unwrap();
    let names: Vec<&str> = jobs.iter().map(|j| file_name(&j.out_path)).collect();
    assert_eq!(names, vec!["01 01 Drums.flac", "02 01 Drums.flac", "02 02 Bass.flac"]);
    assert_eq!(jobs[2].number, 3);
}

#[test]
fn stems_need_a_destination_and_avoid_collisions() {
    let layers = vec![StemLayer { name: "A/B".into(), source_path: "/x.wav".into() }];
    let tracks = vec![track(1, "T", 0, 1), track(2, "T", 1, 2)];
    let cfg = cfg_at("{title} {layer}");
    let jobs = plan_export_stems(&tracks, &unity(2), &cfg, "s", &empty_meta(), &layers, &vec![None], false, &vec![]).unwrap();
    // A slash in a layer name never makes a folder; the second track collides.
    assert_eq!(jobs[0].out_path, "/tmp/still-out/T A_B.flac");
    assert_eq!(jobs[1].out_path, "/tmp/still-out/T A_B (1).flac");
    let mut none = cfg.clone();
    none.dest_dir = " ".into();
    match plan_export_stems(&tracks, &unity(2), &none, "s", &empty_meta(), &layers, &vec![None], false, &vec![]) {
        Err(StillError::InvalidProject(m)) => assert_eq!(m, "no destination folder selected"),
        _ => panic!("a blank destination must be refused"),
    }
}

#[test]
fn source_stem_of_paths() {
    assert_eq!(source_stem("/x/source.wav"), "source");
    assert_eq!(source_stem("/x/archive.tar.gz"), "archive.tar");
    assert_eq!(source_stem("/"), "audio");
    assert_eq!(source_stem("takes/./mix.final.flac/"), "mix.final");
    assert_eq!(source_stem("/x/.hidden"), ".hidden");
    assert_eq!(source_stem("/x/song."), "song");
    assert_eq!(source_stem("/x/.."), "audio");
    assert_eq!(source_stem("plain"), "plain");
}

#[test]
fn plan_requires_destination() {
    let cfg = ExportConfig::default();
    let tracks = vec![track(1, "Intro", 0, 44_100)];
    assert!(plan_export(&tracks, &unity(1), &cfg, "s", None, &vec![]).is_err());
    assert!(check_destination(&cfg).is_err());
    let mut cfg2 = ExportConfig::default();
    cfg2.dest_dir = "   ".into();
    match check_destination(&cfg2) {
        Err(StillError::InvalidProject(m)) => assert_eq!(m, "no destination folder selected"),
        other => panic!("{other:?}"),
    }
    cfg2.dest_dir = "/tmp/out".into();
    assert!(check_destination(&cfg2).is_ok());
}

#[test]
fn concurrency_leaves_two_cores_free() {
    assert_eq!(export_concurrency(100, 10, None), 8);
    assert_eq!(export_concurrency(100, 4, None), 2);
    // Never below one worker, even on tiny machines.
    assert_eq!(export_concurrency(100, 2, None), 1);
    assert_eq!(export_concurrency(100, 1, None), 1);
    // Never more workers than jobs.
    assert_eq!(export_concurrency(3, 16, None), 3);
    assert_eq!(export_concurrency(0, 16, None), 1);
}

#[test]
fn concurrency_override_is_capped_and_validated() {
    assert_eq!(export_concurrency(100, 10, Some("3")), 3);
    assert_eq!(export_concurrency(2, 10, Some("+7")), 2);
    assert_eq!(export_concurrency(100, 10, Some("0")), 8);
    assert_eq!(export_concurrency(100, 10, Some("many")), 8);
    assert_eq!(export_concurrency(100, 10, Some(" 3")), 8);
}

#[test]
fn codec_args_match_format() {
    let mut cfg = ExportConfig::default();
    cfg.format = ExportFormat::Mp3;
    cfg.bitrate_kbps = 192;
    assert!(codec_args(&cfg).contains(&"192k".to_string()));
    cfg.format = ExportFormat::Wav;
    cfg.bit_depth = 24;
    assert!(codec_args(&cfg).contains(&"pcm_s24le".to_string()));
}

#[test]
fn codec_args_exact() {
    let mut cfg = ExportConfig::default();
    assert_eq!(codec_args(&cfg), vec!["-c:a", "flac", "-sample_fmt", "s16"]);
    cfg.bit_depth = 24;
    assert_eq!(codec_args(&cfg), vec!["-c:a", "flac", "-sample_fmt", "s32", "-bits_per_raw_sample", "24"]);
    cfg.format = ExportFormat::Aac;
    cfg.bitrate_kbps = 256;
    assert_eq!(codec_args(&cfg), vec!["-c:a", "aac", "-b:a", "256k"]);
    cfg.format = ExportFormat::Source;
    cfg.bit_depth = 16;
    assert_eq!(codec_args(&cfg), vec!["-c:a", "pcm_s16le"]);
}

#[test]
fn resample_filter_cases() {
    let mut cfg = ExportConfig::default();
    // 16-bit FLAC, Auto dither: dither only.
    assert_eq!(
        resample_filter(&cfg, 44_100).as_deref(),
        Some("aresample=osr=44100:out_sample_fmt=s16:dither_method=triangular_hp")
    );
    // 24-bit, same rate: bit-exact path.
    cfg.bit_depth = 24;
    assert_eq!(resample_filter(&cfg, 44_100), None);
    // Rate change only.
    cfg.target_sample_rate = Some(48_000);
    assert_eq!(
        resample_filter(&cfg, 44_100).as_deref(),
        Some("aresample=osr=48000:filter_size=128:cutoff=0.96")
    );
    // Lossy output never dithers; dither off never dithers.
    cfg.format = ExportFormat::Mp3;
    cfg.bit_depth = 16;
    cfg.target_sample_rate = None;
    assert_eq!(resample_filter(&cfg, 48_000), None);
    cfg.format = ExportFormat::Wav;
    cfg.dither = DitherMode::Off;
    assert_eq!(resample_filter(&cfg, 48_000), None);
    cfg.dither = DitherMode::Shibata;
    cfg.target_sample_rate = Some(44_100);
    assert_eq!(
        resample_filter(&cfg, 48_000).as_deref(),
        Some("aresample=osr=44100:filter_size=128:cutoff=0.96:out_sample_fmt=s16:dither_method=shibata")
    );
}

#[test]
fn cue_times_and_gaps() {
    assert_eq!(cue_time(0), "00:00:00");
    assert_eq!(cue_time(74), "00:00:74");
    assert_eq!(cue_time(75 * 61 + 3), "01:01:03");
    assert_eq!(gap_sectors(2000), 150);
    assert_eq!(gap_sectors(7), 1);
    assert_eq!(gap_sectors(6), 0);
}

#[test]
fn source_format_follows_the_file() {
    assert_eq!(format_for_extension("FLAC"), ExportFormat::Flac);
    assert_eq!(format_for_extension("Mp3"), ExportFormat::Mp3);
    assert_eq!(format_for_extension("m4a"), ExportFormat::Aac);
    assert_eq!(format_for_extension("MP4"), ExportFormat::Aac);
    assert_eq!(format_for_extension("aiff"), ExportFormat::Wav);
    assert_eq!(resolve_source_format("wav", Some(32), Some(96_000)), (ExportFormat::Wav, 24, Some(96_000)));
    assert_eq!(resolve_source_format("flac", Some(8), None), (ExportFormat::Flac, 16, None));
    assert_eq!(resolve_source_format("mp3", None, Some(44_100)), (ExportFormat::Mp3, 24, Some(44_100)));
}

#[test]
fn jobs_and_effective_config() {
    let mut t = track(3, "Song", 100, 900);
    t.isrc = "USABC2400001".into();
    t.gap_before_effective_ms = 2000;
    let meta = empty_meta();
    let j = track_job(&t, &meta, "src", 5, "/out/Song.wav".into(), vec![ONE], Some((ExportFormat::Flac, 24, Some(48_000))));
    assert_eq!(j.number, 3);
    assert!(j.tags.is_none());
    assert_eq!(j.gap_before_sectors, 150);
    assert_eq!(j.isrc, "USABC2400001");
    let cfg = ExportConfig::default();
    let e = j.effective_cfg(&cfg);
    assert_eq!(e.format, ExportFormat::Flac);
    assert_eq!(e.bit_depth, 24);
    assert_eq!(e.target_sample_rate, Some(48_000));
    assert_eq!(e.template, cfg.template);

    let mut tagged = empty_meta();
    tagged.album = "A".into();
    let s = stem_job(&t, &tagged, "src", 5, 7, "Bass", 1, 3, ONE, "/out/x.wav".into(), None);
    assert_eq!(s.number, 7);
    assert_eq!(s.title, "Song \u{b7} Bass");
    assert_eq!(s.layer_volumes, vec![0, ONE, 0]);
    assert!(s.silence_ok);
    assert_eq!(s.isrc, "");
    assert_eq!(s.tags.as_ref().map(|t| t.album.clone()), Some("A".to_string()));
}

#[test]
fn stem_volumes_and_audible_layers() {
    let half = 0.5f32.to_bits();
    let zero = 0.0f32.to_bits();
    let neg_zero = (-0.0f32).to_bits();
    let vols = vec![half, zero, neg_zero, f32::NAN.to_bits()];
    assert_eq!(stem_volume(&vols, 0, true), Some(half));
    assert_eq!(stem_volume(&vols, 1, true), None);
    assert_eq!(stem_volume(&vols, 2, true), None);
    // NaN is not <= 0: the stem is kept.
    assert_eq!(stem_volume(&vols, 3, true), Some(f32::NAN.to_bits()));
    assert_eq!(stem_volume(&vols, 9, true), Some(ONE));
    assert_eq!(stem_volume(&vols, 1, false), Some(ONE));
    // Heard: above zero; layers past the list are at unity.
    assert_eq!(audible_layers(&vols, 6), vec![0, 4, 5]);
}

fn clip(path: &str, start: u64, dur: u64) -> ClipInfo {
    ClipInfo { path: path.into(), name: path.into(), start_sample: start, duration_samples: dur }
}

fn job_over(start: u64, end: u64, vols: Vec<u32>, silence_ok: bool) -> still_core::export::ExportJob {
    let t = track(1, "T", start, end);
    let mut j = track_job(&t, &empty_meta(), "s", 1, "/out/T.flac".into(), vols, None);
    j.silence_ok = silence_ok;
    j
}

const DITHER: &str = "aresample=osr=44100:out_sample_fmt=s16:dither_method=triangular_hp";

#[test]
fn mix_args_single_plain_cut() {
    let layers = vec![LayerMix { clips: vec![clip("/a.wav", 0, 100)] }];
    let job = job_over(10, 50, vec![ONE], false);
    let args = mix_args(&layers, &job, &ExportConfig::default(), 2, 44_100, &vec!["1.000000".to_string()]).unwrap();
    let expect: Vec<String> = [
        "-hide_banner", "-nostdin", "-v", "error", "-progress", "pipe:1", "-i", "/a.wav", "-map", "0:a:0", "-af",
    ]
    .iter()
    .map(|s| s.to_string())
    .chain([format!("atrim=start_sample=10:end_sample=50,asetpts=PTS-STARTPTS,{DITHER}")])
    .chain(["-c:a", "flac", "-sample_fmt", "s16", "/out/T.flac"].iter().map(|s| s.to_string()))
    .collect();
    assert_eq!(args, expect);
}

#[test]
fn mix_args_sums_layers_with_volumes() {
    let layers = vec![
        LayerMix { clips: vec![clip("/a.wav", 0, 100)] },
        LayerMix { clips: vec![clip("/b.wav", 0, 100)] },
    ];
    let job = job_over(10, 50, vec![ONE, 0.5f32.to_bits()], false);
    let vols = vec!["1.000000".to_string(), "0.500000".to_string()];
    let args = mix_args(&layers, &job, &ExportConfig::default(), 2, 44_100, &vols).unwrap();
    let graph = format!(
        "[0:a:0]atrim=start_sample=10:end_sample=50,asetpts=PTS-STARTPTS[t0x0];\
         [t0x0]aformat=sample_fmts=fltp:channel_layouts=stereo,volume=1.000000[l0];\
         [1:a:0]atrim=start_sample=10:end_sample=50,asetpts=PTS-STARTPTS[t1x0];\
         [t1x0]aformat=sample_fmts=fltp:channel_layouts=stereo,volume=0.500000[l1];\
         [l0][l1]amix=inputs=2:normalize=0[mix];[mix]{DITHER}[cond]"
    );
    assert_eq!(&args[6..10], &["-i", "/a.wav", "-i", "/b.wav"]);
    assert_eq!(args[10], "-filter_complex");
    assert_eq!(args[11], graph);
    assert_eq!(args[12], "-map");
    assert_eq!(args[13], "[cond]");
}

#[test]
fn mix_args_keeps_take_gaps_aligned() {
    // One layer, two takes with a gap: file, silence, file, concatenated.
    let layers = vec![LayerMix { clips: vec![clip("/a.wav", 0, 20), clip("/b.wav", 30, 30)] }];
    let job = job_over(10, 50, vec![0.25f32.to_bits()], false);
    let mut cfg = ExportConfig::default();
    cfg.bit_depth = 24;
    let args = mix_args(&layers, &job, &cfg, 1, 48_000, &vec!["0.250000".to_string()]).unwrap();
    let graph = "[0:a:0]atrim=start_sample=10:end_sample=20,asetpts=PTS-STARTPTS[t0x0];\
         anullsrc=r=48000:cl=mono,atrim=end_sample=10,asetpts=PTS-STARTPTS[t0x1];\
         [1:a:0]atrim=start_sample=0:end_sample=20,asetpts=PTS-STARTPTS[t0x2];\
         [t0x0][t0x1][t0x2]concat=n=3:v=0:a=1[c0];\
         [c0]aformat=sample_fmts=fltp:channel_layouts=mono,volume=0.250000[l0]";
    assert_eq!(&args[6..10], &["-i", "/a.wav", "-i", "/b.wav"]);
    assert_eq!(args[11], graph);
    assert_eq!(args[13], "[l0]");
}

#[test]
fn mix_args_silence_and_errors() {
    let layers = vec![LayerMix { clips: vec![clip("/a.wav", 0, 100)] }];
    // Muted layer, no silence allowed: the job is refused.
    let job = job_over(10, 50, vec![0], false);
    match mix_args(&layers, &job, &ExportConfig::default(), 2, 44_100, &vec!["0.000000".to_string()]) {
        Err(StillError::Ffmpeg(m)) => assert_eq!(m, NOTHING_AUDIBLE),
        other => panic!("{other:?}"),
    }
    // A stem accepts silence: a silent file of the window's length.
    let stem = job_over(10, 50, vec![0], true);
    let args = mix_args(&layers, &stem, &ExportConfig::default(), 2, 44_100, &vec!["0.000000".to_string()]).unwrap();
    assert_eq!(args[6], "-filter_complex");
    assert_eq!(
        args[7],
        format!("anullsrc=r=44100:cl=stereo,atrim=end_sample=40,asetpts=PTS-STARTPTS[s0];[s0]{DITHER}[cond]")
    );
    assert_eq!(args[9], "[cond]");
}

#[test]
fn rendered_and_cd_encoder_commands() {
    let mut cfg = ExportConfig::default();
    cfg.bit_depth = 24;
    cfg.format = ExportFormat::Wav;
    assert_eq!(render_channels(0), 1);
    assert_eq!(render_channels(6), 2);
    let r = rendered_args(&cfg, 48_000, 2, "/out/a.wav");
    assert_eq!(
        r,
        vec!["-hide_banner", "-v", "error", "-f", "f32le", "-ar", "48000", "-ac", "2", "-i", "pipe:0", "-c:a", "pcm_s24le", "/out/a.wav"]
    );
    let c = cd_args(DitherMode::Off, false, "/out/CD.wav");
    assert_eq!(c[12], "aresample=osr=44100:out_sample_fmt=s16:dither_method=0");
    assert_eq!(c.last().unwrap(), "/out/CD.wav");
    let d = cd_args(DitherMode::TriangularHp, true, "/ignored");
    assert_eq!(&d[d.len() - 3..], &["-f", "s16le", "pipe:1"]);
    assert_eq!(cd_dither(DitherMode::Auto), "triangular_hp");
    assert_eq!(cd_dither(DitherMode::Shibata), "shibata");
}

#[test]
fn progress_lines() {
    assert_eq!(progress_time("out_time_us=1500000"), Some(1_500_000));
    assert_eq!(progress_time("out_time_ms= 42 "), Some(42));
    assert_eq!(progress_time("out_time_us=-5"), None);
    assert_eq!(progress_time("out_time_us=-0"), Some(0));
    assert_eq!(progress_time("out_time_us=N/A"), None);
    assert_eq!(progress_time("total_size=1024"), None);
    assert_eq!(progress_time("out_time_us=-+1"), None);
}

#[test]
fn cd_names_and_catalog() {
    assert_eq!(cd_base_name("  "), "CD Image");
    assert_eq!(cd_base_name(" Best: Of "), "Best_ Of");
    assert_eq!(cd_names("A", 0), ("A.wav".to_string(), "A.cue".to_string(), "A DDP".to_string()));
    assert_eq!(cd_names("A", 2), ("A (2).wav".to_string(), "A (2).cue".to_string(), "A DDP (2)".to_string()));
    assert_eq!(catalog("0-12345-67890-5").as_deref(), Some("012345678905"));
    assert_eq!(catalog("4 006381 333931").as_deref(), Some("4006381333931"));
    assert_eq!(catalog("12345"), None);
}

#[test]
fn cd_program_cue_and_ddp_table() {
    let mut meta = empty_meta();
    meta.album = "Best Of".into();
    meta.artist = " Ann ".into();
    meta.catalog_ean = "0-12345-67890-5".into();
    let j1 = job_over(0, 1000, vec![ONE], false);
    let mut t2 = track(2, "Say \"Hi\"", 0, 1764);
    t2.isrc = "USABC2400001".into();
    let mut j2 = track_job(&t2, &meta, "s", 2, "/x".into(), vec![ONE], None);
    j2.gap_before_sectors = 2;
    let mut p = CdProgram::new();
    assert_eq!(p.begin_track(&j1), 0);
    // 1000 samples are padded to the next CD frame (2 × 588).
    assert_eq!(p.finish_track(1000), 176);
    assert_eq!(p.begin_track(&j2), 1176);
    assert_eq!(p.starts[1].start_frame, 4);
    assert_eq!(p.finish_track(1764), 0);
    assert_eq!(p.image_samples, 4116);
    let cue = p.cue_sheet(&meta, "Best Of.wav");
    assert_eq!(
        cue,
        "CATALOG 012345678905\r\nPERFORMER \"Ann\"\r\nTITLE \"Best Of\"\r\nFILE \"Best Of.wav\" WAVE\r\n\
         \x20 TRACK 01 AUDIO\r\n    TITLE \"T\"\r\n    PERFORMER \"Ann\"\r\n    INDEX 01 00:00:00\r\n\
         \x20 TRACK 02 AUDIO\r\n    TITLE \"Say 'Hi'\"\r\n    PERFORMER \"Ann\"\r\n    ISRC USABC2400001\r\n\
         \x20   INDEX 00 00:00:02\r\n    INDEX 01 00:00:04\r\n"
    );
    let tracks = p.ddp_tracks();
    assert_eq!((tracks[0].start_sector, tracks[0].length_sectors, tracks[0].pregap_sectors), (0, 2, 0));
    assert_eq!((tracks[1].start_sector, tracks[1].length_sectors, tracks[1].pregap_sectors), (4, 3, 2));
    assert_eq!(tracks[1].isrc.as_deref(), Some("USABC2400001"));
    assert_eq!(tracks[0].isrc, None);
    assert_eq!(p.segment(0, 0), (0, 1176));
    assert_eq!(p.segment(1, 100), (100 + 2352, 100 + 4116));
    let disc = cd_disc(&meta, "Best Of", &p);
    assert_eq!(disc.title, "Best Of");
    assert_eq!(disc.performer, "Ann");
    assert_eq!(disc.ean.as_deref(), Some("012345678905"));
    assert_eq!(disc.tracks.len(), 2);
}

#[test]
fn render_path_needs_a_chain() {
    let spec = MasterPluginSpec { id: 1, component: "vst3:00".into(), bypass: false, state: None };
    assert!(!needs_render(&vec![], &vec![], &vec![]));
    assert!(!needs_render(&vec![], &vec![], &vec![vec![], vec![]]));
    assert!(needs_render(&vec![spec.clone()], &vec![], &vec![]));
    assert!(needs_render(&vec![], &vec![spec.clone()], &vec![]));
    assert!(needs_render(&vec![], &vec![], &vec![vec![], vec![spec]]));
}

#[test]
fn report_lists_results_in_job_order() {
    // Jobs 2, 0, 1 finished in that order; job 0 reported twice.
    let done = vec![2usize, 0, 1, 0];
    assert_eq!(report_order(&done), vec![1, 3, 2, 0]);
    assert_eq!(report_order(&vec![]), Vec::<usize>::new());
}
