use still_core::error::StillError;
use still_core::ffmpeg::{ffmpeg_candidates, pick_ffmpeg};

#[test]
fn candidates_in_order() {
    let c = ffmpeg_candidates(Some("/env/ffmpeg"), &vec!["/sidecar/ffmpeg".to_string()]);
    assert_eq!(
        c,
        vec![
            "/env/ffmpeg",
            "/sidecar/ffmpeg",
            "/opt/homebrew/bin/ffmpeg",
            "/usr/local/bin/ffmpeg",
            "/opt/local/bin/ffmpeg",
            "/usr/bin/ffmpeg",
            "ffmpeg",
        ]
    );
    assert_eq!(ffmpeg_candidates(None, &vec![]).len(), 5);
}

#[test]
fn the_first_that_runs_wins() {
    let c = ffmpeg_candidates(None, &vec![]);
    let runs = vec![false, false, true, true, true];
    assert_eq!(pick_ffmpeg(&c, &runs).unwrap(), "/opt/local/bin/ffmpeg");
    match pick_ffmpeg(&c, &vec![false; 5]) {
        Err(StillError::FfmpegNotFound) => {},
        other => panic!("{other:?}"),
    }
}
