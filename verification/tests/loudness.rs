use still_core::loudness::{ebur128_summary, loudness_args};

const STDERR: &str = "Input #0, wav, from 'a.wav':\n\
[Parsed_ebur128_0 @ 0x1] t: 0.1     TARGET:-23 LUFS    M: -120.7 S:-120.7     I: -70.0 LUFS       LRA:   0.0 LU\n\
[Parsed_ebur128_0 @ 0x1] Summary:\n\
\n\
  Integrated loudness:\n\
    I:         -14.2 LUFS\n\
    Threshold: -24.5 LUFS\n\
\n\
  Loudness range:\n\
    LRA:         5.1 LU\n\
    Threshold: -34.6 LUFS\n\
    LRA low:   -18.9 LUFS\n\
    LRA high:  -13.8 LUFS\n\
\n\
  Sample peak:\n\
    Peak:       -0.5 dBFS\n\
\n\
  True peak:\n\
    Peak:       -0.3 dBFS\n";

#[test]
fn summary_figures() {
    let t = ebur128_summary(STDERR);
    assert_eq!(t.integrated.as_deref(), Some("-14.2"));
    assert_eq!(t.range.as_deref(), Some("5.1"));
    assert_eq!(t.true_peak.as_deref(), Some("-0.3"));
}

#[test]
fn the_last_summary_counts() {
    let twice = format!("{}{}", STDERR.replace("-14.2", "-9.0"), STDERR);
    assert_eq!(ebur128_summary(&twice).integrated.as_deref(), Some("-14.2"));
}

#[test]
fn missing_figures() {
    let t = ebur128_summary("ffmpeg: no such file\r\n");
    assert!(t.integrated.is_none() && t.range.is_none() && t.true_peak.is_none());
    // A label with nothing after its colon gives no figure.
    let t = ebur128_summary("Summary:\r\n  I:   \r\n  Sample peak:\r\n    Peak: -1.0 dBFS\r\n");
    assert_eq!(t.integrated, None);
    assert_eq!(t.true_peak, None);
    let t = ebur128_summary("Summary:\r\n  True peak:\r\n    Peak: -inf dBFS\r\n");
    assert_eq!(t.true_peak.as_deref(), Some("-inf"));
}

#[test]
fn measuring_command_lines() {
    assert_eq!(
        loudness_args("/x/a.flac", None, false),
        vec!["-hide_banner", "-nostdin", "-i", "/x/a.flac", "-af", "ebur128=peak=true", "-f", "null", "-"]
    );
    assert_eq!(
        loudness_args("IMAGE.DAT", Some((88200, 176400)), true),
        vec![
            "-hide_banner",
            "-nostdin",
            "-f",
            "s16le",
            "-ar",
            "44100",
            "-ac",
            "2",
            "-i",
            "IMAGE.DAT",
            "-af",
            "atrim=start_sample=88200:end_sample=176400,ebur128=peak=true",
            "-f",
            "null",
            "-"
        ]
    );
}
