//! The user-facing errors of the library.

use vstd::prelude::*;
use crate::text::{chars_of, extend_str, string_of};

verus! {

/// All user-facing errors. Messages are actionable and in English.
#[derive(Debug)]
pub enum StillError {
    FileNotFound(String),
    UnsupportedFormat(String),
    Decode(String),
    /// An I/O failure, carried by its description.
    Io(String),
    FfmpegNotFound,
    Ffmpeg(String),
    InvalidMarker(String),
    NoAudioLoaded,
    InvalidProject(String),
    ExportAlreadyRunning,
    ScanCancelled,
    Playback(String),
}

fn with_detail(prefix: &str, detail: &String) -> (r: String)
    ensures
        r@ == prefix@ + detail@,
{
    let mut v: Vec<char> = chars_of(prefix);
    extend_str(&mut v, detail.as_str());
    string_of(&v)
}

impl StillError {
    /// The message shown to the user.
    pub fn message(&self) -> (r: String)
        ensures
            match self {
                StillError::FileNotFound(d) => r@ == "File not found: "@ + d@,
                StillError::UnsupportedFormat(d) => r@ == "Unsupported audio format: "@ + d@,
                StillError::Decode(d) => r@ == "Could not decode audio: "@ + d@,
                StillError::Io(d) => r@ == "I/O error: "@ + d@,
                StillError::FfmpegNotFound => r@ == FFMPEG_NOT_FOUND@,
                StillError::Ffmpeg(d) => r@ == "FFmpeg failed: "@ + d@,
                StillError::InvalidMarker(d) => r@ == "Invalid marker: "@ + d@,
                StillError::NoAudioLoaded => r@ == "No audio file is loaded"@,
                StillError::InvalidProject(d) => r@ == "Invalid project file: "@ + d@,
                StillError::ExportAlreadyRunning => r@ == "An export is already running"@,
                StillError::ScanCancelled => r@ == "Import cancelled"@,
                StillError::Playback(d) => r@ == "Audio playback error: "@ + d@,
            },
    {
        match self {
            StillError::FileNotFound(d) => with_detail("File not found: ", d),
            StillError::UnsupportedFormat(d) => with_detail("Unsupported audio format: ", d),
            StillError::Decode(d) => with_detail("Could not decode audio: ", d),
            StillError::Io(d) => with_detail("I/O error: ", d),
            StillError::FfmpegNotFound => String::from_str(FFMPEG_NOT_FOUND),
            StillError::Ffmpeg(d) => with_detail("FFmpeg failed: ", d),
            StillError::InvalidMarker(d) => with_detail("Invalid marker: ", d),
            StillError::NoAudioLoaded => String::from_str("No audio file is loaded"),
            StillError::InvalidProject(d) => with_detail("Invalid project file: ", d),
            StillError::ExportAlreadyRunning => String::from_str("An export is already running"),
            StillError::ScanCancelled => String::from_str("Import cancelled"),
            StillError::Playback(d) => with_detail("Audio playback error: ", d),
        }
    }
}

/// What to do when no FFmpeg binary can be found.
pub const FFMPEG_NOT_FOUND: &'static str = "FFmpeg was not found. Install it (e.g. `brew install ffmpeg` on macOS, `apt install ffmpeg` on Linux, `winget install ffmpeg` on Windows) or set the STILL_FFMPEG environment variable to the binary path.";

} // verus!
