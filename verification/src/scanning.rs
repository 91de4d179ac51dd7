//! Bookkeeping of a session scan. Each layer's files are decoded one after
//! the other (by the caller); this module checks that every file of a
//! layer shares its format and every layer the session sample rate, places
//! each clip on the timeline (back to back, or at a pinned position with
//! silence before it), and assembles the session's description.

use vstd::prelude::*;
use crate::error::StillError;
use crate::text::{chars_of, dec, extend_str, push_dec, string_of};
use crate::paths::{path_extension, path_piece, plain_path, spec_extension};
use crate::sorting::{to_uppercase, uppercase};
use crate::timeline::{AudioInfo, ClipInfo, ScannedLayer};

verus! {

broadcast use vstd::string::group_string_axioms;

/// What a file whose sample rate differs from the session's is refused.
pub open spec fn rate_message(path: Seq<char>, expected: u32, found: u32) -> Seq<char> {
    path + ": every layer must share the session sample rate ("@ + dec(expected as nat)
        + " Hz expected \u{2014} this file is "@ + dec(found as nat) + " Hz)"@
}

/// What a clip whose format differs from its layer's first clip is refused.
pub open spec fn clip_message(path: Seq<char>, rate: u32, channels: u16, found_rate: u32, found_channels: u16) -> Seq<
    char,
> {
    path + ": every clip must share the first clip's format ("@ + dec(rate as nat) + " Hz, "@ + dec(
        channels as nat,
    ) + " channel(s) expected \u{2014} this file is "@ + dec(found_rate as nat) + " Hz, "@ + dec(
        found_channels as nat,
    ) + " channel(s))"@
}

/// What a file without audio is refused.
pub open spec fn empty_message(path: Seq<char>) -> Seq<char> {
    path + ": the file contains no decodable audio"@
}

/// What a scan without any file is refused.
pub const NO_FILE: &'static str = "no audio file given";

/// One layer being scanned.
#[derive(Debug)]
pub struct LayerScan {
    /// The session sample rate every file must have, once known.
    pub rate_lock: Option<u32>,
    /// (sample rate, channels) of the layer's first file.
    pub format: Option<(u32, u16)>,
    /// Timeline frames laid so far (silence included).
    pub frames: u64,
    pub clips: Vec<ClipInfo>,
}

/// Silence inserted before a clip pinned at `pinned`, the layer being
/// `frames` long.
pub open spec fn lead_in(pinned: Option<u64>, frames: u64) -> nat {
    match pinned {
        Some(s) => if s > frames {
            (s - frames) as nat
        } else {
            0
        },
        None => 0,
    }
}

/// Whether a file of `rate` and `channels` may join the layer.
pub open spec fn format_error(
    lock: Option<u32>,
    format: Option<(u32, u16)>,
    path: Seq<char>,
    rate: u32,
    channels: u16,
) -> Option<Seq<char>> {
    match format {
        None => match lock {
            Some(r) => if r != rate {
                Some(rate_message(path, r, rate))
            } else {
                None
            },
            None => None,
        },
        Some((r, c)) => if r != rate || c != channels {
            Some(clip_message(path, r, c, rate, channels))
        } else {
            None
        },
    }
}

impl LayerScan {
    /// A layer with no file yet; `rate_lock` is the session rate when an
    /// earlier layer set it.
    pub fn new(rate_lock: Option<u32>) -> (r: Self)
        ensures
            r.rate_lock == rate_lock,
            r.format is None,
            r.frames == 0,
            r.clips@.len() == 0,
    {
        LayerScan { rate_lock, format: None, frames: 0, clips: Vec::new() }
    }

    /// Before decoding a file of `sample_rate` and `channels`: check it
    /// may join the layer, and lay the silence before a pinned start.
    /// Returns the frames of silence to insert.
    pub fn begin_clip(&mut self, path: &str, sample_rate: u32, channels: u16, pinned_start: Option<u64>) -> (r:
        Result<u64, StillError>)
        ensures
            match format_error(old(self).rate_lock, old(self).format, path@, sample_rate, channels) {
                Some(m) => r matches Err(StillError::UnsupportedFormat(d)) && d@ == m && *final(self) == *old(
                    self,
                ),
                None => r matches Ok(silence) && silence == lead_in(pinned_start, old(self).frames)
                    && final(self).frames == old(self).frames + silence && final(self).format == Some(
                    (sample_rate, channels),
                ) && final(self).rate_lock == old(self).rate_lock && final(self).clips == old(self).clips,
            },
    {
        match self.format {
            None => match self.rate_lock {
                Some(rate) => {
                    if rate != sample_rate {
                        let mut m: Vec<char> = chars_of(path);
                        extend_str(&mut m, ": every layer must share the session sample rate (");
                        push_dec(&mut m, rate as u64);
                        extend_str(&mut m, " Hz expected \u{2014} this file is ");
                        push_dec(&mut m, sample_rate as u64);
                        extend_str(&mut m, " Hz)");
                        return Err(StillError::UnsupportedFormat(string_of(m.as_slice())));
                    }
                },
                None => {},
            },
            Some((rate, ch)) => {
                if rate != sample_rate || ch != channels {
                    let mut m: Vec<char> = chars_of(path);
                    extend_str(&mut m, ": every clip must share the first clip's format (");
                    push_dec(&mut m, rate as u64);
                    extend_str(&mut m, " Hz, ");
                    push_dec(&mut m, ch as u64);
                    extend_str(&mut m, " channel(s) expected \u{2014} this file is ");
                    push_dec(&mut m, sample_rate as u64);
                    extend_str(&mut m, " Hz, ");
                    push_dec(&mut m, channels as u64);
                    extend_str(&mut m, " channel(s))");
                    return Err(StillError::UnsupportedFormat(string_of(m.as_slice())));
                }
            },
        }
        self.format = Some((sample_rate, channels));
        let silence = match pinned_start {
            Some(s) => if s > self.frames {
                s - self.frames
            } else {
                0
            },
            None => 0,
        };
        self.frames = self.frames + silence;
        Ok(silence)
    }

    /// After decoding a file of `frames` frames: it becomes a clip at the
    /// layer's end. A file without audio is refused.
    pub fn end_clip(&mut self, path: String, name: String, frames: u64) -> (r: Result<(), StillError>)
        requires
            old(self).frames + frames <= u64::MAX,
        ensures
            frames == 0 ==> (r matches Err(StillError::Decode(d)) && d@ == empty_message(path@) && *final(self)
                == *old(self)),
            frames > 0 ==> r is Ok && final(self).frames == old(self).frames + frames && final(self).clips@
                == old(self).clips@.push(
                ClipInfo { path, name, start_sample: old(self).frames, duration_samples: frames },
            ) && final(self).format == old(self).format && final(self).rate_lock == old(self).rate_lock,
    {
        if frames == 0 {
            let mut m: Vec<char> = chars_of(path.as_str());
            extend_str(&mut m, ": the file contains no decodable audio");
            return Err(StillError::Decode(string_of(m.as_slice())));
        }
        let start = self.frames;
        self.clips.push(ClipInfo { path, name, start_sample: start, duration_samples: frames });
        self.frames = start + frames;
        Ok(())
    }

    /// The scanned layer and its sample rate; a layer without any file is
    /// refused.
    pub fn finish(self) -> (r: Result<(ScannedLayer, u32), StillError>)
        ensures
            match self.format {
                None => r matches Err(StillError::Decode(d)) && d@ == NO_FILE@,
                Some((rate, channels)) => r matches Ok((l, sr)) && sr == rate && l.channels == channels
                    && l.duration_samples == self.frames && l.clips@ == self.clips@,
            },
    {
        match self.format {
            None => Err(StillError::Decode(String::from_str(NO_FILE))),
            Some((rate, channels)) => Ok(
                (ScannedLayer { clips: self.clips, channels, duration_samples: self.frames }, rate),
            ),
        }
    }
}

/// The display name of a file's type: its extension in upper case, or
/// "AUDIO" when it has none.
pub fn format_label(path: &str) -> (r: String)
    ensures
        r@ == "AUDIO"@ || exists|piece: Seq<char>| path_piece(piece, path@) && r@ == #[trigger] uppercase(piece),
        plain_path(path@) ==> r@ == match spec_extension(path@) {
            Some(e) => uppercase(e),
            None => "AUDIO"@,
        },
{
    match path_extension(path) {
        Some(e) => to_uppercase(e.as_str()),
        None => String::from_str("AUDIO"),
    }
}

/// The largest duration and channel count over the first `n` layers.
pub open spec fn max_duration(layers: Seq<ScannedLayer>, n: int) -> u64
    decreases n,
{
    if n <= 0 {
        0
    } else {
        let m = max_duration(layers, n - 1);
        if layers[n - 1].duration_samples > m {
            layers[n - 1].duration_samples
        } else {
            m
        }
    }
}

pub open spec fn max_channels(layers: Seq<ScannedLayer>, n: int) -> u16
    decreases n,
{
    if n <= 0 {
        0
    } else {
        let m = max_channels(layers, n - 1);
        if layers[n - 1].channels > m {
            layers[n - 1].channels
        } else {
            m
        }
    }
}

/// The session description: the first file's path, the base layer's
/// clips, the longest layer's length, the widest layer's channel count.
/// `format` is the display name of the first file's type.
pub fn session_info(layers: Vec<ScannedLayer>, sample_rate: u32, first_path: String, format: String) -> (r:
    AudioInfo)
    requires
        layers@.len() >= 1,
    ensures
        r.path == first_path,
        r.clips@ == layers@[0].clips@,
        r.layers@ == layers@,
        r.duration_samples == max_duration(layers@, layers@.len() as int),
        r.channels == max_channels(layers@, layers@.len() as int),
        r.sample_rate == sample_rate,
        r.format == format,
{
    let mut duration: u64 = 0;
    let mut channels: u16 = 0;
    let mut i: usize = 0;
    while i < layers.len()
        invariant
            i <= layers@.len(),
            duration == max_duration(layers@, i as int),
            channels == max_channels(layers@, i as int),
        decreases layers@.len() - i,
    {
        if layers[i].duration_samples > duration {
            duration = layers[i].duration_samples;
        }
        if layers[i].channels > channels {
            channels = layers[i].channels;
        }
        i += 1;
    }
    let clips = layers[0].clips.clone();
    proof {
        assert(clips@ =~= layers@[0].clips@);
    }
    AudioInfo { path: first_path, clips, layers, duration_samples: duration, sample_rate, channels, format }
}

} // verus!
