//! Multitrack input recording, tape-machine style: which device inputs
//! feed which lanes, the files and folders a take creates, and the mono
//! 24-bit WAV layout each lane is streamed to (with sizes patched as it
//! grows, so an interrupted take stays readable). Talking to the audio
//! device and to the disk is the caller's.

use vstd::prelude::*;
use crate::error::StillError;
use crate::naming::{sanitize_chars, spec_sanitize};
use crate::text::{chars_of, dec, dec_zero, extend_chars, extend_str, push_dec, push_dec_zero, string_of, trim, trim_chars};
use crate::vst3::le32;

verus! {

/// One input device, at its default (mix) format.
#[derive(Debug)]
pub struct InputDeviceInfo {
    /// Audio host exposing the device ("CoreAudio", "WASAPI", "ASIO", ...).
    pub host: String,
    pub name: String,
    /// Channel count of the device's default input format.
    pub channels: u16,
    pub sample_rate: u32,
    pub is_default: bool,
    /// Names of the inputs, index-aligned with 1..=channels.
    pub input_names: Vec<String>,
}

/// One recorded lane.
#[derive(Debug)]
pub struct RecordLane {
    /// Device input feeding this lane, 1-based.
    pub input: u16,
    /// Layer name, which becomes the file name; "" = named after the
    /// input.
    pub name: String,
}

#[derive(Debug)]
pub struct RecordConfig {
    /// Audio host of the device; "" = the platform's default host.
    pub host: String,
    /// Device name; "" = the system default input.
    pub device: String,
    /// Lanes in file order; any input, any order.
    pub lanes: Vec<RecordLane>,
    /// Base folder; a fresh "Take N" folder is created inside.
    pub dest_dir: String,
}

/// "Input N" for each of `channels` inputs.
pub open spec fn fallback_names(channels: nat) -> Seq<Seq<char>> {
    Seq::new(channels, |i: int| "Input "@ + dec((i + 1) as nat))
}

/// The name of input `n` (1-based): the one the platform gives, unless it
/// is missing or blank, else "Input n".
pub open spec fn input_name(given: Option<String>, n: nat) -> Seq<char> {
    if given is Some && trim(given->0@).len() > 0 {
        given->0@
    } else {
        "Input "@ + dec(n)
    }
}

/// The names of a device's `channels` inputs. `platform` is what the
/// platform reports, one entry per input (an absent or blank entry falls
/// back to "Input n"), or `None` where it names nothing.
pub open spec fn spec_input_names(platform: Option<Seq<Option<String>>>, channels: nat) -> Seq<Seq<char>> {
    match platform {
        Some(given) => Seq::new(
            channels,
            |i: int| input_name(if i < given.len() { given[i] } else { None }, (i + 1) as nat),
        ),
        None => fallback_names(channels),
    }
}

/// What the platform reported, as a sequence.
pub open spec fn reported(platform: Option<Vec<Option<String>>>) -> Option<Seq<Option<String>>> {
    match platform {
        Some(v) => Some(v@),
        None => None,
    }
}

/// "Input n" as a `String`.
fn numbered_input(n: u64) -> (r: String)
    ensures
        r@ == "Input "@ + dec(n as nat),
{
    let mut v: Vec<char> = chars_of("Input ");
    push_dec(&mut v, n);
    string_of(v.as_slice())
}

/// Names of a device's inputs, one per channel: those the platform
/// reports, with "Input N" for each input it leaves unnamed or blank, or
/// for all of them where it reports none.
pub fn input_channel_names(platform: Option<Vec<Option<String>>>, channels: u16) -> (r: Vec<String>)
    ensures
        r@.map_values(|s: String| s@) == spec_input_names(
            reported(platform),
            channels as nat,
        ),
{
    let ghost target = spec_input_names(
        reported(platform),
        channels as nat,
    );
    let mut out: Vec<String> = Vec::new();
    let mut n: u16 = 0;
    while n < channels
        invariant
            n <= channels,
            target == spec_input_names(
                reported(platform),
                channels as nat,
            ),
            target.len() == channels,
            out@.map_values(|s: String| s@) == target.take(n as int),
        decreases channels - n,
    {
        let ghost before = out@.map_values(|s: String| s@);
        let mut name = numbered_input((n + 1) as u64);
        match &platform {
            Some(given) => {
                if (n as usize) < given.len() {
                    match &given[n as usize] {
                        Some(s) => {
                            let t = trim_chars(chars_of(s.as_str()).as_slice());
                            if t.len() > 0 {
                                name = s.clone();
                            }
                        },
                        None => {},
                    }
                }
            },
            None => {},
        }
        assert(name@ == target[n as int]);
        out.push(name);
        assert(out@.map_values(|s: String| s@) =~= before.push(target[n as int]));
        n += 1;
        assert(out@.map_values(|s: String| s@) =~= target.take(n as int));
    }
    assert(target.take(channels as int) =~= target);
    out
}

/// One device as listed: its inputs named by `input_channel_names`, one
/// per channel of its default format.
pub fn device_info(
    host: String,
    name: String,
    channels: u16,
    sample_rate: u32,
    is_default: bool,
    platform_names: Option<Vec<Option<String>>>,
) -> (r: InputDeviceInfo)
    ensures
        r.host@ == host@,
        r.name@ == name@,
        r.channels == channels,
        r.sample_rate == sample_rate,
        r.is_default == is_default,
        r.input_names@.len() == channels,
        r.input_names@.map_values(|s: String| s@) == spec_input_names(reported(platform_names), channels as nat),
{
    let input_names = input_channel_names(platform_names, channels);
    proof {
        assert(input_names@.map_values(|s: String| s@).len() == channels);
    }
    InputDeviceInfo { host, name, channels, sample_rate, is_default, input_names }
}

/// Input devices, the default host's first, then those of the extra
/// hosts (ASIO) when there are any.
pub fn list_input_devices(default_host: Vec<InputDeviceInfo>, extra: Vec<InputDeviceInfo>) -> (r: Vec<InputDeviceInfo>)
    ensures
        r@ == default_host@ + extra@,
{
    let mut out = default_host;
    let mut more = extra;
    out.append(&mut more);
    out
}

/// The devices of the extra hosts, kept from one full enumeration to the
/// next: enumerating them loads drivers, which a background watcher must
/// not do repeatedly.
#[derive(Debug)]
pub struct DeviceCache {
    pub list: Option<Vec<InputDeviceInfo>>,
}

impl DeviceCache {
    pub fn new() -> (r: Self)
        ensures
            r.list is None,
    {
        DeviceCache { list: None }
    }

    /// The list to reuse: the cached one, unless a fresh enumeration is
    /// asked for or none was made yet.
    pub fn reuse(&self, fresh: bool) -> (r: Option<&Vec<InputDeviceInfo>>)
        ensures
            fresh ==> r is None,
            !fresh ==> r == match &self.list {
                Some(l) => Some(l),
                None => None::<&Vec<InputDeviceInfo>>,
            },
    {
        if fresh {
            return None;
        }
        match &self.list {
            Some(l) => Some(l),
            None => None,
        }
    }

    /// Keep the result of a full enumeration.
    pub fn store(&mut self, list: Vec<InputDeviceInfo>)
        ensures
            final(self).list == Some(list),
    {
        self.list = Some(list);
    }
}

/// A four-character code as a big-endian `u32`.
pub fn fourcc(s: &[u8; 4]) -> (r: u32)
    ensures
        r == s@[0] as nat * 0x100_0000 + s@[1] as nat * 0x1_0000 + s@[2] as nat * 0x100 + s@[3] as nat,
{
    (s[0] as u32) * 0x100_0000 + (s[1] as u32) * 0x1_0000 + (s[2] as u32) * 0x100 + s[3] as u32
}

pub const NO_LANES: &'static str = "at least one input must be recorded";
pub const INPUT_ZERO: &'static str = "inputs are numbered from 1";
pub const NO_FOLDER: &'static str = "no recording folder selected";

/// Why a recording setup is refused, checked in this order: no lane, a
/// lane on input 0, no destination folder.
pub open spec fn config_error(cfg: RecordConfig) -> Option<Seq<char>> {
    if cfg.lanes@.len() == 0 {
        Some(NO_LANES@)
    } else if exists|i: int| 0 <= i < cfg.lanes@.len() && #[trigger] cfg.lanes@[i].input == 0 {
        Some(INPUT_ZERO@)
    } else if trim(cfg.dest_dir@).len() == 0 {
        Some(NO_FOLDER@)
    } else {
        None
    }
}

pub fn check_config(cfg: &RecordConfig) -> (r: Result<(), StillError>)
    ensures
        match config_error(*cfg) {
            Some(m) => r matches Err(StillError::InvalidProject(d)) && d@ == m,
            None => r is Ok,
        },
{
    if cfg.lanes.len() == 0 {
        return Err(StillError::InvalidProject(String::from_str(NO_LANES)));
    }
    let mut i: usize = 0;
    while i < cfg.lanes.len()
        invariant
            i <= cfg.lanes@.len(),
            forall|k: int| 0 <= k < i ==> #[trigger] cfg.lanes@[k].input != 0,
        decreases cfg.lanes@.len() - i,
    {
        if cfg.lanes[i].input == 0 {
            return Err(StillError::InvalidProject(String::from_str(INPUT_ZERO)));
        }
        i += 1;
    }
    let d = chars_of(cfg.dest_dir.as_str());
    let t = trim_chars(d.as_slice());
    if t.len() == 0 {
        return Err(StillError::InvalidProject(String::from_str(NO_FOLDER)));
    }
    Ok(())
}

/// The first lane whose input the device does not have (it has
/// `device_channels`), if any.
pub open spec fn first_missing(lanes: Seq<RecordLane>, device_channels: nat, n: int) -> Option<u16>
    decreases n,
{
    if n <= 0 || n > lanes.len() {
        None
    } else {
        match first_missing(lanes, device_channels, n - 1) {
            Some(x) => Some(x),
            None => if lanes[n - 1].input > device_channels {
                Some(lanes[n - 1].input)
            } else {
                None
            },
        }
    }
}

pub fn missing_input(lanes: &Vec<RecordLane>, device_channels: usize) -> (r: Option<u16>)
    ensures
        r == first_missing(lanes@, device_channels as nat, lanes@.len() as int),
{
    let mut i: usize = 0;
    while i < lanes.len()
        invariant
            i <= lanes@.len(),
            first_missing(lanes@, device_channels as nat, i as int) is None,
        decreases lanes@.len() - i,
    {
        if lanes[i].input as usize > device_channels {
            proof {
                lemma_first_missing_stays(lanes@, device_channels as nat, i + 1, lanes@.len() as int);
            }
            return Some(lanes[i].input);
        }
        i += 1;
    }
    None
}

proof fn lemma_first_missing_stays(lanes: Seq<RecordLane>, device_channels: nat, n: int, m: int)
    requires
        0 <= n <= m <= lanes.len(),
        first_missing(lanes, device_channels, n) is Some,
    ensures
        first_missing(lanes, device_channels, m) == first_missing(lanes, device_channels, n),
    decreases m - n,
{
    if n < m {
        lemma_first_missing_stays(lanes, device_channels, n, m - 1);
    }
}

/// The 0-based device channel of each lane, in file order.
pub fn lane_channels(lanes: &Vec<RecordLane>) -> (r: Vec<usize>)
    requires
        forall|i: int| 0 <= i < lanes@.len() ==> #[trigger] lanes@[i].input >= 1,
    ensures
        r@.len() == lanes@.len(),
        forall|i: int| 0 <= i < r@.len() ==> #[trigger] r@[i] == lanes@[i].input - 1,
{
    let mut out: Vec<usize> = Vec::new();
    let mut i: usize = 0;
    while i < lanes.len()
        invariant
            i <= lanes@.len(),
            forall|k: int| 0 <= k < lanes@.len() ==> #[trigger] lanes@[k].input >= 1,
            out@.len() == i,
            forall|k: int| 0 <= k < i ==> #[trigger] out@[k] == lanes@[k].input - 1,
        decreases lanes@.len() - i,
    {
        assert(lanes@[i as int].input >= 1);
        out.push((lanes[i].input - 1) as usize);
        i += 1;
    }
    out
}

/// The file of lane `i` (0-based): "NN - <name>.wav", the name being the
/// lane's (trimmed, sanitized), or "Input NN" after its input when it has
/// none.
pub open spec fn spec_lane_file_name(i: nat, lane: RecordLane) -> Seq<char> {
    let base = if trim(lane.name@).len() == 0 {
        "Input "@ + dec_zero(lane.input as nat, 2)
    } else {
        spec_sanitize(trim(lane.name@))
    };
    dec_zero(i + 1, 2) + " - "@ + base + ".wav"@
}

pub fn lane_file_name(i: usize, lane: &RecordLane) -> (r: String)
    requires
        i < usize::MAX,
    ensures
        r@ == spec_lane_file_name(i as nat, *lane),
{
    let n = chars_of(lane.name.as_str());
    let t = trim_chars(n.as_slice());
    let mut base: Vec<char> = Vec::new();
    if t.len() == 0 {
        extend_str(&mut base, "Input ");
        push_dec_zero(&mut base, lane.input as u64, 2);
    } else {
        base = sanitize_chars(t.as_slice());
    }
    let mut out: Vec<char> = Vec::new();
    push_dec_zero(&mut out, (i + 1) as u64, 2);
    extend_str(&mut out, " - ");
    extend_chars(&mut out, base.as_slice());
    extend_str(&mut out, ".wav");
    string_of(out.as_slice())
}

/// "Take N".
pub open spec fn take_name(n: nat) -> Seq<char> {
    "Take "@ + dec(n)
}

/// The name of the folder a new take goes to ("Take N", the smallest N
/// free), or `None` when the first 9999 are all taken.
pub fn take_folder(existing: &Vec<String>) -> (r: Option<String>)
    ensures
        match r {
            Some(s) => exists|n: nat|
                {
                    &&& 1 <= n < 10_000
                    &&& s@ == #[trigger] take_name(n)
                    &&& !existing@.map_values(|e: String| e@).contains(s@)
                    &&& forall|m: nat| 1 <= m < n ==> existing@.map_values(|e: String| e@).contains(#[trigger] take_name(m))
                },
            None => forall|n: nat| 1 <= n < 10_000 ==> existing@.map_values(|e: String| e@).contains(#[trigger] take_name(n)),
        },
{
    let ghost names = existing@.map_values(|e: String| e@);
    let mut n: u64 = 1;
    while n < 10_000
        invariant
            1 <= n <= 10_000,
            names == existing@.map_values(|e: String| e@),
            forall|m: nat| 1 <= m < n ==> names.contains(#[trigger] take_name(m)),
        decreases 10_000 - n,
    {
        let mut v: Vec<char> = chars_of("Take ");
        push_dec(&mut v, n);
        let cand = string_of(v.as_slice());
        let mut found = false;
        let mut k: usize = 0;
        while k < existing.len()
            invariant
                k <= existing@.len(),
                names == existing@.map_values(|e: String| e@),
                !found ==> forall|j: int| 0 <= j < k ==> names[j] != cand@,
                found ==> names.contains(cand@),
            decreases existing@.len() - k,
        {
            if existing[k] == cand {
                found = true;
                assert(names[k as int] == cand@);
            }
            k += 1;
        }
        if !found {
            proof {
                assert(cand@ == take_name(n as nat));
                assert(!names.contains(cand@)) by {
                    if names.contains(cand@) {
                        let j = choose|j: int| 0 <= j < names.len() && names[j] == cand@;
                        assert(names[j] != cand@);
                    }
                }
            }
            return Some(cand);
        }
        assert(cand@ == take_name(n as nat));
        n += 1;
    }
    None
}

/// WAV data stops short of 4 GB, before the 32-bit sizes wrap.
pub const MAX_DATA_BYTES: u64 = 0xffff_ff7f;

/// The header of a mono 24-bit PCM WAV at `sample_rate`, its sizes those
/// of an empty file (patched as samples are written).
pub open spec fn spec_wav_header(sample_rate: u32) -> Seq<u8> {
    "RIFF"@.map_values(|c: char| c as u8) + le32(36) + "WAVEfmt "@.map_values(|c: char| c as u8) + le32(16)
        + seq![1u8, 0u8, 1u8, 0u8] + le32(sample_rate as nat) + le32(sample_rate as nat * 3) + seq![
        3u8,
        0u8,
        24u8,
        0u8,
    ] + "data"@.map_values(|c: char| c as u8) + le32(0)
}

pub(crate) fn push_le32(out: &mut Vec<u8>, x: u32)
    ensures
        final(out)@ == old(out)@ + le32(x as nat),
{
    let ghost start = out@;
    out.push((x % 256) as u8);
    out.push(((x / 256) % 256) as u8);
    out.push(((x / 65536) % 256) as u8);
    out.push((x / 16777216) as u8);
    assert(out@ =~= start + le32(x as nat));
}

pub(crate) fn push_ascii(out: &mut Vec<u8>, s: &str)
    requires
        forall|i: int| 0 <= i < s@.len() ==> (#[trigger] s@[i] as u32) < 256,
    ensures
        final(out)@ == old(out)@ + s@.map_values(|c: char| c as u8),
{
    let c = chars_of(s);
    let ghost start = out@;
    let mut i: usize = 0;
    while i < c.len()
        invariant
            i <= c@.len(),
            c@ == s@,
            forall|k: int| 0 <= k < s@.len() ==> (#[trigger] s@[k] as u32) < 256,
            out@ == start + s@.map_values(|ch: char| ch as u8).take(i as int),
        decreases c@.len() - i,
    {
        assert((s@[i as int] as u32) < 256);
        out.push(c[i] as u8);
        i += 1;
        assert(out@ =~= start + s@.map_values(|ch: char| ch as u8).take(i as int));
    }
    assert(s@.map_values(|ch: char| ch as u8).take(s@.len() as int) =~= s@.map_values(|ch: char| ch as u8));
}

pub fn wav_header(sample_rate: u32) -> (r: Vec<u8>)
    requires
        sample_rate as nat * 3 <= u32::MAX,
    ensures
        r@ == spec_wav_header(sample_rate),
        r@.len() == 44,
{
    proof {
        reveal_strlit("RIFF");
        reveal_strlit("WAVEfmt ");
        reveal_strlit("data");
    }
    let mut h: Vec<u8> = Vec::new();
    push_ascii(&mut h, "RIFF");
    push_le32(&mut h, 36);
    push_ascii(&mut h, "WAVEfmt ");
    push_le32(&mut h, 16);
    let ghost a = h@;
    h.push(1);
    h.push(0);
    h.push(1);
    h.push(0);
    assert(h@ =~= a + seq![1u8, 0u8, 1u8, 0u8]);
    push_le32(&mut h, sample_rate);
    push_le32(&mut h, sample_rate * 3);
    let ghost b = h@;
    h.push(3);
    h.push(0);
    h.push(24);
    h.push(0);
    assert(h@ =~= b + seq![3u8, 0u8, 24u8, 0u8]);
    push_ascii(&mut h, "data");
    push_le32(&mut h, 0);
    h
}

/// The sizes patched into the header after `data_bytes` bytes of samples:
/// the RIFF size (at byte 4) and the data size (at byte 40).
pub fn wav_sizes(data_bytes: u64) -> (r: (u32, u32))
    requires
        data_bytes <= MAX_DATA_BYTES,
    ensures
        r.0 == 36 + data_bytes,
        r.1 == data_bytes,
{
    ((36 + data_bytes) as u32, data_bytes as u32)
}

/// The three little-endian bytes of a 24-bit sample.
pub open spec fn spec_le24(s: i32) -> Seq<u8> {
    let u = (s as int + 0x1_0000_0000) % 0x1_0000_0000;
    seq![(u % 256) as u8, ((u / 256) % 256) as u8, ((u / 65536) % 256) as u8]
}

pub fn le24(s: i32) -> (r: [u8; 3])
    ensures
        r@ == spec_le24(s),
{
    let u: u32 = if s >= 0 { s as u32 } else { (s as i64 + 0x1_0000_0000) as u32 };
    let r = [(u % 256) as u8, ((u / 256) % 256) as u8, ((u / 65536) % 256) as u8];
    assert(r@ =~= spec_le24(s));
    r
}

/// What stops a take whose file reaches the size limit.
pub const SIZE_LIMIT: &'static str = "WAV size limit reached (4 GB) \u{2014} take stopped";

/// The bytes written to one lane file so far.
#[derive(Debug)]
pub struct LaneBytes {
    pub data_bytes: u64,
}

impl LaneBytes {
    pub fn new() -> (r: Self)
        ensures
            r.data_bytes == 0,
    {
        LaneBytes { data_bytes: 0 }
    }

    /// Counts one more sample (3 bytes); `false` once the file reaches the
    /// size limit (the take must stop).
    pub fn add_sample(&mut self) -> (r: bool)
        requires
            old(self).data_bytes < MAX_DATA_BYTES,
        ensures
            final(self).data_bytes == old(self).data_bytes + 3,
            r == (final(self).data_bytes < MAX_DATA_BYTES),
    {
        self.data_bytes = self.data_bytes + 3;
        self.data_bytes < MAX_DATA_BYTES
    }

    /// RIFF chunks are even-sized: an odd data length gets one pad byte
    /// (not counted in the sizes).
    pub fn needs_pad(&self) -> (r: bool)
        ensures
            r == (self.data_bytes % 2 == 1),
    {
        self.data_bytes % 2 == 1
    }
}

} // verus!
