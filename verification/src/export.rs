//! Export planning: output formats and encoder arguments, file naming and
//! collision handling, per-job settings, and the Red Book program layout
//! (frame-aligned track starts, cue sheet, DDP track table) of a CD image.

use vstd::prelude::*;
use crate::metadata::{ascii_digits, expand_macros, expansion, is_empty_meta, replace_str, resolve_tags, tags_of, AlbumMeta, AlbumMetaView, MacroContext, TrackTags};
use crate::ddp::{Disc, Track};
use crate::error::StillError;
use crate::float_bits::{f32_not_positive, f32_positive, f32_unity, F32_ONE};
use crate::naming::{render_track_filename, sanitize_chars, spec_render_track_filename, spec_sanitize};
use crate::plugins::MasterPluginSpec;
use crate::project::{DitherMode, ExportConfig, ExportFormat, TrackInfo};
use crate::text::{chars_of, dec, dec_zero, digit_char, extend_chars, extend_str, lemma_dec_len_pos, push_dec, push_dec_zero, replace, string_of, trim, trim_chars};
use vstd::set_lib::{lemma_int_range, lemma_len_subset, lemma_map_size, set_int_range};
use crate::timeline::{clip_end, clips_fit, layer_parts, parts_from, ClipInfo, TimelinePart};
use crate::tracks::{all_digits, as_ints, digits_value, is_order, order_by_keys, parse_unsigned, parse_unsigned_chars, sorted_order, unsigned_digits};
pub use crate::plan::{plan_export, plan_export_stems, plan_export_with_meta};

verus! {

broadcast use vstd::string::group_string_axioms;

/// Red Book frame: 1/75 s at 44.1 kHz.
pub const CD_FRAME_SAMPLES: u64 = 588;
/// Red Book sample rate.
pub const CD_RATE: u32 = 44_100;

/// The texts of a list of strings.
pub open spec fn texts(v: Seq<String>) -> Seq<Seq<char>> {
    v.map_values(|s: String| s@)
}

// ---------------------------------------------------------------------------
// Encoder settings.

/// `mm:ss:ff` position of a CD frame count (75 frames per second).
pub open spec fn spec_cue_time(frames: nat) -> Seq<char> {
    let ff = frames % 75;
    let secs = frames / 75;
    dec_zero(secs / 60, 2) + ":"@ + dec_zero(secs % 60, 2) + ":"@ + dec_zero(ff, 2)
}

/// A CD frame count as a cue sheet time, `mm:ss:ff`.
pub fn cue_time(frames: u64) -> (r: String)
    ensures
        r@ == spec_cue_time(frames as nat),
{
    let ff = frames % 75;
    let secs = frames / 75;
    let mut v: Vec<char> = Vec::new();
    push_dec_zero(&mut v, secs / 60, 2);
    extend_str(&mut v, ":");
    push_dec_zero(&mut v, secs % 60, 2);
    extend_str(&mut v, ":");
    push_dec_zero(&mut v, ff, 2);
    string_of(v.as_slice())
}

/// The encoder arguments of a format: codec, sample format for lossless
/// output, bitrate for lossy output.
pub open spec fn spec_codec_args(format: ExportFormat, bit_depth: u8, kbps: u32) -> Seq<Seq<char>> {
    match format {
        ExportFormat::Flac => if bit_depth == 24 {
            seq!["-c:a"@, "flac"@, "-sample_fmt"@, "s32"@, "-bits_per_raw_sample"@, "24"@]
        } else {
            seq!["-c:a"@, "flac"@, "-sample_fmt"@, "s16"@]
        },
        ExportFormat::Mp3 => seq!["-c:a"@, "libmp3lame"@, "-b:a"@, dec(kbps as nat) + "k"@],
        ExportFormat::Aac => seq!["-c:a"@, "aac"@, "-b:a"@, dec(kbps as nat) + "k"@],
        _ => seq!["-c:a"@, if bit_depth == 24 { "pcm_s24le"@ } else { "pcm_s16le"@ }],
    }
}

fn text(s: &str) -> (r: String)
    ensures
        r@ == s@,
{
    String::from_str(s)
}

/// `"{kbps}k"`.
fn kbps_text(kbps: u32) -> (r: String)
    ensures
        r@ == dec(kbps as nat) + "k"@,
{
    let mut v: Vec<char> = Vec::new();
    push_dec(&mut v, kbps as u64);
    extend_str(&mut v, "k");
    assert(v@ =~= Seq::<char>::empty() + dec(kbps as nat) + "k"@);
    string_of(v.as_slice())
}

/// Encoder arguments for the configured format. `Source` never reaches
/// encoding (it is resolved per job); a stray value encodes as WAV.
pub fn codec_args(cfg: &ExportConfig) -> (r: Vec<String>)
    ensures
        texts(r@) == spec_codec_args(cfg.format, cfg.bit_depth, cfg.bitrate_kbps),
{
    let r = match cfg.format {
        ExportFormat::Flac => {
            if cfg.bit_depth == 24 {
                vec![
                    text("-c:a"),
                    text("flac"),
                    text("-sample_fmt"),
                    text("s32"),
                    text("-bits_per_raw_sample"),
                    text("24"),
                ]
            } else {
                vec![text("-c:a"), text("flac"), text("-sample_fmt"), text("s16")]
            }
        },
        ExportFormat::Mp3 => vec![text("-c:a"), text("libmp3lame"), text("-b:a"), kbps_text(cfg.bitrate_kbps)],
        ExportFormat::Aac => vec![text("-c:a"), text("aac"), text("-b:a"), kbps_text(cfg.bitrate_kbps)],
        _ => vec![
            text("-c:a"),
            if cfg.bit_depth == 24 {
                text("pcm_s24le")
            } else {
                text("pcm_s16le")
            },
        ],
    };
    assert(texts(r@) =~= spec_codec_args(cfg.format, cfg.bit_depth, cfg.bitrate_kbps));
    r
}

/// The dither method applied for a mode, given whether the output
/// reduces to 16-bit lossless.
pub open spec fn dither_method(mode: DitherMode, reduces_depth: bool) -> Option<Seq<char>> {
    if !reduces_depth {
        None
    } else {
        match mode {
            DitherMode::Off => None,
            DitherMode::Auto => Some("triangular_hp"@),
            DitherMode::Triangular => Some("triangular"@),
            DitherMode::TriangularHp => Some("triangular_hp"@),
            DitherMode::Shibata => Some("shibata"@),
        }
    }
}

/// The sample-rate conversion / dither stage: `None` when the output keeps
/// the session rate and needs no dither (bit-exact path).
pub open spec fn spec_resample_filter(
    format: ExportFormat,
    bit_depth: u8,
    target: Option<u32>,
    dither: DitherMode,
    session_rate: u32,
) -> Option<Seq<char>> {
    let out_rate = match target {
        Some(r) => r,
        None => session_rate,
    };
    let rate_change = out_rate != session_rate;
    let reduces = (format is Wav || format is Flac) && bit_depth <= 16;
    let d = dither_method(dither, reduces);
    if !rate_change && d is None {
        None
    } else {
        Some(
            "aresample=osr="@ + dec(out_rate as nat) + (if rate_change {
                ":filter_size=128:cutoff=0.96"@
            } else {
                Seq::<char>::empty()
            }) + match d {
                Some(m) => ":out_sample_fmt=s16:dither_method="@ + m,
                None => Seq::<char>::empty(),
            },
        )
    }
}

/// The aresample stage shared by the export paths: conversion to the
/// target rate and/or dither when lossless output reduces to 16-bit.
pub fn resample_filter(cfg: &ExportConfig, session_rate: u32) -> (r: Option<String>)
    ensures
        match spec_resample_filter(cfg.format, cfg.bit_depth, cfg.target_sample_rate, cfg.dither, session_rate) {
            Some(f) => r matches Some(s) && s@ == f,
            None => r is None,
        },
{
    let out_rate = match cfg.target_sample_rate {
        Some(r) => r,
        None => session_rate,
    };
    let rate_change = out_rate != session_rate;
    let reduces = (matches!(cfg.format, ExportFormat::Wav) || matches!(cfg.format, ExportFormat::Flac))
        && cfg.bit_depth <= 16;
    let dither: Option<&str> = if !reduces {
        None
    } else {
        match cfg.dither {
            DitherMode::Off => None,
            DitherMode::Auto => Some("triangular_hp"),
            DitherMode::Triangular => Some("triangular"),
            DitherMode::TriangularHp => Some("triangular_hp"),
            DitherMode::Shibata => Some("shibata"),
        }
    };
    proof {
        assert(match dither_method(cfg.dither, reduces) {
            Some(m) => dither matches Some(d) && d@ == m,
            None => dither is None,
        });
    }
    if !rate_change && dither.is_none() {
        return None;
    }
    let mut v: Vec<char> = Vec::new();
    extend_str(&mut v, "aresample=osr=");
    push_dec(&mut v, out_rate as u64);
    let ghost head = v@;
    if rate_change {
        extend_str(&mut v, ":filter_size=128:cutoff=0.96");
    } else {
        assert(v@ =~= head + Seq::<char>::empty());
    }
    let ghost mid = v@;
    match dither {
        Some(m) => {
            extend_str(&mut v, ":out_sample_fmt=s16:dither_method=");
            extend_str(&mut v, m);
            assert(v@ =~= mid + (":out_sample_fmt=s16:dither_method="@ + m@));
        },
        None => {
            assert(v@ =~= mid + Seq::<char>::empty());
        },
    }
    Some(string_of(v.as_slice()))
}

/// How many encoder jobs run at once: a positive override (`jobs_var`,
/// the text of the `STILL_EXPORT_JOBS` setting) capped by the job count,
/// else every core but two, at least one and at most one per job.
pub open spec fn spec_export_concurrency(job_count: nat, cores: nat, jobs_var: Option<Seq<char>>) -> nat {
    let jobs = if job_count >= 1 { job_count } else { 1 };
    let forced = match jobs_var {
        Some(v) => match parse_unsigned(v, usize::MAX as nat) {
            Some(n) => if n > 0 { Some(n) } else { None },
            None => None,
        },
        None => None,
    };
    match forced {
        Some(n) => if n < jobs { n } else { jobs },
        None => {
            let free = if cores >= 3 { (cores - 2) as nat } else { 1 };
            if free < jobs { free } else { jobs }
        },
    }
}

/// Number of parallel encoder jobs. Audio encoders are essentially
/// single-threaded, so one core per job, leaving two cores free.
pub fn export_concurrency(job_count: usize, available_cores: usize, jobs_var: Option<&str>) -> (r: usize)
    ensures
        r == spec_export_concurrency(
            job_count as nat,
            available_cores as nat,
            match jobs_var {
                Some(v) => Some(v@),
                None => None,
            },
        ),
        r >= 1,
{
    let jobs = if job_count >= 1 { job_count } else { 1 };
    let forced: Option<usize> = match jobs_var {
        Some(v) => {
            let cs = chars_of(v);
            match parse_unsigned_chars(cs.as_slice(), usize::MAX as u64) {
                Some(n) => if n > 0 { Some(n as usize) } else { None },
                None => None,
            }
        },
        None => None,
    };
    match forced {
        Some(n) => if n < jobs { n } else { jobs },
        None => {
            let free = if available_cores >= 3 { available_cores - 2 } else { 1 };
            if free < jobs { free } else { jobs }
        },
    }
}

/// Album gap in Red Book sectors (75 per second), rounded to nearest.
pub open spec fn spec_gap_sectors(ms: u32) -> nat {
    ((ms as nat) * 75 + 500) / 1000
}

pub fn gap_sectors(ms: u32) -> (r: u64)
    ensures
        r == spec_gap_sectors(ms),
{
    (ms as u64 * 75 + 500) / 1000
}

// ---------------------------------------------------------------------------
// `Source` output resolution.

/// ASCII lower case of a character.
pub open spec fn ascii_lower(c: char) -> char {
    if 'A' <= c && c <= 'Z' {
        ((c as u32) + 32) as char
    } else {
        c
    }
}

/// Whether `s` equals `lower` (an ASCII lower-case word) ignoring ASCII
/// case. For the extensions compared here this is the same as comparing
/// the Unicode lower case of `s`: no non-ASCII character lower-cases to
/// one of their letters or digits.
pub open spec fn eq_ignore_case(s: Seq<char>, lower: Seq<char>) -> bool {
    s.len() == lower.len() && forall|i: int| 0 <= i < s.len() ==> ascii_lower(#[trigger] s[i]) == lower[i]
}

fn lower_char(c: char) -> (r: char)
    ensures
        r == ascii_lower(c),
{
    if 'A' <= c && c <= 'Z' {
        let b = (c as u8) + 32;
        b as char
    } else {
        c
    }
}

fn equals_ignore_case(s: &[char], lower: &str) -> (b: bool)
    ensures
        b == eq_ignore_case(s@, lower@),
{
    let l = chars_of(lower);
    if s.len() != l.len() {
        return false;
    }
    let mut i: usize = 0;
    while i < s.len()
        invariant
            i <= s@.len() == l@.len(),
            l@ == lower@,
            forall|k: int| 0 <= k < i ==> ascii_lower(#[trigger] s@[k]) == l@[k],
        decreases s@.len() - i,
    {
        if lower_char(s[i]) != l[i] {
            return false;
        }
        i += 1;
    }
    true
}

/// The format an existing file's extension stands for: FLAC, MP3, AAC in
/// an MPEG-4 container, else WAV.
pub open spec fn spec_format_for_extension(ext: Seq<char>) -> ExportFormat {
    if eq_ignore_case(ext, "flac"@) {
        ExportFormat::Flac
    } else if eq_ignore_case(ext, "mp3"@) {
        ExportFormat::Mp3
    } else if eq_ignore_case(ext, "m4a"@) || eq_ignore_case(ext, "aac"@) || eq_ignore_case(ext, "mp4"@) {
        ExportFormat::Aac
    } else {
        ExportFormat::Wav
    }
}

pub fn format_for_extension(ext: &str) -> (r: ExportFormat)
    ensures
        r == spec_format_for_extension(ext@),
{
    let e = chars_of(ext);
    if equals_ignore_case(e.as_slice(), "flac") {
        ExportFormat::Flac
    } else if equals_ignore_case(e.as_slice(), "mp3") {
        ExportFormat::Mp3
    } else if equals_ignore_case(e.as_slice(), "m4a") || equals_ignore_case(e.as_slice(), "aac")
        || equals_ignore_case(e.as_slice(), "mp4") {
        ExportFormat::Aac
    } else {
        ExportFormat::Wav
    }
}

/// Bit depth mirrored from a source: clamped to the 16/24 the encoders
/// accept; unknown depth (lossy sources) gives 24.
pub open spec fn spec_source_bit_depth(depth: Option<u8>) -> u8 {
    match depth {
        Some(b) => if b >= 24 { 24 } else { 16 },
        None => 24,
    }
}

/// Output parameters mirroring a source file: format from its extension,
/// bit depth clamped, sample rate as probed (`None` = unknown).
pub fn resolve_source_format(ext: &str, bit_depth: Option<u8>, sample_rate: Option<u32>) -> (r: (
    ExportFormat,
    u8,
    Option<u32>,
))
    ensures
        r == (spec_format_for_extension(ext@), spec_source_bit_depth(bit_depth), sample_rate),
{
    let depth = match bit_depth {
        Some(b) => if b >= 24 { 24 } else { 16 },
        None => 24,
    };
    (format_for_extension(ext), depth, sample_rate)
}

// ---------------------------------------------------------------------------
// Jobs.

/// What the mixer needs to know about one layer at export time.
#[derive(Debug)]
pub struct LayerMix {
    pub clips: Vec<ClipInfo>,
}

/// One layer's identity for stems planning.
#[derive(Debug)]
pub struct StemLayer {
    /// Display name: the custom layer name, or the source file's stem.
    pub name: String,
    /// First source file of the layer (format reference for `Source`).
    pub source_path: String,
}

/// One file to produce. `out_path` is already unique: existing files are
/// never overwritten.
#[derive(Debug)]
pub struct ExportJob {
    pub number: u32,
    pub title: String,
    pub start_sample: u64,
    pub end_sample: u64,
    pub out_path: String,
    /// Linear volume of each layer for this track, as `f32` bit patterns.
    pub layer_volumes: Vec<u32>,
    /// This track's own insert chain (master-bus position, active for the
    /// whole job); attached by the caller after planning.
    pub track_chain: Vec<MasterPluginSpec>,
    /// Tags to write into the finished file (`None` = tagging disabled).
    pub tags: Option<TrackTags>,
    /// Concrete (format, bit depth, sample rate) when the configuration
    /// asks for `Source`, probed from this job's reference file.
    pub source_fmt: Option<(ExportFormat, u8, Option<u32>)>,
    /// A window with no audible audio gives a silent file instead of an
    /// error (stems must stay aligned).
    pub silence_ok: bool,
    /// Normalized ISRC ("" = none).
    pub isrc: String,
    /// Album gap rendered before this track in continuous deliverables,
    /// in Red Book sectors.
    pub gap_before_sectors: u64,
}

impl ExportJob {
    /// The configuration this job encodes with (`Source` resolved).
    pub fn effective_cfg(&self, cfg: &ExportConfig) -> (r: ExportConfig)
        ensures
            match self.source_fmt {
                Some((f, d, rate)) => r == (ExportConfig {
                    format: f,
                    bit_depth: d,
                    target_sample_rate: rate,
                    ..*cfg
                }),
                None => r == *cfg,
            },
    {
        let c = cfg.clone();
        match self.source_fmt {
            Some((format, bit_depth, target_sample_rate)) => ExportConfig {
                format,
                bit_depth,
                target_sample_rate,
                ..c
            },
            None => c,
        }
    }
}


/// What planning an export without a destination is answered.
pub const NO_DESTINATION: &'static str = "no destination folder selected";

/// An export needs a destination folder.
pub fn check_destination(cfg: &ExportConfig) -> (r: Result<(), StillError>)
    ensures
        trim(cfg.dest_dir@).len() == 0 ==> (r matches Err(StillError::InvalidProject(m)) && m@ == NO_DESTINATION@),
        trim(cfg.dest_dir@).len() > 0 ==> r is Ok,
{
    let d = chars_of(cfg.dest_dir.as_str());
    let t = trim_chars(d.as_slice());
    if t.len() == 0 {
        Err(StillError::InvalidProject(String::from_str(NO_DESTINATION)))
    } else {
        Ok(())
    }
}

// ---------------------------------------------------------------------------
// Output file names.

/// `str::split(sep)`: the pieces between separators, empty ones included;
/// always at least one.
pub open spec fn split_on(s: Seq<char>, sep: char) -> Seq<Seq<char>>
    decreases s.len(),
{
    if s.len() == 0 {
        seq![Seq::<char>::empty()]
    } else {
        let init = split_on(s.drop_last(), sep);
        if s.last() == sep {
            init.push(Seq::<char>::empty())
        } else {
            init.update(init.len() - 1, init.last().push(s.last()))
        }
    }
}

pub proof fn lemma_split_on_len(s: Seq<char>, sep: char)
    ensures
        split_on(s, sep).len() >= 1,
    decreases s.len(),
{
    if s.len() > 0 {
        lemma_split_on_len(s.drop_last(), sep);
    }
}

/// The pieces of `s` between occurrences of `sep`.
pub fn split_chars(s: &[char], sep: char) -> (r: Vec<Vec<char>>)
    ensures
        r@.map_values(|p: Vec<char>| p@) == split_on(s@, sep),
{
    let mut done: Vec<Vec<char>> = Vec::new();
    let mut cur: Vec<char> = Vec::new();
    let mut i: usize = 0;
    while i < s.len()
        invariant
            i <= s@.len(),
            done@.map_values(|p: Vec<char>| p@).push(cur@) == split_on(s@.take(i as int), sep),
        decreases s@.len() - i,
    {
        let ghost before = done@.map_values(|p: Vec<char>| p@).push(cur@);
        proof {
            lemma_split_on_len(s@.take(i as int), sep);
            assert(s@.take(i + 1).drop_last() =~= s@.take(i as int));
            assert(s@.take(i + 1).last() == s@[i as int]);
        }
        if s[i] == sep {
            let mut fresh: Vec<char> = Vec::new();
            std::mem::swap(&mut fresh, &mut cur);
            done.push(fresh);
            assert(done@.map_values(|p: Vec<char>| p@).push(cur@) =~= before.push(Seq::<char>::empty()));
        } else {
            cur.push(s[i]);
            assert(done@.map_values(|p: Vec<char>| p@).push(cur@) =~= before.update(
                before.len() - 1,
                before.last().push(s@[i as int]),
            ));
        }
        i += 1;
    }
    done.push(cur);
    assert(s@.take(s@.len() as int) =~= s@);
    done
}

/// The non-empty items of `segs`, in order.
pub open spec fn non_empty(segs: Seq<Seq<char>>) -> Seq<Seq<char>>
    decreases segs.len(),
{
    if segs.len() == 0 {
        seq![]
    } else if segs.last().len() > 0 {
        non_empty(segs.drop_last()).push(segs.last())
    } else {
        non_empty(segs.drop_last())
    }
}

/// A file's base name and the folders above it: the last segment and the
/// ones before it, or "Untitled" at the top when there is none.
pub open spec fn place_of(segs: Seq<Seq<char>>) -> (Seq<char>, Seq<Seq<char>>) {
    if segs.len() == 0 {
        ("Untitled"@, seq![])
    } else {
        (segs.last(), segs.drop_last())
    }
}

/// One segment of a naming template for a track: the stem macros
/// (`{ln}`, the 2-digit layer number, and `{layer}`, its name) first when
/// a stem is named, then the metadata macros, then the file-name tokens
/// and sanitizing.
pub open spec fn segment_name(
    seg: Seq<char>,
    m: AlbumMetaView,
    title: Seq<char>,
    stem: Seq<char>,
    numbering: (u32, u32, u32, u32),
    number: nat,
    total: nat,
    layer: Option<(nat, Seq<char>)>,
) -> Seq<char> {
    let s = match layer {
        Some((li, name)) => replace(replace(seg, "{ln}"@, dec_zero(li + 1, 2)), "{layer}"@, name),
        None => seg,
    };
    spec_render_track_filename(expansion(s, m, title, stem, numbering), number, total, title, stem)
}

/// The output place of a track: the template split on '/' (before any
/// value is injected, so no title can create a folder), each segment
/// named on its own, empty ones dropped.
pub open spec fn spec_file_place(
    template: Seq<char>,
    m: AlbumMetaView,
    title: Seq<char>,
    stem: Seq<char>,
    numbering: (u32, u32, u32, u32),
    number: nat,
    total: nat,
    layer: Option<(nat, Seq<char>)>,
) -> (Seq<char>, Seq<Seq<char>>) {
    place_of(
        non_empty(
            split_on(template, '/').map_values(
                |seg: Seq<char>| segment_name(seg, m, title, stem, numbering, number, total, layer),
            ),
        ),
    )
}

/// Base name and sub-folders of one output file, from the naming
/// template. `layer` names a stem: its index (0-based) and name.
pub fn file_place(
    template: &str,
    ctx: &MacroContext,
    number: usize,
    total: usize,
    layer: Option<(usize, &str)>,
) -> (r: (String, Vec<String>))
    requires
        layer matches Some((li, _)) ==> li < usize::MAX,
    ensures
        ({
            let (base, dirs) = spec_file_place(
                template@,
                ctx.meta@,
                ctx.title@,
                ctx.source_stem@,
                ctx.numbering,
                number as nat,
                total as nat,
                match layer {
                    Some((li, name)) => Some((li as nat, name@)),
                    None => None,
                },
            );
            r.0@ == base && texts(r.1@) == dirs
        }),
{
    let ghost lay = match layer {
        Some((li, name)) => Some((li as nat, name@)),
        None => None,
    };
    let ghost f = |seg: Seq<char>|
        segment_name(seg, ctx.meta@, ctx.title@, ctx.source_stem@, ctx.numbering, number as nat, total as nat, lay);
    let t = chars_of(template);
    let pieces = split_chars(t.as_slice(), '/');
    let ghost whole = split_on(template@, '/').map_values(f);
    let mut kept: Vec<String> = Vec::new();
    let mut i: usize = 0;
    while i < pieces.len()
        invariant
            i <= pieces@.len(),
            pieces@.map_values(|p: Vec<char>| p@) == split_on(template@, '/'),
            whole == split_on(template@, '/').map_values(f),
            texts(kept@) == non_empty(whole.take(i as int)),
            f == (|seg: Seq<char>|
                segment_name(seg, ctx.meta@, ctx.title@, ctx.source_stem@, ctx.numbering, number as nat, total as nat, lay)),
            lay == match layer {
                Some((li, name)) => Some((li as nat, name@)),
                None => None,
            },
            layer matches Some((li, _)) ==> li < usize::MAX,
        decreases pieces@.len() - i,
    {
        let seg = string_of(pieces[i].as_slice());
        assert(seg@ == split_on(template@, '/')[i as int]);
        let named = match layer {
            Some((li, name)) => {
                let mut ln: Vec<char> = Vec::new();
                push_dec_zero(&mut ln, (li + 1) as u64, 2);
                let sc = chars_of(seg.as_str());
                let nc = chars_of(name);
                proof {
                    reveal_strlit("{ln}");
                    reveal_strlit("{layer}");
                }
                let a = replace_str(&sc, "{ln}", ln.as_slice());
                let b = replace_str(&a, "{layer}", nc.as_slice());
                string_of(b.as_slice())
            },
            None => seg,
        };
        let expanded = expand_macros(named.as_str(), ctx);
        let rendered = render_track_filename(expanded.as_str(), number, total, ctx.title, ctx.source_stem);
        assert(rendered@ == whole[i as int]);
        assert(whole.take(i + 1).drop_last() =~= whole.take(i as int));
        if !rendered.as_str().is_empty() {
            kept.push(rendered);
            assert(texts(kept@) =~= non_empty(whole.take(i as int)).push(whole[i as int]));
        }
        i += 1;
    }
    assert(whole.take(pieces@.len() as int) =~= whole);
    let n = kept.len();
    if n == 0 {
        proof {
            reveal_strlit("Untitled");
        }
        (String::from_str("Untitled"), Vec::new())
    } else {
        let base = kept.pop().unwrap();
        assert(texts(kept@) =~= non_empty(whole).drop_last());
        (base, kept)
    }
}

/// The `k`-th candidate name for a file: "base.ext", then
/// "base (1).ext", "base (2).ext"...
pub open spec fn candidate_name(base: Seq<char>, ext: Seq<char>, k: nat) -> Seq<char> {
    if k == 0 {
        base + "."@ + ext
    } else {
        base + " ("@ + dec(k) + ")."@ + ext
    }
}

proof fn lemma_digit_char_injective(a: nat, b: nat)
    requires
        a < 10,
        b < 10,
        digit_char(a) == digit_char(b),
    ensures
        a == b,
{
}

/// Distinct numbers have distinct decimal representations.
pub proof fn lemma_dec_injective(a: nat, b: nat)
    requires
        dec(a) == dec(b),
    ensures
        a == b,
    decreases a,
{
    if a < 10 && b < 10 {
        assert(dec(a) == seq![digit_char(a)]);
        assert(dec(b) == seq![digit_char(b)]);
        assert(dec(a)[0] == digit_char(a));
        assert(dec(b)[0] == digit_char(b));
        lemma_digit_char_injective(a, b);
    } else if a < 10 {
        lemma_dec_len_pos(b / 10);
        assert(dec(a).len() == 1);
        assert(dec(b).len() >= 2);
    } else if b < 10 {
        lemma_dec_len_pos(a / 10);
        assert(dec(b).len() == 1);
        assert(dec(a).len() >= 2);
    } else {
        let da = dec(a / 10).push(digit_char(a % 10));
        let db = dec(b / 10).push(digit_char(b % 10));
        assert(dec(a) == da);
        assert(dec(b) == db);
        assert(da.last() == db.last());
        lemma_digit_char_injective(a % 10, b % 10);
        assert(da.drop_last() =~= dec(a / 10));
        assert(db.drop_last() =~= dec(b / 10));
        lemma_dec_injective(a / 10, b / 10);
        assert(a == 10 * (a / 10) + a % 10);
        assert(b == 10 * (b / 10) + b % 10);
    }
}

/// Candidate names are pairwise distinct.
pub proof fn lemma_candidates_distinct(base: Seq<char>, ext: Seq<char>, a: nat, b: nat)
    requires
        candidate_name(base, ext, a) == candidate_name(base, ext, b),
    ensures
        a == b,
{
    reveal_strlit(".");
    reveal_strlit(" (");
    reveal_strlit(").");
    let ca = candidate_name(base, ext, a);
    if a == 0 && b > 0 {
        lemma_dec_len_pos(b);
        assert(ca.len() == base.len() + 1 + ext.len());
    } else if b == 0 && a > 0 {
        lemma_dec_len_pos(a);
        assert(ca.len() == base.len() + 4 + dec(a).len() + ext.len());
    } else if a > 0 && b > 0 {
        let p: int = base.len() as int + 2;
        let cb = candidate_name(base, ext, b);
        assert(ca.len() == base.len() + 4 + dec(a).len() + ext.len());
        assert(cb.len() == base.len() + 4 + dec(b).len() + ext.len());
        assert(dec(a).len() == dec(b).len());
        assert(ca.subrange(p, p + dec(a).len() as int) =~= dec(a));
        assert(candidate_name(base, ext, b).subrange(p, p + dec(b).len() as int) =~= dec(b));
        lemma_dec_injective(a, b);
    }
}

/// Among the first `taken.len() + 1` candidates one is free.
pub proof fn lemma_free_candidate(base: Seq<char>, ext: Seq<char>, taken: Seq<Seq<char>>)
    ensures
        exists|k: nat| k <= taken.len() && !taken.contains(#[trigger] candidate_name(base, ext, k)),
{
    if forall|k: nat| k <= taken.len() ==> taken.contains(#[trigger] candidate_name(base, ext, k)) {
        let n = taken.len() as int;
        let f = |k: int| candidate_name(base, ext, k as nat);
        let x = set_int_range(0, n + 1);
        lemma_int_range(0, n + 1);
        assert forall|a: int, b: int| x.contains(a) && x.contains(b) && #[trigger] f(a) == #[trigger] f(b) implies a
            == b by {
            lemma_candidates_distinct(base, ext, a as nat, b as nat);
        }
        let y = x.map(f);
        lemma_map_size(x, y, f);
        assert forall|s: Seq<char>| y.contains(s) implies taken.to_set().contains(s) by {
            let a = choose|a: int| x.contains(a) && s == f(a);
            assert(taken.contains(candidate_name(base, ext, a as nat)));
        }
        taken.lemma_cardinality_of_set();
        lemma_len_subset(y, taken.to_set());
    }
}

/// Whether `names` holds `s`.
fn holds(names: &Vec<String>, s: &String) -> (b: bool)
    ensures
        b == texts(names@).contains(s@),
{
    let mut i: usize = 0;
    while i < names.len()
        invariant
            i <= names@.len(),
            forall|k: int| 0 <= k < i ==> names@[k]@ != s@,
        decreases names@.len() - i,
    {
        if names[i] == *s {
            assert(texts(names@)[i as int] == s@);
            return true;
        }
        i += 1;
    }
    assert forall|k: int| 0 <= k < texts(names@).len() implies texts(names@)[k] != s@ by {
        assert(texts(names@)[k] == names@[k]@);
    }
    false
}

/// `name` is the first candidate for `base` and `ext` that `taken` does
/// not hold.
pub open spec fn first_free(name: Seq<char>, base: Seq<char>, ext: Seq<char>, taken: Seq<Seq<char>>) -> bool {
    exists|k: nat|
        {
            &&& name == #[trigger] candidate_name(base, ext, k)
            &&& !taken.contains(name)
            &&& forall|j: nat| j < k ==> taken.contains(#[trigger] candidate_name(base, ext, j))
        }
}

/// The first candidate name that is not `taken`: existing files are never
/// overwritten, and names given earlier in the same export are not reused.
pub fn unique_file_name(base: &str, ext: &str, taken: &Vec<String>) -> (r: String)
    ensures
        first_free(r@, base@, ext@, texts(taken@)),
{
    proof {
        lemma_free_candidate(base@, ext@, texts(taken@));
    }
    let b = chars_of(base);
    let e = chars_of(ext);
    let n = taken.len();
    let mut k: usize = 0;
    loop
        invariant
            n == taken@.len(),
            b@ == base@,
            e@ == ext@,
            k <= taken@.len(),
            forall|j: nat| j < k ==> texts(taken@).contains(#[trigger] candidate_name(base@, ext@, j)),
            exists|m: nat| m <= taken@.len() && !texts(taken@).contains(#[trigger] candidate_name(base@, ext@, m)),
        decreases taken@.len() - k,
    {
        let mut v: Vec<char> = Vec::new();
        extend_chars(&mut v, b.as_slice());
        if k == 0 {
            extend_str(&mut v, ".");
        } else {
            extend_str(&mut v, " (");
            push_dec(&mut v, k as u64);
            extend_str(&mut v, ").");
        }
        extend_chars(&mut v, e.as_slice());
        let c = string_of(v.as_slice());
        assert(c@ =~= candidate_name(base@, ext@, k as nat));
        if !holds(taken, &c) {
            return c;
        }
        proof {
            if k == taken@.len() {
                let m = choose|m: nat| m <= taken@.len() && !texts(taken@).contains(#[trigger] candidate_name(base@, ext@, m));
                assert(m < k || m == k);
                assert(texts(taken@).contains(candidate_name(base@, ext@, m)));
            }
            assert(k < taken@.len());
        }
        k += 1;
    }
}


// ---------------------------------------------------------------------------
// Job construction.

/// Whether the album metadata leaves every text field empty.
pub open spec fn meta_is_empty(m: AlbumMetaView) -> bool {
    m.album.len() == 0 && m.album_artist.len() == 0 && m.artist.len() == 0 && m.date.len() == 0
        && m.genre.len() == 0 && m.comment.len() == 0
}

/// The values of a set of tags, in the order of `tags_of`.
pub open spec fn tag_values(t: TrackTags) -> (
    Seq<char>,
    Seq<char>,
    Seq<char>,
    Seq<char>,
    Seq<char>,
    Seq<char>,
    Seq<char>,
    (u32, u32, u32, u32),
) {
    (
        t.title@,
        t.artist@,
        t.album@,
        t.album_artist@,
        t.date@,
        t.genre@,
        t.comment@,
        (t.track, t.track_total, t.disc, t.disc_total),
    )
}

/// The tags a job carries: none when the metadata is empty, else the
/// track's resolved tags.
pub open spec fn tags_for(
    tags: Option<TrackTags>,
    m: AlbumMetaView,
    title: Seq<char>,
    stem: Seq<char>,
    number: u32,
    total: u32,
) -> bool {
    if meta_is_empty(m) {
        tags is None
    } else {
        tags matches Some(t) && tag_values(t) == tags_of(m, title, stem, number, total)
    }
}

fn job_tags(meta: &AlbumMeta, title: &str, source_stem: &str, number: u32, total: u32) -> (r: Option<TrackTags>)
    requires
        number >= 1,
        total >= 1,
        meta.disc_breaks@.len() < u32::MAX,
    ensures
        tags_for(r, meta@, title@, source_stem@, number, total),
{
    if is_empty_meta(meta) {
        None
    } else {
        Some(resolve_tags(meta, title, source_stem, number, total))
    }
}

/// `j` is the mixdown job of track `t`, writing `out_path` with the
/// given layer volumes.
pub open spec fn is_track_job(
    j: ExportJob,
    t: TrackInfo,
    m: AlbumMetaView,
    stem: Seq<char>,
    total: u32,
    out_path: Seq<char>,
    volumes: Seq<u32>,
    fmt: Option<(ExportFormat, u8, Option<u32>)>,
) -> bool {
    &&& j.number == t.number
    &&& j.title@ == t.title@
    &&& j.start_sample == t.start_sample
    &&& j.end_sample == t.end_sample
    &&& j.out_path@ == out_path
    &&& j.layer_volumes@ == volumes
    &&& j.track_chain@.len() == 0
    &&& tags_for(j.tags, m, t.title@, stem, t.number, total)
    &&& j.source_fmt == fmt
    &&& !j.silence_ok
    &&& j.isrc@ == t.isrc@
    &&& j.gap_before_sectors == spec_gap_sectors(t.gap_before_effective_ms)
}

/// The job exporting one track (mixdown) to `out_path`.
pub fn track_job(
    t: &TrackInfo,
    meta: &AlbumMeta,
    source_stem: &str,
    total: u32,
    out_path: String,
    layer_volumes: Vec<u32>,
    source_fmt: Option<(ExportFormat, u8, Option<u32>)>,
) -> (r: ExportJob)
    requires
        t.number >= 1,
        total >= 1,
        meta.disc_breaks@.len() < u32::MAX,
    ensures
        is_track_job(r, *t, meta@, source_stem@, total, out_path@, layer_volumes@, source_fmt),
{
    ExportJob {
        number: t.number,
        title: t.title.clone(),
        start_sample: t.start_sample,
        end_sample: t.end_sample,
        out_path,
        layer_volumes,
        track_chain: Vec::new(),
        tags: job_tags(meta, t.title.as_str(), source_stem, t.number, total),
        source_fmt,
        silence_ok: false,
        isrc: t.isrc.clone(),
        gap_before_sectors: gap_sectors(t.gap_before_effective_ms),
    }
}

/// Volume of layer `i` for a track (unity when the track lists none).
pub open spec fn volume_at(volumes: Seq<u32>, i: int) -> u32 {
    if 0 <= i < volumes.len() {
        volumes[i]
    } else {
        F32_ONE
    }
}

/// The volume of a stem: the layer's resolved volume when the mix applies
/// (`None`: fully muted, no stem), else unity.
pub open spec fn spec_stem_volume(volumes: Seq<u32>, li: int, apply_mix: bool) -> Option<u32> {
    if !apply_mix {
        Some(F32_ONE)
    } else if f32_not_positive(volume_at(volumes, li)) {
        None
    } else {
        Some(volume_at(volumes, li))
    }
}

pub fn stem_volume(volumes: &Vec<u32>, li: usize, apply_mix: bool) -> (r: Option<u32>)
    ensures
        r == spec_stem_volume(volumes@, li as int, apply_mix),
{
    if !apply_mix {
        return Some(F32_ONE);
    }
    let v = if li < volumes.len() { volumes[li] } else { F32_ONE };
    if v == 0 || (0x8000_0000 <= v && v <= 0xff80_0000) {
        None
    } else {
        Some(v)
    }
}

/// One-hot volumes: `volume` for layer `li`, silence for the others.
pub open spec fn one_hot(n: nat, li: int, volume: u32) -> Seq<u32> {
    Seq::new(n, |i: int| if i == li { volume } else { 0u32 })
}

/// `j` is the job exporting layer `li` of track `t` (a stem) to
/// `out_path`, numbered `seq_number`.
pub open spec fn is_stem_job(
    j: ExportJob,
    t: TrackInfo,
    m: AlbumMetaView,
    stem: Seq<char>,
    total: u32,
    seq_number: u32,
    layer_name: Seq<char>,
    li: int,
    n_layers: nat,
    volume: u32,
    out_path: Seq<char>,
    fmt: Option<(ExportFormat, u8, Option<u32>)>,
) -> bool {
    &&& j.number == seq_number
    &&& j.title@ == t.title@ + " \u{b7} "@ + layer_name
    &&& j.start_sample == t.start_sample
    &&& j.end_sample == t.end_sample
    &&& j.out_path@ == out_path
    &&& j.layer_volumes@ == one_hot(n_layers, li, volume)
    &&& j.track_chain@.len() == 0
    &&& tags_for(j.tags, m, t.title@, stem, t.number, total)
    &&& j.source_fmt == fmt
    &&& j.silence_ok
    &&& j.isrc@ == Seq::<char>::empty()
    &&& j.gap_before_sectors == 0
}

/// The job exporting one layer of one track (a stem) to `out_path`.
/// Stems are numbered in sequence across the whole export.
pub fn stem_job(
    t: &TrackInfo,
    meta: &AlbumMeta,
    source_stem: &str,
    total: u32,
    seq_number: u32,
    layer_name: &str,
    li: usize,
    n_layers: usize,
    volume: u32,
    out_path: String,
    source_fmt: Option<(ExportFormat, u8, Option<u32>)>,
) -> (r: ExportJob)
    requires
        li < n_layers,
        t.number >= 1,
        total >= 1,
        meta.disc_breaks@.len() < u32::MAX,
    ensures
        is_stem_job(r, *t, meta@, source_stem@, total, seq_number, layer_name@, li as int, n_layers as nat, volume, out_path@, source_fmt),
{
    let mut title: Vec<char> = chars_of(t.title.as_str());
    extend_str(&mut title, " \u{b7} ");
    extend_str(&mut title, layer_name);
    let mut volumes: Vec<u32> = Vec::new();
    let mut i: usize = 0;
    while i < n_layers
        invariant
            i <= n_layers,
            li < n_layers,
            volumes@ == one_hot(n_layers as nat, li as int, volume).take(i as int),
        decreases n_layers - i,
    {
        volumes.push(if i == li { volume } else { 0 });
        i += 1;
        assert(volumes@ =~= one_hot(n_layers as nat, li as int, volume).take(i as int));
    }
    assert(volumes@ =~= one_hot(n_layers as nat, li as int, volume));
    ExportJob {
        number: seq_number,
        title: string_of(title.as_slice()),
        start_sample: t.start_sample,
        end_sample: t.end_sample,
        out_path,
        layer_volumes: volumes,
        track_chain: Vec::new(),
        tags: job_tags(meta, t.title.as_str(), source_stem, t.number, total),
        source_fmt,
        silence_ok: true,
        isrc: String::new(),
        gap_before_sectors: 0,
    }
}

/// The layers (among the first `n`) a job hears: those whose volume for
/// the track is above zero, in order.
pub open spec fn audible_upto(volumes: Seq<u32>, n: nat) -> Seq<int>
    decreases n,
{
    if n == 0 {
        seq![]
    } else if f32_positive(volume_at(volumes, n - 1)) {
        audible_upto(volumes, (n - 1) as nat).push(n - 1)
    } else {
        audible_upto(volumes, (n - 1) as nat)
    }
}

pub fn audible_layers(volumes: &Vec<u32>, n_layers: usize) -> (r: Vec<usize>)
    ensures
        r@.map_values(|i: usize| i as int) == audible_upto(volumes@, n_layers as nat),
{
    let mut out: Vec<usize> = Vec::new();
    let mut i: usize = 0;
    while i < n_layers
        invariant
            i <= n_layers,
            out@.map_values(|k: usize| k as int) == audible_upto(volumes@, i as nat),
        decreases n_layers - i,
    {
        let v = if i < volumes.len() { volumes[i] } else { F32_ONE };
        if 1 <= v && v <= 0x7f80_0000 {
            out.push(i);
            assert(out@.map_values(|k: usize| k as int) =~= audible_upto(volumes@, i as nat).push(i as int));
        }
        i += 1;
    }
    out
}


// ---------------------------------------------------------------------------
// Red Book program layout.

/// Start of one track in a CD image.
#[derive(Debug)]
pub struct CdTrackStart {
    pub number: u32,
    pub title: String,
    /// Normalized ISRC ("" = none).
    pub isrc: String,
    /// First CD frame of the track's audio, after its pregap.
    pub start_frame: u64,
    /// Album gap before the track (its pregap), in frames.
    pub gap: u64,
}

/// The program of a CD image as it is laid out: samples written so far
/// (44.1 kHz frames of audio) and where each track starts.
#[derive(Debug)]
pub struct CdProgram {
    pub image_samples: u64,
    pub starts: Vec<CdTrackStart>,
}

/// A track start as plain values: (number, title, ISRC, start frame, gap).
pub open spec fn start_view(t: CdTrackStart) -> (u32, Seq<char>, Seq<char>, u64, u64) {
    (t.number, t.title@, t.isrc@, t.start_frame, t.gap)
}

/// Where the audio of track `i` ends, in frames: where the next track's
/// pregap begins, or the end of the program.
pub open spec fn audio_end(starts: Seq<CdTrackStart>, i: int, image_samples: u64) -> int {
    if i + 1 < starts.len() {
        starts[i + 1].start_frame - starts[i + 1].gap
    } else {
        (image_samples / CD_FRAME_SAMPLES) as int
    }
}

impl CdProgram {
    /// The image is a whole number of frames; every track's pregap and
    /// audio start lie inside it, in order, without overlap.
    pub open spec fn wf(&self) -> bool {
        &&& self.image_samples % CD_FRAME_SAMPLES == 0
        &&& forall|i: int|
            0 <= i < self.starts@.len() ==> {
                &&& #[trigger] self.starts@[i].gap <= self.starts@[i].start_frame
                &&& self.starts@[i].start_frame * CD_FRAME_SAMPLES <= self.image_samples
            }
        &&& forall|i: int, j: int|
            0 <= i < j < self.starts@.len() ==> #[trigger] self.starts@[i].start_frame
                <= #[trigger] self.starts@[j].start_frame - self.starts@[j].gap
    }

    pub open spec fn starts_view(&self) -> Seq<(u32, Seq<char>, Seq<char>, u64, u64)> {
        self.starts@.map_values(|t: CdTrackStart| start_view(t))
    }

    /// An empty image.
    pub fn new() -> (r: Self)
        ensures
            r.wf(),
            r.image_samples == 0,
            r.starts@.len() == 0,
    {
        CdProgram { image_samples: 0, starts: Vec::new() }
    }

    /// Opens the next track: its album gap is rendered as silence first
    /// (the returned number of samples), then the track's audio starts,
    /// on a frame boundary.
    pub fn begin_track(&mut self, job: &ExportJob) -> (gap_samples: u64)
        requires
            old(self).wf(),
            old(self).image_samples + job.gap_before_sectors * CD_FRAME_SAMPLES <= u64::MAX,
        ensures
            final(self).wf(),
            gap_samples == job.gap_before_sectors * CD_FRAME_SAMPLES,
            final(self).image_samples == old(self).image_samples + gap_samples,
            final(self).starts_view() == old(self).starts_view().push(
                (
                    job.number,
                    job.title@,
                    job.isrc@,
                    (final(self).image_samples / CD_FRAME_SAMPLES) as u64,
                    job.gap_before_sectors,
                ),
            ),
            final(self).starts@.last().start_frame == old(self).image_samples / CD_FRAME_SAMPLES
                + job.gap_before_sectors,
    {
        let gap_samples = job.gap_before_sectors * CD_FRAME_SAMPLES;
        let old_samples = self.image_samples;
        self.image_samples = self.image_samples + gap_samples;
        let start = self.image_samples / CD_FRAME_SAMPLES;
        proof {
            assert(start == old_samples / CD_FRAME_SAMPLES + job.gap_before_sectors) by (nonlinear_arith)
                requires
                    old_samples % 588 == 0,
                    start == (old_samples + job.gap_before_sectors * 588) / 588,
            ;
            assert(start * 588 == old_samples + job.gap_before_sectors * 588) by (nonlinear_arith)
                requires
                    old_samples % 588 == 0,
                    start == old_samples / 588 + job.gap_before_sectors,
            ;
            assert forall|i: int| 0 <= i < self.starts@.len() implies self.starts@[i].start_frame
                <= old_samples / CD_FRAME_SAMPLES by {
                let f = self.starts@[i].start_frame;
                assert(old(self).starts@[i].gap <= old(self).starts@[i].start_frame);
                assert(f <= old_samples / 588) by (nonlinear_arith)
                    requires
                        f * 588 <= old_samples,
                ;
            }
        }
        self.starts.push(
            CdTrackStart {
                number: job.number,
                title: job.title.clone(),
                isrc: job.isrc.clone(),
                start_frame: start,
                gap: job.gap_before_sectors,
            },
        );
        proof {
            assert(self.starts_view() =~= old(self).starts_view().push(
                (job.number, job.title@, job.isrc@, start, job.gap_before_sectors),
            ));
        }
        gap_samples
    }

    /// Closes the current track after `track_out` samples of audio: pads
    /// it with silence (the returned number of samples) to the next frame
    /// boundary.
    pub fn finish_track(&mut self, track_out: u64) -> (pad: u64)
        requires
            old(self).wf(),
            old(self).image_samples + track_out + CD_FRAME_SAMPLES <= u64::MAX,
        ensures
            final(self).wf(),
            pad as int == (588 - track_out as int % 588) % 588,
            pad < CD_FRAME_SAMPLES,
            (track_out as int + pad as int) % 588 == 0,
            final(self).image_samples == old(self).image_samples + track_out + pad,
            final(self).starts_view() == old(self).starts_view(),
    {
        let rem = track_out % CD_FRAME_SAMPLES;
        let pad = if rem != 0 { CD_FRAME_SAMPLES - rem } else { 0 };
        proof {
            assert((track_out + pad) % 588 == 0) by (nonlinear_arith)
                requires
                    rem == track_out % 588,
                    pad == if rem != 0 { 588 - rem } else { 0 },
            ;
            assert((self.image_samples + track_out + pad) % 588 == 0) by (nonlinear_arith)
                requires
                    self.image_samples % 588 == 0,
                    (track_out + pad) % 588 == 0,
            ;
        }
        self.image_samples = self.image_samples + track_out + pad;
        proof {
            assert forall|i: int| 0 <= i < self.starts@.len() implies {
                &&& #[trigger] self.starts@[i].gap <= self.starts@[i].start_frame
                &&& self.starts@[i].start_frame * CD_FRAME_SAMPLES <= self.image_samples
            } by {
                assert(old(self).starts@[i].gap <= old(self).starts@[i].start_frame);
            }
        }
        pad
    }

    /// The DDP track table: each track's audio runs from its start to
    /// where the next track's pregap begins (the pause belongs to the
    /// following title), the last one to the end of the program.
    pub fn ddp_tracks(&self) -> (r: Vec<Track>)
        requires
            self.wf(),
        ensures
            r@.len() == self.starts@.len(),
            forall|i: int|
                0 <= i < r@.len() ==> {
                    let s = #[trigger] self.starts@[i];
                    let t = r@[i];
                    &&& t.number == s.number
                    &&& t.title@ == s.title@
                    &&& t.start_sector == s.start_frame
                    &&& t.length_sectors == audio_end(self.starts@, i, self.image_samples) - s.start_frame
                    &&& t.pregap_sectors == s.gap
                    &&& (if s.isrc@.len() == 0 {
                        t.isrc is None
                    } else {
                        t.isrc matches Some(x) && x@ == s.isrc@
                    })
                },
            forall|i: int|
                0 <= i < r@.len() - 1 ==> #[trigger] r@[i].start_sector + r@[i].length_sectors
                    + r@[i + 1].pregap_sectors == r@[i + 1].start_sector,
            r@.len() > 0 ==> r@.last().start_sector + r@.last().length_sectors == self.image_samples
                / CD_FRAME_SAMPLES,
    {
        let n = self.starts.len();
        let program = self.image_samples / CD_FRAME_SAMPLES;
        let mut out: Vec<Track> = Vec::new();
        let mut i: usize = 0;
        while i < n
            invariant
                self.wf(),
                n == self.starts@.len(),
                program == self.image_samples / CD_FRAME_SAMPLES,
                i <= n,
                out@.len() == i,
                forall|k: int|
                    0 <= k < i ==> {
                        let s = #[trigger] self.starts@[k];
                        let t = out@[k];
                        &&& t.number == s.number
                        &&& t.title@ == s.title@
                        &&& t.start_sector == s.start_frame
                        &&& t.length_sectors == audio_end(self.starts@, k, self.image_samples) - s.start_frame
                        &&& t.pregap_sectors == s.gap
                        &&& (if s.isrc@.len() == 0 {
                            t.isrc is None
                        } else {
                            t.isrc matches Some(x) && x@ == s.isrc@
                        })
                    },
            decreases n - i,
        {
            let s = &self.starts[i];
            let end = if i + 1 < n {
                let next = &self.starts[i + 1];
                assert(self.starts@[i as int].start_frame <= self.starts@[i + 1].start_frame
                    - self.starts@[i + 1].gap);
                next.start_frame - next.gap
            } else {
                let f = s.start_frame;
                assert(f <= self.image_samples / 588) by (nonlinear_arith)
                    requires
                        f * 588 <= self.image_samples,
                ;
                program
            };
            let isrc = if s.isrc.as_str().is_empty() { None } else { Some(s.isrc.clone()) };
            out.push(
                Track {
                    number: s.number,
                    title: s.title.clone(),
                    start_sector: s.start_frame,
                    length_sectors: end - s.start_frame,
                    isrc,
                    pregap_sectors: s.gap,
                },
            );
            i += 1;
        }
        proof {
            assert forall|i: int| 0 <= i < out@.len() - 1 implies #[trigger] out@[i].start_sector
                + out@[i].length_sectors + out@[i + 1].pregap_sectors == out@[i + 1].start_sector by {
                let s = self.starts@[i];
                let s1 = self.starts@[i + 1];
                assert(s1.gap <= s1.start_frame);
            }
            if out@.len() > 0 {
                let s = self.starts@[out@.len() - 1];
            }
        }
        out
    }

    /// The sample range of track `i` in the image, shifted by `offset`:
    /// from its start to where its audio ends.
    pub fn segment(&self, i: usize, offset: u64) -> (r: (u64, u64))
        requires
            self.wf(),
            i < self.starts@.len(),
            offset + self.image_samples <= u64::MAX,
        ensures
            r.0 == offset + self.starts@[i as int].start_frame * CD_FRAME_SAMPLES,
            r.1 == offset + if i + 1 < self.starts@.len() {
                (self.starts@[i + 1].start_frame - self.starts@[i + 1].gap) * CD_FRAME_SAMPLES
            } else {
                self.image_samples as int
            },
            r.0 <= r.1,
    {
        let s = &self.starts[i];
        assert(self.starts@[i as int].gap <= self.starts@[i as int].start_frame);
        let start = offset + s.start_frame * CD_FRAME_SAMPLES;
        let n = self.starts.len();
        let end = if i + 1 < n {
            let next = &self.starts[i + 1];
            assert(s.start_frame <= next.start_frame - next.gap);
            let f = next.start_frame - next.gap;
            assert(f * 588 <= next.start_frame * 588) by (nonlinear_arith)
                requires
                    f <= next.start_frame,
            ;
            assert(s.start_frame * 588 <= f * 588) by (nonlinear_arith)
                requires
                    s.start_frame <= f,
            ;
            offset + f * CD_FRAME_SAMPLES
        } else {
            offset + self.image_samples
        };
        (start, end)
    }
}

/// Base name of a CD image: the sanitized album title, or "CD Image".
pub open spec fn spec_cd_base_name(album: Seq<char>) -> Seq<char> {
    if trim(album).len() == 0 {
        "CD Image"@
    } else {
        spec_sanitize(trim(album))
    }
}

pub fn cd_base_name(album: &str) -> (r: String)
    ensures
        r@ == spec_cd_base_name(album@),
{
    let a = chars_of(album);
    let t = trim_chars(a.as_slice());
    if t.len() == 0 {
        String::from_str("CD Image")
    } else {
        let s = sanitize_chars(t.as_slice());
        string_of(s.as_slice())
    }
}

/// The `k`-th choice of output names of a CD deliverable: the image, its
/// cue sheet and the DDP folder ("Album.wav", then "Album (1).wav"...).
pub open spec fn spec_cd_names(base: Seq<char>, k: nat) -> (Seq<char>, Seq<char>, Seq<char>) {
    if k == 0 {
        (base + ".wav"@, base + ".cue"@, base + " DDP"@)
    } else {
        let n = " ("@ + dec(k) + ")"@;
        (base + n + ".wav"@, base + n + ".cue"@, base + " DDP"@ + n)
    }
}

pub fn cd_names(base: &str, k: u64) -> (r: (String, String, String))
    ensures
        (r.0@, r.1@, r.2@) == spec_cd_names(base@, k as nat),
{
    let b = chars_of(base);
    let mut n: Vec<char> = Vec::new();
    if k > 0 {
        extend_str(&mut n, " (");
        push_dec(&mut n, k);
        extend_str(&mut n, ")");
        assert(n@ =~= " ("@ + dec(k as nat) + ")"@);
    }
    let mut wav = b.clone();
    extend_chars(&mut wav, n.as_slice());
    extend_str(&mut wav, ".wav");
    let mut cue = b.clone();
    extend_chars(&mut cue, n.as_slice());
    extend_str(&mut cue, ".cue");
    let mut ddp = b.clone();
    extend_str(&mut ddp, " DDP");
    extend_chars(&mut ddp, n.as_slice());
    proof {
        if k == 0 {
            assert(wav@ =~= base@ + ".wav"@);
            assert(cue@ =~= base@ + ".cue"@);
            assert(ddp@ =~= base@ + " DDP"@);
        }
    }
    (string_of(wav.as_slice()), string_of(cue.as_slice()), string_of(ddp.as_slice()))
}

/// The encoder's dither method for the CD image (always 16-bit).
pub open spec fn spec_cd_dither(mode: DitherMode) -> Seq<char> {
    match mode {
        DitherMode::Off => "0"@,
        DitherMode::Triangular => "triangular"@,
        DitherMode::Shibata => "shibata"@,
        _ => "triangular_hp"@,
    }
}

pub fn cd_dither(mode: DitherMode) -> (r: &'static str)
    ensures
        r@ == spec_cd_dither(mode),
{
    match mode {
        DitherMode::Off => "0",
        DitherMode::Triangular => "triangular",
        DitherMode::Shibata => "shibata",
        _ => "triangular_hp",
    }
}

/// The ASCII digits of a string.
pub fn digits_only(s: &str) -> (r: String)
    ensures
        r@ == ascii_digits(s@),
{
    let c = chars_of(s);
    let mut digits: Vec<char> = Vec::new();
    let mut i: usize = 0;
    while i < c.len()
        invariant
            i <= c@.len(),
            c@ == s@,
            digits@ == ascii_digits(c@.take(i as int)),
        decreases c@.len() - i,
    {
        proof {
            assert(c@.take(i + 1).drop_last() =~= c@.take(i as int));
            assert(c@.take(i + 1).last() == c@[i as int]);
        }
        if '0' <= c[i] && c[i] <= '9' {
            digits.push(c[i]);
        }
        i += 1;
    }
    assert(c@.take(c@.len() as int) =~= c@);
    string_of(digits.as_slice())
}

/// The catalog number of the album: the digits of its UPC/EAN, when
/// there are 12 or 13 of them.
pub open spec fn spec_catalog(ean: Seq<char>) -> Option<Seq<char>> {
    let d = ascii_digits(ean);
    if d.len() == 12 || d.len() == 13 {
        Some(d)
    } else {
        None
    }
}

pub fn catalog(ean: &str) -> (r: Option<String>)
    ensures
        match spec_catalog(ean@) {
            Some(d) => r matches Some(x) && x@ == d,
            None => r is None,
        },
{
    let d = digits_only(ean);
    let n = chars_of(d.as_str()).len();
    if n == 12 || n == 13 {
        Some(d)
    } else {
        None
    }
}

/// The album performer: the album artist, else the artist, trimmed.
pub open spec fn performer_of(m: AlbumMetaView) -> Seq<char> {
    if trim(m.album_artist).len() == 0 {
        trim(m.artist)
    } else {
        trim(m.album_artist)
    }
}

fn performer(meta: &AlbumMeta) -> (r: Vec<char>)
    ensures
        r@ == performer_of(meta@),
{
    let aa = chars_of(meta.album_artist.as_str());
    let t = trim_chars(aa.as_slice());
    if t.len() == 0 {
        let a = chars_of(meta.artist.as_str());
        trim_chars(a.as_slice())
    } else {
        t
    }
}

/// The disc handed to the DDP writer.
pub fn cd_disc(meta: &AlbumMeta, base_name: &str, program: &CdProgram) -> (r: Disc)
    requires
        program.wf(),
    ensures
        r.title@ == (if trim(meta@.album).len() == 0 {
            base_name@
        } else {
            trim(meta@.album)
        }),
        r.performer@ == performer_of(meta@),
        match spec_catalog(meta@.catalog_ean) {
            Some(d) => r.ean matches Some(x) && x@ == d,
            None => r.ean is None,
        },
        r.tracks@.len() == program.starts@.len(),
        forall|i: int|
            0 <= i < r.tracks@.len() ==> {
                let s = #[trigger] program.starts@[i];
                let t = r.tracks@[i];
                &&& t.number == s.number
                &&& t.title@ == s.title@
                &&& t.start_sector == s.start_frame
                &&& t.length_sectors == audio_end(program.starts@, i, program.image_samples) - s.start_frame
                &&& t.pregap_sectors == s.gap
            },
{
    let al = chars_of(meta.album.as_str());
    let t = trim_chars(al.as_slice());
    let title = if t.len() == 0 { String::from_str(base_name) } else { string_of(t.as_slice()) };
    let p = performer(meta);
    let tracks = program.ddp_tracks();
    Disc { title, performer: string_of(p.as_slice()), ean: catalog(meta.catalog_ean.as_str()), tracks }
}


// ---------------------------------------------------------------------------
// Cue sheet.

/// `s` with double quotes turned into single quotes (cue sheet strings
/// are double-quoted).
pub open spec fn quoted(s: Seq<char>) -> Seq<char> {
    s.map_values(|c: char| if c == '"' { '\'' } else { c })
}

fn push_quoted(out: &mut Vec<char>, s: &[char])
    ensures
        final(out)@ == old(out)@ + quoted(s@),
{
    let ghost start = out@;
    let mut i: usize = 0;
    while i < s.len()
        invariant
            i <= s@.len(),
            out@ == start + quoted(s@.take(i as int)),
        decreases s@.len() - i,
    {
        out.push(if s[i] == '"' { '\'' } else { s[i] });
        i += 1;
        assert(quoted(s@.take(i as int)) =~= quoted(s@.take(i - 1)).push(
            if s@[i - 1] == '"' { '\'' } else { s@[i - 1] },
        ));
    }
    assert(s@.take(s@.len() as int) =~= s@);
}

pub open spec fn track_lines(t: CdTrackStart) -> Seq<char> {
    "  TRACK "@ + dec_zero(t.number as nat, 2) + " AUDIO\r\n"@ + "    TITLE \""@ + quoted(t.title@) + "\"\r\n"@
}

pub open spec fn performer_line(indent: Seq<char>, performer: Seq<char>) -> Seq<char> {
    if performer.len() > 0 {
        indent + "PERFORMER \""@ + quoted(performer) + "\"\r\n"@
    } else {
        Seq::<char>::empty()
    }
}

pub open spec fn isrc_line(isrc: Seq<char>) -> Seq<char> {
    if isrc.len() > 0 {
        "    ISRC "@ + isrc + "\r\n"@
    } else {
        Seq::<char>::empty()
    }
}

pub open spec fn index_lines(t: CdTrackStart) -> Seq<char> {
    (if t.gap > 0 {
        "    INDEX 00 "@ + spec_cue_time((t.start_frame - t.gap) as nat) + "\r\n"@
    } else {
        Seq::<char>::empty()
    }) + "    INDEX 01 "@ + spec_cue_time(t.start_frame as nat) + "\r\n"@
}

/// The entry of one track in the cue sheet: its title and performer
/// (CD-Text), its ISRC, `INDEX 00` at the start of its pregap when it has
/// one, `INDEX 01` where its audio starts.
pub open spec fn cue_track(t: CdTrackStart, performer: Seq<char>) -> Seq<char> {
    track_lines(t) + performer_line("    "@, performer) + isrc_line(t.isrc@) + index_lines(t)
}

pub open spec fn cue_tracks(starts: Seq<CdTrackStart>, performer: Seq<char>, n: nat) -> Seq<char>
    decreases n,
{
    if n == 0 || n > starts.len() {
        seq![]
    } else {
        cue_tracks(starts, performer, (n - 1) as nat) + cue_track(starts[n - 1], performer)
    }
}

/// The cue sheet of a CD image (CRLF line ends): the catalog number when
/// the EAN looks valid, album performer and title, the image file, then
/// every track.
pub open spec fn spec_cue_sheet(m: AlbumMetaView, wav_name: Seq<char>, starts: Seq<CdTrackStart>) -> Seq<char> {
    let p = performer_of(m);
    (match spec_catalog(m.catalog_ean) {
        Some(d) => "CATALOG "@ + d + "\r\n"@,
        None => Seq::<char>::empty(),
    }) + performer_line(""@, p) + (if trim(m.album).len() > 0 {
        "TITLE \""@ + quoted(trim(m.album)) + "\"\r\n"@
    } else {
        Seq::<char>::empty()
    }) + "FILE \""@ + wav_name + "\" WAVE\r\n"@ + cue_tracks(starts, p, starts.len())
}

fn push_track_lines(out: &mut Vec<char>, t: &CdTrackStart)
    ensures
        final(out)@ == old(out)@ + track_lines(*t),
{
    let ghost start = out@;
    extend_str(out, "  TRACK ");
    push_dec_zero(out, t.number as u64, 2);
    extend_str(out, " AUDIO\r\n");
    extend_str(out, "    TITLE \"");
    let title = chars_of(t.title.as_str());
    push_quoted(out, title.as_slice());
    extend_str(out, "\"\r\n");
    assert(out@ =~= start + track_lines(*t));
}

fn push_performer_line(out: &mut Vec<char>, indent: &str, performer: &[char])
    ensures
        final(out)@ == old(out)@ + performer_line(indent@, performer@),
{
    let ghost start = out@;
    if performer.len() > 0 {
        extend_str(out, indent);
        extend_str(out, "PERFORMER \"");
        push_quoted(out, performer);
        extend_str(out, "\"\r\n");
        assert(out@ =~= start + performer_line(indent@, performer@));
    } else {
        assert(out@ =~= start + performer_line(indent@, performer@));
    }
}

fn push_isrc_line(out: &mut Vec<char>, isrc: &str)
    ensures
        final(out)@ == old(out)@ + isrc_line(isrc@),
{
    let ghost start = out@;
    if !isrc.is_empty() {
        extend_str(out, "    ISRC ");
        extend_str(out, isrc);
        extend_str(out, "\r\n");
    }
    assert(out@ =~= start + isrc_line(isrc@));
}

fn push_index_lines(out: &mut Vec<char>, t: &CdTrackStart)
    requires
        t.gap <= t.start_frame,
    ensures
        final(out)@ == old(out)@ + index_lines(*t),
{
    let ghost start = out@;
    if t.gap > 0 {
        extend_str(out, "    INDEX 00 ");
        let tm = cue_time(t.start_frame - t.gap);
        extend_str(out, tm.as_str());
        extend_str(out, "\r\n");
    }
    let ghost mid = out@;
    extend_str(out, "    INDEX 01 ");
    let tm = cue_time(t.start_frame);
    extend_str(out, tm.as_str());
    extend_str(out, "\r\n");
    assert(out@ =~= start + index_lines(*t));
}

fn push_cue_track(out: &mut Vec<char>, t: &CdTrackStart, performer: &[char])
    requires
        t.gap <= t.start_frame,
    ensures
        final(out)@ == old(out)@ + cue_track(*t, performer@),
{
    let ghost s0 = out@;
    push_track_lines(out, t);
    let ghost s1 = out@;
    push_performer_line(out, "    ", performer);
    let ghost s2 = out@;
    push_isrc_line(out, t.isrc.as_str());
    let ghost s3 = out@;
    push_index_lines(out, t);
    proof {
        let a = track_lines(*t);
        let b = performer_line("    "@, performer@);
        let c = isrc_line(t.isrc@);
        let d = index_lines(*t);
        crate::text::lemma_add_assoc(s0, a, b);
        crate::text::lemma_add_assoc(s0, a + b, c);
        crate::text::lemma_add_assoc(s0, a + b + c, d);
    }
}

impl CdProgram {
    /// The cue sheet of the image, naming `wav_name` as its file.
    pub fn cue_sheet(&self, meta: &AlbumMeta, wav_name: &str) -> (r: String)
        requires
            self.wf(),
        ensures
            r@ == spec_cue_sheet(meta@, wav_name@, self.starts@),
    {
        let p = performer(meta);
        let mut out: Vec<char> = Vec::new();
        match catalog(meta.catalog_ean.as_str()) {
            Some(d) => {
                extend_str(&mut out, "CATALOG ");
                extend_str(&mut out, d.as_str());
                extend_str(&mut out, "\r\n");
            },
            None => {},
        }
        let ghost a = out@;
        push_performer_line(&mut out, "", p.as_slice());
        let ghost b = out@;
        let al = chars_of(meta.album.as_str());
        let album = trim_chars(al.as_slice());
        if album.len() > 0 {
            extend_str(&mut out, "TITLE \"");
            push_quoted(&mut out, album.as_slice());
            extend_str(&mut out, "\"\r\n");
        }
        let ghost c = out@;
        extend_str(&mut out, "FILE \"");
        extend_str(&mut out, wav_name);
        extend_str(&mut out, "\" WAVE\r\n");
        let ghost head = out@;
        let mut i: usize = 0;
        while i < self.starts.len()
            invariant
                self.wf(),
                i <= self.starts@.len(),
                p@ == performer_of(meta@),
                out@ == head + cue_tracks(self.starts@, p@, i as nat),
            decreases self.starts@.len() - i,
        {
            assert(self.starts@[i as int].gap <= self.starts@[i as int].start_frame);
            push_cue_track(&mut out, &self.starts[i], p.as_slice());
            i += 1;
            assert(out@ =~= head + cue_tracks(self.starts@, p@, i as nat));
        }
        proof {
            let e = Seq::<char>::empty();
            let ce = match spec_catalog(meta@.catalog_ean) {
                Some(d) => "CATALOG "@ + d + "\r\n"@,
                None => e,
            };
            let pe = performer_line(""@, p@);
            let te = if trim(meta@.album).len() > 0 {
                "TITLE \""@ + quoted(trim(meta@.album)) + "\"\r\n"@
            } else {
                e
            };
            assert(a =~= ce);
            assert(b =~= a + pe);
            assert(c =~= b + te);
            assert(out@ =~= spec_cue_sheet(meta@, wav_name@, self.starts@));
        }
        string_of(out.as_slice())
    }
}


// ---------------------------------------------------------------------------
// Encoder command of a mixdown or stem (no plugin chain).

/// A layer heard in a job's window, with the parts (file segments and
/// gaps) covering that window.
#[derive(Debug)]
pub struct ActiveLayer {
    pub layer: usize,
    pub parts: Vec<TimelinePart>,
}

pub open spec fn has_file(parts: Seq<TimelinePart>) -> bool {
    exists|k: int| 0 <= k < parts.len() && #[trigger] parts[k] is File
}

/// The layers (among the first `n`) that take part in a job's mix: heard
/// (volume above zero) and with at least one file part in the window.
pub open spec fn active_upto(layers: Seq<LayerMix>, volumes: Seq<u32>, start: u64, end: u64, n: nat) -> Seq<
    (int, Seq<TimelinePart>),
>
    decreases n,
{
    if n == 0 || n > layers.len() {
        seq![]
    } else {
        let prev = active_upto(layers, volumes, start, end, (n - 1) as nat);
        let i = n - 1;
        let parts = parts_from(layers[i].clips@, 0, start as nat, end as nat);
        if f32_positive(volume_at(volumes, i)) && has_file(parts) {
            prev.push((i, parts))
        } else {
            prev
        }
    }
}

pub open spec fn active_view(a: Seq<ActiveLayer>) -> Seq<(int, Seq<TimelinePart>)> {
    a.map_values(|x: ActiveLayer| (x.layer as int, x.parts@))
}

/// Every layer's clip ends are representable.
pub open spec fn layers_fit(layers: Seq<LayerMix>) -> bool {
    forall|i: int| 0 <= i < layers.len() ==> clips_fit(#[trigger] layers[i].clips@)
}

fn any_file(parts: &Vec<TimelinePart>) -> (b: bool)
    ensures
        b == has_file(parts@),
{
    let mut i: usize = 0;
    while i < parts.len()
        invariant
            i <= parts@.len(),
            forall|k: int| 0 <= k < i ==> !(#[trigger] parts@[k] is File),
        decreases parts@.len() - i,
    {
        if matches!(parts[i], TimelinePart::File { .. }) {
            return true;
        }
        i += 1;
    }
    false
}

/// The layers of a job's mix, each with its parts over the job's window.
pub fn active_layers(layers: &Vec<LayerMix>, job: &ExportJob) -> (r: Vec<ActiveLayer>)
    requires
        layers_fit(layers@),
    ensures
        active_view(r@) == active_upto(layers@, job.layer_volumes@, job.start_sample, job.end_sample, layers@.len()),
{
    let mut out: Vec<ActiveLayer> = Vec::new();
    let mut i: usize = 0;
    while i < layers.len()
        invariant
            i <= layers@.len(),
            layers_fit(layers@),
            active_view(out@) == active_upto(layers@, job.layer_volumes@, job.start_sample, job.end_sample, i as nat),
        decreases layers@.len() - i,
    {
        let v = if i < job.layer_volumes.len() { job.layer_volumes[i] } else { F32_ONE };
        if 1 <= v && v <= 0x7f80_0000 {
            assert(clips_fit(layers@[i as int].clips@));
            let parts = layer_parts(layers[i].clips.as_slice(), job.start_sample, job.end_sample);
            if any_file(&parts) {
                out.push(ActiveLayer { layer: i, parts });
                assert(active_view(out@) =~= active_upto(
                    layers@,
                    job.layer_volumes@,
                    job.start_sample,
                    job.end_sample,
                    i as nat,
                ).push((i as int, parts@)));
            }
        }
        i += 1;
    }
    out
}

/// Number of file parts.
pub open spec fn files_in(parts: Seq<TimelinePart>) -> nat
    decreases parts.len(),
{
    if parts.len() == 0 {
        0
    } else {
        files_in(parts.drop_last()) + if parts.last() is File {
            1nat
        } else {
            0nat
        }
    }
}

/// Number of file parts of the first `n` active layers: the encoder input
/// index of the next layer's first file.
pub open spec fn files_before(act: Seq<(int, Seq<TimelinePart>)>, n: int) -> nat
    decreases n,
{
    if n <= 0 || n > act.len() {
        0
    } else {
        files_before(act, n - 1) + files_in(act[n - 1].1)
    }
}

/// `-i <file>` for every file part, in order.
pub open spec fn part_inputs(clips: Seq<ClipInfo>, parts: Seq<TimelinePart>) -> Seq<Seq<char>>
    decreases parts.len(),
{
    if parts.len() == 0 {
        seq![]
    } else {
        part_inputs(clips, parts.drop_last()) + match parts.last() {
            TimelinePart::File { clip, .. } => seq!["-i"@, clips[clip as int].path@],
            _ => Seq::<Seq<char>>::empty(),
        }
    }
}

pub open spec fn input_args(layers: Seq<LayerMix>, act: Seq<(int, Seq<TimelinePart>)>, n: int) -> Seq<Seq<char>>
    decreases n,
{
    if n <= 0 || n > act.len() {
        seq![]
    } else {
        input_args(layers, act, n - 1) + part_inputs(layers[act[n - 1].0].clips@, act[n - 1].1)
    }
}

/// Part `k` of active layer `li` in the filter graph.
pub open spec fn part_label(li: nat, k: nat) -> Seq<char> {
    "t"@ + dec(li) + "x"@ + dec(k)
}

/// The filter producing one part: a sample-exact cut of its input file,
/// or sample-exact silence keeping the layer aligned across gaps.
pub open spec fn part_filter(part: TimelinePart, input: nat, rate: nat, layout: Seq<char>, label: Seq<char>) -> Seq<char> {
    match part {
        TimelinePart::File { start, end, .. } => "["@ + dec(input) + ":a:0]atrim=start_sample="@ + dec(start as nat)
            + ":end_sample="@ + dec(end as nat) + ",asetpts=PTS-STARTPTS["@ + label + "];"@,
        TimelinePart::Silence { samples } => "anullsrc=r="@ + dec(rate) + ":cl="@ + layout + ",atrim=end_sample="@
            + dec(samples as nat) + ",asetpts=PTS-STARTPTS["@ + label + "];"@,
    }
}

pub open spec fn parts_filter(parts: Seq<TimelinePart>, li: nat, base: nat, rate: nat, layout: Seq<char>, k: nat) -> Seq<char>
    decreases k,
{
    if k == 0 || k > parts.len() {
        seq![]
    } else {
        parts_filter(parts, li, base, rate, layout, (k - 1) as nat) + part_filter(
            parts[k - 1],
            base + files_in(parts.take(k - 1)),
            rate,
            layout,
            part_label(li, (k - 1) as nat),
        )
    }
}

pub open spec fn bracketed_parts(li: nat, k: nat) -> Seq<char>
    decreases k,
{
    if k == 0 {
        seq![]
    } else {
        bracketed_parts(li, (k - 1) as nat) + "["@ + part_label(li, (k - 1) as nat) + "]"@
    }
}

/// The concatenation of a layer's parts, when it has several.
pub open spec fn concat_filter(li: nat, n: nat) -> Seq<char> {
    if n > 1 {
        bracketed_parts(li, n) + "concat=n="@ + dec(n) + ":v=0:a=1["@ + "c"@ + dec(li) + "];"@
    } else {
        Seq::<char>::empty()
    }
}

/// The end of a layer's chain: float samples at the session layout,
/// scaled by the layer's volume (`vol`, the volume's text).
pub open spec fn volume_filter(li: nat, n: nat, vol: Seq<char>, layout: Seq<char>) -> Seq<char> {
    "["@ + (if n > 1 {
        "c"@ + dec(li)
    } else {
        part_label(li, 0)
    }) + "]aformat=sample_fmts=fltp:channel_layouts="@ + layout + ",volume="@ + vol + "["@ + "l"@ + dec(li) + "];"@
}

/// The chain of active layer `li`: its parts, concatenated when there are
/// several, then its volume.
pub open spec fn layer_filter(
    li: nat,
    parts: Seq<TimelinePart>,
    base: nat,
    vol: Seq<char>,
    rate: nat,
    layout: Seq<char>,
) -> Seq<char> {
    parts_filter(parts, li, base, rate, layout, parts.len()) + concat_filter(li, parts.len()) + volume_filter(
        li,
        parts.len(),
        vol,
        layout,
    )
}

pub open spec fn layers_filter(
    act: Seq<(int, Seq<TimelinePart>)>,
    vols: Seq<Seq<char>>,
    rate: nat,
    layout: Seq<char>,
    n: int,
) -> Seq<char>
    decreases n,
{
    if n <= 0 || n > act.len() {
        seq![]
    } else {
        layers_filter(act, vols, rate, layout, n - 1) + layer_filter(
            (n - 1) as nat,
            act[n - 1].1,
            files_before(act, n - 1),
            vols[act[n - 1].0],
            rate,
            layout,
        )
    }
}

pub open spec fn bracketed_layers(k: nat) -> Seq<char>
    decreases k,
{
    if k == 0 {
        seq![]
    } else {
        bracketed_layers((k - 1) as nat) + "["@ + "l"@ + dec((k - 1) as nat) + "]"@
    }
}

/// The whole mixing graph and the label of its output: every layer, the
/// plain weighted sum when there are several (`normalize=0`), then the
/// output conditioning when there is one.
pub open spec fn mix_graph(
    act: Seq<(int, Seq<TimelinePart>)>,
    vols: Seq<Seq<char>>,
    rate: nat,
    layout: Seq<char>,
    rf: Option<Seq<char>>,
) -> (Seq<char>, Seq<char>) {
    let n = act.len();
    let body = layers_filter(act, vols, rate, layout, n as int);
    let mixed = if n > 1 {
        body + bracketed_layers(n) + "amix=inputs="@ + dec(n) + ":normalize=0[mix];"@
    } else {
        body
    };
    let label = if n > 1 {
        "mix"@
    } else {
        "l"@ + dec(0)
    };
    match rf {
        Some(f) => ((mixed + "["@ + label + "]"@ + f + "[cond];"@).drop_last(), "cond"@),
        None => (mixed.drop_last(), label),
    }
}

/// The layout name of the session's channel count.
pub open spec fn layout_of(channels: u16) -> Seq<char> {
    if channels >= 2 {
        "stereo"@
    } else {
        "mono"@
    }
}

/// The arguments of the encoder after its inputs, by case: a silent
/// window (full length, so stems stay aligned); a single file part at
/// unity volume (a plain cut); or the mixing graph.
pub open spec fn graph_args(
    act: Seq<(int, Seq<TimelinePart>)>,
    volumes: Seq<u32>,
    vols: Seq<Seq<char>>,
    rate: nat,
    layout: Seq<char>,
    window: nat,
    rf: Option<Seq<char>>,
) -> Seq<Seq<char>> {
    if act.len() == 0 {
        let head = "anullsrc=r="@ + dec(rate) + ":cl="@ + layout + ",atrim=end_sample="@ + dec(window)
            + ",asetpts=PTS-STARTPTS[s0]"@;
        match rf {
            Some(f) => seq!["-filter_complex"@, head + ";[s0]"@ + f + "[cond]"@, "-map"@, "[cond]"@],
            None => seq!["-filter_complex"@, head, "-map"@, "[s0]"@],
        }
    } else if act.len() == 1 && act[0].1.len() == 1 && act[0].1[0] is File && f32_unity(
        volume_at(volumes, act[0].0),
    ) {
        let af = "atrim=start_sample="@ + dec(act[0].1[0]->start as nat) + ":end_sample="@ + dec(
            act[0].1[0]->end as nat,
        ) + ",asetpts=PTS-STARTPTS"@;
        seq![
            "-map"@,
            "0:a:0"@,
            "-af"@,
            match rf {
                Some(f) => af + ","@ + f,
                None => af,
            },
        ]
    } else {
        let (g, label) = mix_graph(act, vols, rate, layout, rf);
        seq!["-filter_complex"@, g, "-map"@, "["@ + label + "]"@]
    }
}

/// The whole encoder command line (after the program name) of a job
/// rendered by the encoder alone.
pub open spec fn spec_mix_args(
    layers: Seq<LayerMix>,
    act: Seq<(int, Seq<TimelinePart>)>,
    job: ExportJob,
    cfg: ExportConfig,
    channels: u16,
    rate: u32,
    vols: Seq<Seq<char>>,
) -> Seq<Seq<char>> {
    seq!["-hide_banner"@, "-nostdin"@, "-v"@, "error"@, "-progress"@, "pipe:1"@] + input_args(
        layers,
        act,
        act.len() as int,
    ) + graph_args(
        act,
        job.layer_volumes@,
        vols,
        rate as nat,
        layout_of(channels),
        if job.end_sample >= job.start_sample {
            (job.end_sample - job.start_sample) as nat
        } else {
            0
        },
        spec_resample_filter(cfg.format, cfg.bit_depth, cfg.target_sample_rate, cfg.dither, rate),
    ) + spec_codec_args(cfg.format, cfg.bit_depth, cfg.bitrate_kbps) + seq![job.out_path@]
}

/// What the encoder reports when a window holds nothing to hear.
pub const NOTHING_AUDIBLE: &'static str = "the track region covers no audible audio (are all layers muted?)";


/// File parts name clips of their layer.
proof fn lemma_parts_from_clips(clips: Seq<ClipInfo>, i: int, cursor: nat, end: nat)
    requires
        0 <= i,
    ensures
        forall|k: int|
            0 <= k < parts_from(clips, i, cursor, end).len() && #[trigger] parts_from(clips, i, cursor, end)[k] is File
                ==> parts_from(clips, i, cursor, end)[k]->clip < clips.len(),
    decreases clips.len() - i,
{
    if i < clips.len() {
        let c = clips[i];
        let cs = c.start_sample as nat;
        let ce = clip_end(c);
        if ce <= cursor {
            lemma_parts_from_clips(clips, i + 1, cursor, end);
        } else if cs >= end {
        } else {
            let from = if cs > cursor { cs } else { cursor };
            let e = if end < ce { end } else { ce };
            if from < e {
                lemma_parts_from_clips(clips, i + 1, e, end);
            } else {
                lemma_parts_from_clips(clips, i + 1, from, end);
            }
        }
    }
}

/// Every active layer is a layer, and its file parts name its clips.
pub open spec fn active_ok(layers: Seq<LayerMix>, act: Seq<(int, Seq<TimelinePart>)>) -> bool {
    forall|j: int|
        0 <= j < act.len() ==> {
            &&& 0 <= #[trigger] act[j].0 < layers.len()
            &&& forall|k: int|
                0 <= k < act[j].1.len() && #[trigger] act[j].1[k] is File ==> act[j].1[k]->clip
                    < layers[act[j].0].clips@.len()
        }
}

proof fn lemma_active_ok(layers: Seq<LayerMix>, volumes: Seq<u32>, start: u64, end: u64, n: nat)
    ensures
        active_ok(layers, active_upto(layers, volumes, start, end, n)),
    decreases n,
{
    if n > 0 && n <= layers.len() {
        lemma_active_ok(layers, volumes, start, end, (n - 1) as nat);
        lemma_parts_from_clips(layers[n - 1].clips@, 0, start as nat, end as nat);
    }
}

proof fn lemma_files_in_take(parts: Seq<TimelinePart>, k: int)
    requires
        0 <= k < parts.len(),
    ensures
        files_in(parts.take(k + 1)) == files_in(parts.take(k)) + if parts[k] is File {
            1nat
        } else {
            0nat
        },
{
    assert(parts.take(k + 1).drop_last() =~= parts.take(k));
}

proof fn lemma_files_in_bound(parts: Seq<TimelinePart>, k: int)
    requires
        0 <= k <= parts.len(),
    ensures
        files_in(parts.take(k)) <= files_in(parts),
    decreases parts.len() - k,
{
    if k < parts.len() {
        lemma_files_in_take(parts, k);
        lemma_files_in_bound(parts, k + 1);
    } else {
        assert(parts.take(k) =~= parts);
    }
}

proof fn lemma_files_before_mono(act: Seq<(int, Seq<TimelinePart>)>, j: int, n: int)
    requires
        0 <= j <= n <= act.len(),
    ensures
        files_before(act, j) <= files_before(act, n),
    decreases n - j,
{
    if j < n {
        lemma_files_before_mono(act, j, n - 1);
    }
}

fn push_part_inputs(args: &mut Vec<String>, clips: &Vec<ClipInfo>, parts: &Vec<TimelinePart>)
    requires
        forall|k: int| 0 <= k < parts@.len() && #[trigger] parts@[k] is File ==> parts@[k]->clip < clips@.len(),
    ensures
        texts(final(args)@) == texts(old(args)@) + part_inputs(clips@, parts@),
        part_inputs(clips@, parts@).len() == 2 * files_in(parts@),
{
    let ghost start = texts(args@);
    let mut k: usize = 0;
    while k < parts.len()
        invariant
            k <= parts@.len(),
            forall|j: int| 0 <= j < parts@.len() && #[trigger] parts@[j] is File ==> parts@[j]->clip < clips@.len(),
            texts(args@) == start + part_inputs(clips@, parts@.take(k as int)),
            part_inputs(clips@, parts@.take(k as int)).len() == 2 * files_in(parts@.take(k as int)),
        decreases parts@.len() - k,
    {
        proof {
            assert(parts@.take(k + 1).drop_last() =~= parts@.take(k as int));
            assert(parts@.take(k + 1).last() == parts@[k as int]);
        }
        match parts[k] {
            TimelinePart::File { clip, .. } => {
                let ghost before = args@;
                args.push(text("-i"));
                args.push(clips[clip].path.clone());
                assert(part_inputs(clips@, parts@.take(k + 1)) == part_inputs(clips@, parts@.take(k as int))
                    + seq!["-i"@, clips@[clip as int].path@]);
                assert(texts(args@) =~= texts(before) + seq!["-i"@, clips@[clip as int].path@]);
                assert(texts(args@) =~= start + part_inputs(clips@, parts@.take(k + 1)));
            },
            _ => {
                assert(texts(args@) =~= start + part_inputs(clips@, parts@.take(k + 1)));
            },
        }
        k += 1;
    }
    assert(parts@.take(parts@.len() as int) =~= parts@);
}

fn push_input_args(args: &mut Vec<String>, layers: &Vec<LayerMix>, active: &Vec<ActiveLayer>)
    requires
        active_ok(layers@, active_view(active@)),
    ensures
        texts(final(args)@) == texts(old(args)@) + input_args(layers@, active_view(active@), active@.len() as int),
        input_args(layers@, active_view(active@), active@.len() as int).len() == 2 * files_before(
            active_view(active@),
            active@.len() as int,
        ),
{
    let ghost act = active_view(active@);
    let ghost start = texts(args@);
    let mut j: usize = 0;
    while j < active.len()
        invariant
            j <= active@.len(),
            act == active_view(active@),
            active_ok(layers@, act),
            texts(args@) == start + input_args(layers@, act, j as int),
            input_args(layers@, act, j as int).len() == 2 * files_before(act, j as int),
        decreases active@.len() - j,
    {
        let a = &active[j];
        assert(act[j as int] == (a.layer as int, a.parts@));
        assert(0 <= act[j as int].0 < layers@.len());
        assert forall|k: int| 0 <= k < a.parts@.len() && #[trigger] a.parts@[k] is File implies a.parts@[k]->clip
            < layers@[a.layer as int].clips@.len() by {
            assert(act[j as int].1[k] == a.parts@[k]);
        }
        let ghost before = texts(args@);
        push_part_inputs(args, &layers[a.layer].clips, &a.parts);
        j += 1;
        proof {
            crate::text::lemma_add_assoc(start, input_args(layers@, act, j - 1), part_inputs(layers@[act[j - 1].0].clips@, act[j - 1].1));
        }
    }
}


fn push_part_label(out: &mut Vec<char>, li: usize, k: usize)
    ensures
        final(out)@ == old(out)@ + part_label(li as nat, k as nat),
{
    let ghost start = out@;
    extend_str(out, "t");
    push_dec(out, li as u64);
    extend_str(out, "x");
    push_dec(out, k as u64);
    assert(out@ =~= start + part_label(li as nat, k as nat));
}

fn push_part_filter(out: &mut Vec<char>, part: TimelinePart, input: usize, rate: u32, layout: &str, li: usize, k: usize)
    ensures
        final(out)@ == old(out)@ + part_filter(part, input as nat, rate as nat, layout@, part_label(li as nat, k as nat)),
{
    let ghost start = out@;
    match part {
        TimelinePart::File { start: s, end: e, .. } => {
            extend_str(out, "[");
            push_dec(out, input as u64);
            extend_str(out, ":a:0]atrim=start_sample=");
            push_dec(out, s);
            extend_str(out, ":end_sample=");
            push_dec(out, e);
            extend_str(out, ",asetpts=PTS-STARTPTS[");
        },
        TimelinePart::Silence { samples } => {
            extend_str(out, "anullsrc=r=");
            push_dec(out, rate as u64);
            extend_str(out, ":cl=");
            extend_str(out, layout);
            extend_str(out, ",atrim=end_sample=");
            push_dec(out, samples);
            extend_str(out, ",asetpts=PTS-STARTPTS[");
        },
    }
    let ghost mid = out@;
    push_part_label(out, li, k);
    extend_str(out, "];");
    assert(out@ =~= start + part_filter(part, input as nat, rate as nat, layout@, part_label(li as nat, k as nat)));
}

fn push_parts_filter(out: &mut Vec<char>, li: usize, parts: &Vec<TimelinePart>, base: usize, rate: u32, layout: &str)
    requires
        base + files_in(parts@) <= usize::MAX,
    ensures
        final(out)@ == old(out)@ + parts_filter(parts@, li as nat, base as nat, rate as nat, layout@, parts@.len()),
{
    let ghost start = out@;
    let n = parts.len();
    let mut input = base;
    let mut k: usize = 0;
    while k < n
        invariant
            n == parts@.len(),
            k <= n,
            base + files_in(parts@) <= usize::MAX,
            input == base + files_in(parts@.take(k as int)),
            out@ == start + parts_filter(parts@, li as nat, base as nat, rate as nat, layout@, k as nat),
        decreases n - k,
    {
        proof {
            lemma_files_in_take(parts@, k as int);
            lemma_files_in_bound(parts@, k + 1);
        }
        let part = parts[k];
        push_part_filter(out, part, input, rate, layout, li, k);
        if matches!(part, TimelinePart::File { .. }) {
            input = input + 1;
        }
        k += 1;
        assert(out@ =~= start + parts_filter(parts@, li as nat, base as nat, rate as nat, layout@, k as nat));
    }
}

fn push_concat_filter(out: &mut Vec<char>, li: usize, n: usize)
    ensures
        final(out)@ == old(out)@ + concat_filter(li as nat, n as nat),
{
    let ghost start = out@;
    if n > 1 {
        let mut j: usize = 0;
        while j < n
            invariant
                j <= n,
                out@ == start + bracketed_parts(li as nat, j as nat),
            decreases n - j,
        {
            extend_str(out, "[");
            push_part_label(out, li, j);
            extend_str(out, "]");
            j += 1;
            assert(out@ =~= start + bracketed_parts(li as nat, j as nat));
        }
        extend_str(out, "concat=n=");
        push_dec(out, n as u64);
        extend_str(out, ":v=0:a=1[");
        extend_str(out, "c");
        push_dec(out, li as u64);
        extend_str(out, "];");
    }
    assert(out@ =~= start + concat_filter(li as nat, n as nat));
}

fn push_volume_filter(out: &mut Vec<char>, li: usize, n: usize, vol: &str, layout: &str)
    ensures
        final(out)@ == old(out)@ + volume_filter(li as nat, n as nat, vol@, layout@),
{
    let ghost start = out@;
    extend_str(out, "[");
    let ghost open = out@;
    if n > 1 {
        extend_str(out, "c");
        push_dec(out, li as u64);
    } else {
        push_part_label(out, li, 0);
    }
    let ghost label = out@;
    extend_str(out, "]aformat=sample_fmts=fltp:channel_layouts=");
    extend_str(out, layout);
    extend_str(out, ",volume=");
    extend_str(out, vol);
    extend_str(out, "[");
    extend_str(out, "l");
    push_dec(out, li as u64);
    extend_str(out, "];");
    proof {
        let lb = if n > 1 {
            "c"@ + dec(li as nat)
        } else {
            part_label(li as nat, 0)
        };
        assert(label =~= open + lb);
        assert(out@ =~= start + volume_filter(li as nat, n as nat, vol@, layout@));
    }
}

fn push_layer_filter(
    out: &mut Vec<char>,
    li: usize,
    parts: &Vec<TimelinePart>,
    base: usize,
    vol: &str,
    rate: u32,
    layout: &str,
)
    requires
        base + files_in(parts@) <= usize::MAX,
    ensures
        final(out)@ == old(out)@ + layer_filter(li as nat, parts@, base as nat, vol@, rate as nat, layout@),
{
    let ghost start = out@;
    push_parts_filter(out, li, parts, base, rate, layout);
    push_concat_filter(out, li, parts.len());
    push_volume_filter(out, li, parts.len(), vol, layout);
    assert(out@ =~= start + layer_filter(li as nat, parts@, base as nat, vol@, rate as nat, layout@));
}


/// The text of an optional string.
pub open spec fn opt_text(o: Option<String>) -> Option<Seq<char>> {
    match o {
        Some(s) => Some(s@),
        None => None,
    }
}

fn count_files(parts: &Vec<TimelinePart>) -> (r: usize)
    requires
        files_in(parts@) <= usize::MAX,
    ensures
        r == files_in(parts@),
{
    let mut c: usize = 0;
    let mut k: usize = 0;
    while k < parts.len()
        invariant
            k <= parts@.len(),
            files_in(parts@) <= usize::MAX,
            c == files_in(parts@.take(k as int)),
        decreases parts@.len() - k,
    {
        proof {
            lemma_files_in_take(parts@, k as int);
            lemma_files_in_bound(parts@, k + 1);
        }
        if matches!(parts[k], TimelinePart::File { .. }) {
            c = c + 1;
        }
        k += 1;
    }
    assert(parts@.take(parts@.len() as int) =~= parts@);
    c
}

fn push_bracketed_layers(out: &mut Vec<char>, n: usize)
    ensures
        final(out)@ == old(out)@ + bracketed_layers(n as nat),
{
    let ghost start = out@;
    let mut j: usize = 0;
    while j < n
        invariant
            j <= n,
            out@ == start + bracketed_layers(j as nat),
        decreases n - j,
    {
        extend_str(out, "[");
        extend_str(out, "l");
        push_dec(out, j as u64);
        extend_str(out, "]");
        j += 1;
        assert(out@ =~= start + bracketed_layers(j as nat));
    }
}

/// The mixing graph's text and its output label.
fn mix_graph_text(active: &Vec<ActiveLayer>, vols: &Vec<String>, rate: u32, layout: &str, rf: &Option<String>) -> (r: (
    String,
    String,
))
    requires
        active@.len() >= 1,
        files_before(active_view(active@), active@.len() as int) <= usize::MAX,
        forall|j: int| 0 <= j < active@.len() ==> #[trigger] active@[j].layer < vols@.len(),
    ensures
        (r.0@, r.1@) == mix_graph(active_view(active@), texts(vols@), rate as nat, layout@, opt_text(*rf)),
{
    let ghost act = active_view(active@);
    let n = active.len();
    let mut out: Vec<char> = Vec::new();
    let mut base: usize = 0;
    let mut j: usize = 0;
    while j < n
        invariant
            n == active@.len(),
            act == active_view(active@),
            j <= n,
            files_before(act, n as int) <= usize::MAX,
            forall|i: int| 0 <= i < active@.len() ==> #[trigger] active@[i].layer < vols@.len(),
            base == files_before(act, j as int),
            out@ == layers_filter(act, texts(vols@), rate as nat, layout@, j as int),
        decreases n - j,
    {
        let a = &active[j];
        assert(act[j as int] == (a.layer as int, a.parts@));
        proof {
            lemma_files_before_mono(act, j + 1, n as int);
        }
        assert(a.layer < vols@.len());
        assert(texts(vols@)[a.layer as int] == vols@[a.layer as int]@);
        push_layer_filter(&mut out, j, &a.parts, base, vols[a.layer].as_str(), rate, layout);
        let c = count_files(&a.parts);
        base = base + c;
        j += 1;
    }
    let ghost body = out@;
    let mut label: Vec<char> = Vec::new();
    if n > 1 {
        push_bracketed_layers(&mut out, n);
        extend_str(&mut out, "amix=inputs=");
        push_dec(&mut out, n as u64);
        extend_str(&mut out, ":normalize=0[mix];");
        extend_str(&mut label, "mix");
    } else {
        extend_str(&mut label, "l");
        push_dec(&mut label, 0);
    }
    let ghost mixed = out@;
    proof {
        if n > 1 {
            assert(mixed =~= body + bracketed_layers(n as nat) + "amix=inputs="@ + dec(n as nat) + ":normalize=0[mix];"@);
            assert(label@ =~= "mix"@);
        } else {
            assert(label@ =~= "l"@ + dec(0));
        }
    }
    match rf {
        Some(f) => {
            extend_str(&mut out, "[");
            extend_chars(&mut out, label.as_slice());
            extend_str(&mut out, "]");
            extend_str(&mut out, f.as_str());
            extend_str(&mut out, "[cond];");
            assert(out@ =~= mixed + "["@ + label@ + "]"@ + f@ + "[cond];"@);
            label = chars_of("cond");
        },
        None => {},
    }
    out.pop();
    (string_of(out.as_slice()), string_of(label.as_slice()))
}


fn push_graph_args(
    args: &mut Vec<String>,
    active: &Vec<ActiveLayer>,
    volumes: &Vec<u32>,
    vols: &Vec<String>,
    rate: u32,
    layout: &str,
    window: u64,
    rf: &Option<String>,
)
    requires
        files_before(active_view(active@), active@.len() as int) <= usize::MAX,
        forall|j: int| 0 <= j < active@.len() ==> #[trigger] active@[j].layer < vols@.len(),
    ensures
        texts(final(args)@) == texts(old(args)@) + graph_args(
            active_view(active@),
            volumes@,
            texts(vols@),
            rate as nat,
            layout@,
            window as nat,
            opt_text(*rf),
        ),
{
    let ghost act = active_view(active@);
    let ghost start = texts(args@);
    let n = active.len();
    if n == 0 {
        let mut head: Vec<char> = Vec::new();
        extend_str(&mut head, "anullsrc=r=");
        push_dec(&mut head, rate as u64);
        extend_str(&mut head, ":cl=");
        extend_str(&mut head, layout);
        extend_str(&mut head, ",atrim=end_sample=");
        push_dec(&mut head, window);
        extend_str(&mut head, ",asetpts=PTS-STARTPTS[s0]");
        let ghost h = head@;
        args.push(text("-filter_complex"));
        match rf {
            Some(f) => {
                extend_str(&mut head, ";[s0]");
                extend_str(&mut head, f.as_str());
                extend_str(&mut head, "[cond]");
                assert(head@ =~= h + ";[s0]"@ + f@ + "[cond]"@);
                args.push(string_of(head.as_slice()));
                args.push(text("-map"));
                args.push(text("[cond]"));
            },
            None => {
                args.push(string_of(head.as_slice()));
                args.push(text("-map"));
                args.push(text("[s0]"));
            },
        }
        assert(texts(args@) =~= start + graph_args(act, volumes@, texts(vols@), rate as nat, layout@, window as nat, opt_text(*rf)));
        return;
    }
    let a0 = &active[0];
    assert(act[0] == (a0.layer as int, a0.parts@));
    let v = if a0.layer < volumes.len() { volumes[a0.layer] } else { F32_ONE };
    if n == 1 && a0.parts.len() == 1 && 0x3f7f_fff0 <= v && v <= 0x3f80_0008 {
        match a0.parts[0] {
            TimelinePart::File { start: s, end: e, .. } => {
                let mut af: Vec<char> = Vec::new();
                extend_str(&mut af, "atrim=start_sample=");
                push_dec(&mut af, s);
                extend_str(&mut af, ":end_sample=");
                push_dec(&mut af, e);
                extend_str(&mut af, ",asetpts=PTS-STARTPTS");
                let ghost plain = af@;
                match rf {
                    Some(f) => {
                        extend_str(&mut af, ",");
                        extend_str(&mut af, f.as_str());
                        assert(af@ =~= plain + ","@ + f@);
                    },
                    None => {},
                }
                args.push(text("-map"));
                args.push(text("0:a:0"));
                args.push(text("-af"));
                args.push(string_of(af.as_slice()));
                assert(texts(args@) =~= start + graph_args(act, volumes@, texts(vols@), rate as nat, layout@, window as nat, opt_text(*rf)));
                return;
            },
            _ => {},
        }
    }
    let (g, label) = mix_graph_text(active, vols, rate, layout, rf);
    let mut m: Vec<char> = Vec::new();
    extend_str(&mut m, "[");
    extend_str(&mut m, label.as_str());
    extend_str(&mut m, "]");
    args.push(text("-filter_complex"));
    args.push(g);
    args.push(text("-map"));
    args.push(string_of(m.as_slice()));
    assert(texts(args@) =~= start + graph_args(act, volumes@, texts(vols@), rate as nat, layout@, window as nat, opt_text(*rf)));
}

fn push_all(args: &mut Vec<String>, more: Vec<String>)
    ensures
        texts(final(args)@) == texts(old(args)@) + texts(more@),
{
    let ghost start = texts(args@);
    let mut i: usize = 0;
    while i < more.len()
        invariant
            i <= more@.len(),
            texts(args@) == start + texts(more@).take(i as int),
        decreases more@.len() - i,
    {
        let ghost before = texts(args@);
        args.push(more[i].clone());
        assert(texts(args@) =~= before.push(more@[i as int]@));
        assert(texts(more@).take(i + 1) =~= texts(more@).take(i as int).push(more@[i as int]@));
        i += 1;
        assert(texts(args@) =~= start + texts(more@).take(i as int));
    }
    assert(texts(more@).take(more@.len() as int) =~= texts(more@));
}

/// The encoder command line (after the program name) of a job that the
/// encoder renders alone: every audible layer's files cut sample-exactly
/// over the job's window, each at its volume (`volume_texts`: the text of
/// each layer's volume), summed, conditioned, encoded to the job's file.
/// A window with nothing to hear is an error unless the job accepts
/// silence (stems), which renders a silent file of the window's length.
pub fn mix_args(
    layers: &Vec<LayerMix>,
    job: &ExportJob,
    cfg: &ExportConfig,
    session_channels: u16,
    sample_rate: u32,
    volume_texts: &Vec<String>,
) -> (r: Result<Vec<String>, StillError>)
    requires
        layers_fit(layers@),
        volume_texts@.len() == layers@.len(),
    ensures
        ({
            let act = active_upto(layers@, job.layer_volumes@, job.start_sample, job.end_sample, layers@.len());
            match r {
                Err(e) => act.len() == 0 && !job.silence_ok && (e matches StillError::Ffmpeg(m) && m@
                    == NOTHING_AUDIBLE@),
                Ok(a) => !(act.len() == 0 && !job.silence_ok) && texts(a@) == spec_mix_args(
                    layers@,
                    act,
                    *job,
                    *cfg,
                    session_channels,
                    sample_rate,
                    texts(volume_texts@),
                ),
            }
        }),
{
    let active = active_layers(layers, job);
    let ghost act = active_view(active@);
    proof {
        lemma_active_ok(layers@, job.layer_volumes@, job.start_sample, job.end_sample, layers@.len());
    }
    if active.len() == 0 && !job.silence_ok {
        return Err(StillError::Ffmpeg(String::from_str(NOTHING_AUDIBLE)));
    }
    let mut args: Vec<String> = vec![
        text("-hide_banner"),
        text("-nostdin"),
        text("-v"),
        text("error"),
        text("-progress"),
        text("pipe:1"),
    ];
    let ghost head = texts(args@);
    push_input_args(&mut args, layers, &active);
    let count = args.len();
    assert(head.len() == 6);
    assert(texts(args@).len() == args@.len());
    assert(count == 6 + 2 * files_before(act, act.len() as int));
    let rf = resample_filter(cfg, sample_rate);
    let layout = if session_channels >= 2 { "stereo" } else { "mono" };
    let window = if job.end_sample >= job.start_sample { job.end_sample - job.start_sample } else { 0 };
    assert forall|j: int| 0 <= j < active@.len() implies #[trigger] active@[j].layer < volume_texts@.len() by {
        assert(act[j].0 == active@[j].layer);
    }
    let ghost with_inputs = texts(args@);
    push_graph_args(&mut args, &active, &job.layer_volumes, volume_texts, sample_rate, layout, window, &rf);
    let ghost with_graph = texts(args@);
    let codec = codec_args(cfg);
    push_all(&mut args, codec);
    let ghost with_codec = texts(args@);
    args.push(job.out_path.clone());
    proof {
        assert(head =~= seq!["-hide_banner"@, "-nostdin"@, "-v"@, "error"@, "-progress"@, "pipe:1"@]);
        assert(opt_text(rf) == spec_resample_filter(cfg.format, cfg.bit_depth, cfg.target_sample_rate, cfg.dither, sample_rate));
        assert(layout@ == layout_of(session_channels));
        assert(texts(args@) =~= with_codec.push(job.out_path@));
        assert(texts(args@) =~= spec_mix_args(layers@, act, *job, *cfg, session_channels, sample_rate, texts(volume_texts@)));
    }
    Ok(args)
}


// ---------------------------------------------------------------------------
// Encoder commands of rendered audio, and progress.

/// Channels rendered for export: the session's, at least one, at most two.
pub open spec fn spec_render_channels(session_channels: u16) -> nat {
    if session_channels <= 1 {
        1
    } else {
        2
    }
}

pub fn render_channels(session_channels: u16) -> (r: usize)
    ensures
        r == spec_render_channels(session_channels),
{
    if session_channels <= 1 { 1 } else { 2 }
}

/// The encoder command line (after the program name) of a job rendered
/// through plugin chains: raw `f32` samples on standard input, conditioned
/// and encoded to the job's file.
pub open spec fn spec_rendered_args(cfg: ExportConfig, rate: u32, channels: nat, out_path: Seq<char>) -> Seq<Seq<char>> {
    seq![
        "-hide_banner"@,
        "-v"@,
        "error"@,
        "-f"@,
        "f32le"@,
        "-ar"@,
        dec(rate as nat),
        "-ac"@,
        dec(channels),
        "-i"@,
        "pipe:0"@,
    ] + match spec_resample_filter(cfg.format, cfg.bit_depth, cfg.target_sample_rate, cfg.dither, rate) {
        Some(f) => seq!["-af"@, f],
        None => Seq::<Seq<char>>::empty(),
    } + spec_codec_args(cfg.format, cfg.bit_depth, cfg.bitrate_kbps) + seq![out_path]
}

fn dec_text(n: u64) -> (r: String)
    ensures
        r@ == dec(n as nat),
{
    let mut v: Vec<char> = Vec::new();
    push_dec(&mut v, n);
    assert(v@ =~= dec(n as nat));
    string_of(v.as_slice())
}

pub fn rendered_args(cfg: &ExportConfig, sample_rate: u32, channels: usize, out_path: &str) -> (r: Vec<String>)
    ensures
        texts(r@) == spec_rendered_args(*cfg, sample_rate, channels as nat, out_path@),
{
    let mut args: Vec<String> = vec![
        text("-hide_banner"),
        text("-v"),
        text("error"),
        text("-f"),
        text("f32le"),
        text("-ar"),
        dec_text(sample_rate as u64),
        text("-ac"),
        dec_text(channels as u64),
        text("-i"),
        text("pipe:0"),
    ];
    let ghost head = texts(args@);
    match resample_filter(cfg, sample_rate) {
        Some(f) => {
            args.push(text("-af"));
            args.push(f);
        },
        None => {},
    }
    let ghost with_rf = texts(args@);
    push_all(&mut args, codec_args(cfg));
    let ghost with_codec = texts(args@);
    args.push(text(out_path));
    proof {
        assert(texts(args@) =~= with_codec.push(out_path@));
        let rf = match spec_resample_filter(cfg.format, cfg.bit_depth, cfg.target_sample_rate, cfg.dither, sample_rate) {
            Some(f) => seq!["-af"@, f],
            None => Seq::<Seq<char>>::empty(),
        };
        assert(with_rf =~= head + rf);
        assert(texts(args@) =~= spec_rendered_args(*cfg, sample_rate, channels as nat, out_path@));
    }
    args
}

/// The encoder command line of a CD image: stereo `f32` samples at
/// 44.1 kHz on standard input, dithered to 16-bit PCM; a WAV file, or raw
/// little-endian samples on standard output for a DDP image.
pub open spec fn spec_cd_args(dither: DitherMode, ddp: bool, wav_path: Seq<char>) -> Seq<Seq<char>> {
    seq![
        "-hide_banner"@,
        "-v"@,
        "error"@,
        "-f"@,
        "f32le"@,
        "-ar"@,
        dec(CD_RATE as nat),
        "-ac"@,
        "2"@,
        "-i"@,
        "pipe:0"@,
        "-af"@,
        "aresample=osr="@ + dec(CD_RATE as nat) + ":out_sample_fmt=s16:dither_method="@ + spec_cd_dither(dither),
        "-c:a"@,
        "pcm_s16le"@,
    ] + if ddp {
        seq!["-f"@, "s16le"@, "pipe:1"@]
    } else {
        seq![wav_path]
    }
}

pub fn cd_args(dither: DitherMode, ddp: bool, wav_path: &str) -> (r: Vec<String>)
    ensures
        texts(r@) == spec_cd_args(dither, ddp, wav_path@),
{
    let mut af: Vec<char> = Vec::new();
    extend_str(&mut af, "aresample=osr=");
    push_dec(&mut af, CD_RATE as u64);
    extend_str(&mut af, ":out_sample_fmt=s16:dither_method=");
    extend_str(&mut af, cd_dither(dither));
    let mut args: Vec<String> = vec![
        text("-hide_banner"),
        text("-v"),
        text("error"),
        text("-f"),
        text("f32le"),
        text("-ar"),
        dec_text(CD_RATE as u64),
        text("-ac"),
        text("2"),
        text("-i"),
        text("pipe:0"),
        text("-af"),
        string_of(af.as_slice()),
        text("-c:a"),
        text("pcm_s16le"),
    ];
    let ghost head = texts(args@);
    if ddp {
        args.push(text("-f"));
        args.push(text("s16le"));
        args.push(text("pipe:1"));
    } else {
        args.push(text(wav_path));
    }
    assert(texts(args@) =~= spec_cd_args(dither, ddp, wav_path@));
    args
}

/// A non-negative `i64` in decimal (`i64::from_str`, kept when `>= 0`):
/// an optional sign and at least one digit; "-0" is zero.
pub open spec fn spec_non_negative(t: Seq<char>) -> Option<nat> {
    if t.len() > 0 && t[0] == '-' {
        let d = t.drop_first();
        if d.len() > 0 && all_digits(d) && digits_value(d) == 0 {
            Some(0)
        } else {
            None
        }
    } else {
        parse_unsigned(t, i64::MAX as nat)
    }
}

/// The encoded position reported by one line of the encoder's progress
/// output, in microseconds: `out_time_us=`, or `out_time_ms=` (also
/// microseconds), when non-negative.
pub open spec fn spec_progress_time(line: Seq<char>) -> Option<nat> {
    if line.len() >= 12 && (line.take(12) == "out_time_us="@ || line.take(12) == "out_time_ms="@) {
        spec_non_negative(trim(line.skip(12)))
    } else {
        None
    }
}

pub fn progress_time(line: &str) -> (r: Option<u64>)
    ensures
        match spec_progress_time(line@) {
            Some(v) => r == Some(v as u64),
            None => r is None,
        },
{
    let l = chars_of(line);
    proof {
        reveal_strlit("out_time_us=");
        reveal_strlit("out_time_ms=");
    }
    if l.len() < 12 {
        return None;
    }
    let us = chars_of("out_time_us=");
    let ms = chars_of("out_time_ms=");
    let mut head: Vec<char> = Vec::new();
    let mut rest: Vec<char> = Vec::new();
    let mut i: usize = 0;
    while i < l.len()
        invariant
            i <= l@.len(),
            l@.len() >= 12,
            head@ == l@.take(if i < 12 { i as int } else { 12 }),
            rest@ == if i <= 12 { Seq::<char>::empty() } else { l@.subrange(12, i as int) },
        decreases l@.len() - i,
    {
        if i < 12 {
            head.push(l[i]);
            assert(head@ =~= l@.take(i + 1));
        } else {
            rest.push(l[i]);
            assert(rest@ =~= l@.subrange(12, i + 1));
        }
        i += 1;
    }
    assert(rest@ =~= l@.skip(12));
    let prefixed = head_is(&head, &us) || head_is(&head, &ms);
    if !prefixed {
        return None;
    }
    let t = trim_chars(rest.as_slice());
    if t.len() > 0 && t[0] == '-' {
        if t.len() < 2 || t[1] == '+' {
            proof {
                if t@.len() >= 2 {
                    assert(!all_digits(t@.drop_first())) by {
                        assert(t@.drop_first()[0] == '+');
                    }
                }
            }
            return None;
        }
        let mut d: Vec<char> = Vec::new();
        let mut k: usize = 1;
        while k < t.len()
            invariant
                1 <= k <= t@.len(),
                d@ == t@.subrange(1, k as int),
            decreases t@.len() - k,
        {
            d.push(t[k]);
            k += 1;
            assert(d@ =~= t@.subrange(1, k as int));
        }
        assert(d@ =~= t@.drop_first());
        assert(unsigned_digits(d@) == d@);
        match parse_unsigned_chars(d.as_slice(), u64::MAX) {
            Some(v) => if v == 0 { Some(0) } else { None },
            None => None,
        }
    } else {
        match parse_unsigned_chars(t.as_slice(), 0x7fff_ffff_ffff_ffff) {
            Some(v) => Some(v),
            None => None,
        }
    }
}

fn head_is(a: &Vec<char>, b: &Vec<char>) -> (r: bool)
    ensures
        r == (a@ == b@),
{
    if a.len() != b.len() {
        return false;
    }
    let mut i: usize = 0;
    while i < a.len()
        invariant
            i <= a@.len() == b@.len(),
            forall|k: int| 0 <= k < i ==> a@[k] == b@[k],
        decreases a@.len() - i,
    {
        if a[i] != b[i] {
            return false;
        }
        i += 1;
    }
    assert(a@ =~= b@);
    true
}

// ---------------------------------------------------------------------------
// Running an export.

/// Whether a job goes through the in-process renderer: some plugin chain
/// (the master chain, the track's own, or a layer's) is not empty.
/// Without one, the encoder mixes the sources itself.
pub fn needs_render(
    chain: &Vec<MasterPluginSpec>,
    track_chain: &Vec<MasterPluginSpec>,
    lane_chains: &Vec<Vec<MasterPluginSpec>>,
) -> (r: bool)
    ensures
        r == (chain@.len() > 0 || track_chain@.len() > 0 || exists|k: int|
            0 <= k < lane_chains@.len() && (#[trigger] lane_chains@[k])@.len() > 0),
{
    if chain.len() > 0 || track_chain.len() > 0 {
        return true;
    }
    let mut k: usize = 0;
    while k < lane_chains.len()
        invariant
            k <= lane_chains@.len(),
            forall|j: int| 0 <= j < k ==> (#[trigger] lane_chains@[j])@.len() == 0,
        decreases lane_chains@.len() - k,
    {
        if lane_chains[k].len() > 0 {
            return true;
        }
        k += 1;
    }
    false
}

/// Job indices as sort keys.
pub open spec fn job_keys(done: Seq<usize>) -> Seq<u64> {
    done.map_values(|i: usize| i as u64)
}

/// Positions of finished entries in job order (`done[k]` is the job of
/// the `k`-th entry to finish), stable among entries of one job: the
/// report lists results in track order, whatever order the workers
/// finished in.
pub fn report_order(done: &Vec<usize>) -> (r: Vec<usize>)
    ensures
        as_ints(r@) == sorted_order(job_keys(done@), done@.len() as int),
        is_order(as_ints(r@), job_keys(done@), done@.len() as int),
{
    let mut keys: Vec<u64> = Vec::new();
    let mut i: usize = 0;
    while i < done.len()
        invariant
            i <= done@.len(),
            keys@ == job_keys(done@).take(i as int),
        decreases done@.len() - i,
    {
        keys.push(done[i] as u64);
        i += 1;
        proof {
            assert(keys@ =~= job_keys(done@).take(i as int));
        }
    }
    proof {
        assert(job_keys(done@).take(done@.len() as int) =~= job_keys(done@));
    }
    order_by_keys(&keys)
}

} // verus!
