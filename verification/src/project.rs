//! The project recipe: layers of source clips, track regions on the
//! source timeline, their editing operations with undo/redo, and the
//! derived track list.

use vstd::prelude::*;
use crate::metadata::{empty_meta, AlbumMeta};
use crate::peaks::copy_vec;
use crate::peaks::PeakPyramid;
use crate::plugins::{PluginFormat, format_of, spec_format_of};
use crate::timeline::{AudioInfo, AudioInfoView, ClipInfo, ScannedLayer, ScannedLayerView, clip_end};
use crate::error::StillError;
use crate::ddp::{isrc_chars, isrc_error, isrc_shape, normalize_isrc};
use crate::text::{chars_of, dec, push_dec, string_of, trim, trim_chars};
use crate::paths::{file_stem, path_piece, plain_path, spec_file_stem};

verus! {

/// The project file format version written by this library.
pub const PROJECT_VERSION: u32 = 7;

/// A track region may never be shorter than this.
pub const MIN_TRACK_MS: u64 = 200;

/// A span of source audio, in samples.
#[derive(Debug, Clone, Copy, PartialEq, Eq)]
pub struct RegionSpan {
    pub start: u64,
    pub end: u64,
}

/// One plugin of a chain, as persisted in the project.
#[derive(Debug)]
pub struct MasteringPluginCfg {
    pub id: u32,
    /// Component id ("aufx:xxxx:yyyy" or "vst3:<hex>").
    pub component: String,
    pub name: String,
    pub bypass: bool,
    /// Base64 of the plugin state.
    pub state_b64: Option<String>,
}

impl Clone for MasteringPluginCfg {
    fn clone(&self) -> (r: Self)
        ensures
            r == *self,
    {
        let state_b64 = match &self.state_b64 {
            Some(s) => Some(s.clone()),
            None => None,
        };
        MasteringPluginCfg {
            id: self.id,
            component: self.component.clone(),
            name: self.name.clone(),
            bypass: self.bypass,
            state_b64,
        }
    }
}

/// Copy of a plugin chain.
pub fn copy_chain(v: &Vec<MasteringPluginCfg>) -> (r: Vec<MasteringPluginCfg>)
    ensures
        r@ == v@,
{
    let r = v.clone();
    proof {
        assert(r@ =~= v@);
    }
    r
}

/// A track = a named region delimited by a start and an end marker.
/// Audio outside every region is ignored at export.
#[derive(Debug)]
pub struct Region {
    pub id: u32,
    pub start: u64,
    pub end: u64,
    /// None: default title derived from the track number.
    pub title: Option<String>,
    /// Per-track layer gain overrides: (layer id, bit pattern of the `f32`
    /// gain in dB). A layer absent from the list uses its session gain.
    pub gain_overrides: Vec<(u32, u32)>,
    /// Per-track layer mute overrides (layer id, muted).
    pub mute_overrides: Vec<(u32, bool)>,
    /// Per-track layer solo overrides (layer id, soloed).
    pub solo_overrides: Vec<(u32, bool)>,
    /// Insert chain of this track.
    pub inserts: Vec<MasteringPluginCfg>,
    /// Normalized 12-character ISRC of this track ("" = none).
    pub isrc: String,
}

/// A region as plain values.
pub struct RegionView {
    pub id: u32,
    pub start: u64,
    pub end: u64,
    pub title: Option<Seq<char>>,
    pub gain_overrides: Seq<(u32, u32)>,
    pub mute_overrides: Seq<(u32, bool)>,
    pub solo_overrides: Seq<(u32, bool)>,
    pub inserts: Seq<MasteringPluginCfg>,
    pub isrc: Seq<char>,
}

pub open spec fn opt_view(o: Option<String>) -> Option<Seq<char>> {
    match o {
        Some(s) => Some(s@),
        None => None,
    }
}

impl View for Region {
    type V = RegionView;

    open spec fn view(&self) -> RegionView {
        RegionView {
            id: self.id,
            start: self.start,
            end: self.end,
            title: opt_view(self.title),
            gain_overrides: self.gain_overrides@,
            mute_overrides: self.mute_overrides@,
            solo_overrides: self.solo_overrides@,
            inserts: self.inserts@,
            isrc: self.isrc@,
        }
    }
}

impl Clone for Region {
    fn clone(&self) -> (r: Self)
        ensures
            r@ == self@,
    {
        let title = match &self.title {
            Some(t) => Some(t.clone()),
            None => None,
        };
        Region {
            id: self.id,
            start: self.start,
            end: self.end,
            title,
            gain_overrides: copy_vec(&self.gain_overrides),
            mute_overrides: copy_vec(&self.mute_overrides),
            solo_overrides: copy_vec(&self.solo_overrides),
            inserts: copy_chain(&self.inserts),
            isrc: self.isrc.clone(),
        }
    }
}

impl Region {
    /// A fresh region with no overrides, inserts or ISRC.
    pub fn new(id: u32, start: u64, end: u64, title: Option<String>) -> (r: Region)
        ensures
            r@ == new_region(id, start, end, opt_view(title)),
    {
        Region {
            id,
            start,
            end,
            title,
            gain_overrides: Vec::new(),
            mute_overrides: Vec::new(),
            solo_overrides: Vec::new(),
            inserts: Vec::new(),
            isrc: String::new(),
        }
    }
}

/// The view of a fresh region.
pub open spec fn new_region(id: u32, start: u64, end: u64, title: Option<Seq<char>>) -> RegionView {
    RegionView {
        id,
        start,
        end,
        title,
        gain_overrides: seq![],
        mute_overrides: seq![],
        solo_overrides: seq![],
        inserts: seq![],
        isrc: seq![],
    }
}

/// Views of a list of regions.
pub open spec fn regions_view(rs: Seq<Region>) -> Seq<RegionView> {
    rs.map_values(|r: Region| r@)
}

/// Copy of a region list.
pub fn copy_regions(v: &Vec<Region>) -> (r: Vec<Region>)
    ensures
        regions_view(r@) == regions_view(v@),
{
    let r = v.clone();
    proof {
        assert(regions_view(r@) =~= regions_view(v@));
    }
    r
}

#[derive(Debug, Clone, Copy, PartialEq, Eq)]
pub enum ExportFormat {
    Wav,
    Flac,
    Mp3,
    Aac,
    /// Mirror the source file's format, bit depth and sample rate;
    /// resolved to a concrete format per job at plan time.
    Source,
}

impl ExportFormat {
    /// File extension of the format (`Source` never reaches a file name:
    /// it is resolved at plan time).
    pub fn extension(&self) -> (r: &'static str)
        ensures
            r@ == match *self {
                ExportFormat::Wav => "wav"@,
                ExportFormat::Flac => "flac"@,
                ExportFormat::Mp3 => "mp3"@,
                ExportFormat::Aac => "m4a"@,
                ExportFormat::Source => "wav"@,
            },
    {
        match self {
            ExportFormat::Wav => "wav",
            ExportFormat::Flac => "flac",
            ExportFormat::Mp3 => "mp3",
            ExportFormat::Aac => "m4a",
            ExportFormat::Source => "wav",
        }
    }

    pub fn is_lossy(&self) -> (r: bool)
        ensures
            r == (*self is Mp3 || *self is Aac),
    {
        match self {
            ExportFormat::Mp3 | ExportFormat::Aac => true,
            _ => false,
        }
    }
}

/// Dither applied when reducing bit depth on lossless output. `Auto`
/// picks triangular_hp whenever the output is 16-bit; `Off` truncates.
#[derive(Debug, Clone, Copy, PartialEq, Eq)]
pub enum DitherMode {
    Auto,
    Off,
    Triangular,
    TriangularHp,
    Shibata,
}

impl Default for DitherMode {
    fn default() -> (r: Self)
        ensures
            r == DitherMode::Auto,
    {
        DitherMode::Auto
    }
}

#[derive(Debug)]
pub struct ExportConfig {
    pub format: ExportFormat,
    /// Bitrate for lossy formats (kbps).
    pub bitrate_kbps: u32,
    /// Bit depth for WAV/FLAC output (16 or 24).
    pub bit_depth: u8,
    pub dest_dir: String,
    /// File naming template, e.g. `{n} - {title}`.
    pub template: String,
    /// Output sample rate; None = keep the session rate.
    pub target_sample_rate: Option<u32>,
    pub dither: DitherMode,
    /// Export a single Red Book image + cue sheet.
    pub cd_image: bool,
    /// Export a DDP 2.00 fileset + PQ sheet.
    pub ddp: bool,
    /// Multitrack export: one file per layer per track.
    pub stems: bool,
    /// Stem content: false = raw cut of the layer; true = layer mix
    /// settings applied.
    pub stems_apply_mix: bool,
}

impl Clone for ExportConfig {
    fn clone(&self) -> (r: Self)
        ensures
            r == *self,
    {
        ExportConfig {
            format: self.format,
            bitrate_kbps: self.bitrate_kbps,
            bit_depth: self.bit_depth,
            dest_dir: self.dest_dir.clone(),
            template: self.template.clone(),
            target_sample_rate: self.target_sample_rate,
            dither: self.dither,
            cd_image: self.cd_image,
            ddp: self.ddp,
            stems: self.stems,
            stems_apply_mix: self.stems_apply_mix,
        }
    }
}

impl Default for ExportConfig {
    fn default() -> (r: Self)
        ensures
            r.format == ExportFormat::Flac,
            r.bitrate_kbps == 320,
            r.bit_depth == 16,
            r.dest_dir@ == Seq::<char>::empty(),
            r.template@ == "{n} - {title}"@,
            r.target_sample_rate is None,
            r.dither == DitherMode::Auto,
            !r.cd_image,
            !r.ddp,
            !r.stems,
            !r.stems_apply_mix,
    {
        ExportConfig {
            format: ExportFormat::Flac,
            bitrate_kbps: 320,
            bit_depth: 16,
            dest_dir: String::new(),
            template: String::from_str("{n} - {title}"),
            target_sample_rate: None,
            dither: DitherMode::Auto,
            cd_image: false,
            ddp: false,
            stems: false,
            stems_apply_mix: false,
        }
    }
}

/// One source file of a layer, optionally pinned at an explicit timeline
/// position (take alignment). `start: None` = right after the previous
/// clip.
#[derive(Debug)]
pub struct SourceRef {
    pub path: String,
    pub start: Option<u64>,
}

impl Clone for SourceRef {
    fn clone(&self) -> (r: Self)
        ensures
            r == *self,
    {
        SourceRef { path: self.path.clone(), start: self.start }
    }
}

impl SourceRef {
    pub fn sequential(path: String) -> (r: Self)
        ensures
            r.path == path,
            r.start is None,
    {
        SourceRef { path, start: None }
    }
}

/// One time-synchronized layer of the session. All layers start at
/// t = 0; each holds its own source clips, a mix gain, mute and solo.
#[derive(Debug)]
pub struct Layer {
    pub id: u32,
    pub sources: Vec<SourceRef>,
    /// Bit pattern of the `f32` mix gain in dB.
    pub gain_db_bits: u32,
    pub muted: bool,
    /// When any layer is soloed, only soloed layers are audible.
    pub solo: bool,
    /// Collapsed to a thin strip in the layers view.
    pub collapsed: bool,
    /// Insert chain of this layer (pre-fader, always active).
    pub inserts: Vec<MasteringPluginCfg>,
    /// User-chosen display name; None = the first source's file name.
    pub custom_name: Option<String>,
}

/// A layer as plain values.
pub struct LayerData {
    pub id: u32,
    pub sources: Seq<SourceRef>,
    pub gain_db_bits: u32,
    pub muted: bool,
    pub solo: bool,
    pub collapsed: bool,
    pub inserts: Seq<MasteringPluginCfg>,
    pub custom_name: Option<Seq<char>>,
}

impl View for Layer {
    type V = LayerData;

    open spec fn view(&self) -> LayerData {
        LayerData {
            id: self.id,
            sources: self.sources@,
            gain_db_bits: self.gain_db_bits,
            muted: self.muted,
            solo: self.solo,
            collapsed: self.collapsed,
            inserts: self.inserts@,
            custom_name: opt_view(self.custom_name),
        }
    }
}

/// Copy of a source list.
pub fn copy_sources(v: &Vec<SourceRef>) -> (r: Vec<SourceRef>)
    ensures
        r@ == v@,
{
    let r = v.clone();
    proof {
        assert(r@ =~= v@);
    }
    r
}

impl Clone for Layer {
    fn clone(&self) -> (r: Self)
        ensures
            r@ == self@,
    {
        let custom_name = match &self.custom_name {
            Some(t) => Some(t.clone()),
            None => None,
        };
        Layer {
            id: self.id,
            sources: copy_sources(&self.sources),
            gain_db_bits: self.gain_db_bits,
            muted: self.muted,
            solo: self.solo,
            collapsed: self.collapsed,
            inserts: copy_chain(&self.inserts),
            custom_name,
        }
    }
}

/// Views of a list of layers.
pub open spec fn layers_view(ls: Seq<Layer>) -> Seq<LayerData> {
    ls.map_values(|l: Layer| l@)
}

/// Copy of a layer list.
pub fn copy_layers(v: &Vec<Layer>) -> (r: Vec<Layer>)
    ensures
        layers_view(r@) == layers_view(v@),
{
    let r = v.clone();
    proof {
        assert(layers_view(r@) =~= layers_view(v@));
    }
    r
}

/// The bit pattern of the `f32` value 0.0 (unity gain in dB).
pub const ZERO_DB_BITS: u32 = 0;

#[derive(Debug)]
pub struct Project {
    pub version: u32,
    /// Time-synchronized layers; layer 0 is the base timeline.
    pub layers: Vec<Layer>,
    pub regions: Vec<Region>,
    pub snap_to_zero: bool,
    pub export_config: ExportConfig,
    /// Album metadata written to exported files.
    pub album_meta: AlbumMeta,
    /// Master-bus chain: ordered plugins with their saved state.
    pub mastering_chain: Vec<MasteringPluginCfg>,
    pub next_plugin_id: u32,
    pub next_region_id: u32,
    pub next_layer_id: u32,
}

/// The layer built for source group `i` of a new project.
pub open spec fn fresh_layer(i: int, sources: Seq<String>) -> LayerData {
    LayerData {
        id: (i + 1) as u32,
        sources: Seq::new(sources.len(), |j: int| SourceRef { path: sources[j], start: None }),
        gain_db_bits: ZERO_DB_BITS,
        muted: false,
        solo: false,
        collapsed: false,
        inserts: seq![],
        custom_name: None,
    }
}

impl Clone for Project {
    fn clone(&self) -> (r: Self)
        ensures
            r.version == self.version,
            layers_view(r.layers@) == layers_view(self.layers@),
            regions_view(r.regions@) == regions_view(self.regions@),
            r.snap_to_zero == self.snap_to_zero,
            r.export_config == self.export_config,
            r.album_meta@ == self.album_meta@,
            r.mastering_chain@ == self.mastering_chain@,
            r.next_plugin_id == self.next_plugin_id,
            r.next_region_id == self.next_region_id,
            r.next_layer_id == self.next_layer_id,
    {
        Project {
            version: self.version,
            layers: copy_layers(&self.layers),
            regions: copy_regions(&self.regions),
            snap_to_zero: self.snap_to_zero,
            export_config: self.export_config.clone(),
            album_meta: self.album_meta.clone(),
            mastering_chain: copy_chain(&self.mastering_chain),
            next_plugin_id: self.next_plugin_id,
            next_region_id: self.next_region_id,
            next_layer_id: self.next_layer_id,
        }
    }
}

impl Project {
    /// One layer per source group; group 0 is the base timeline.
    pub fn new_layers(layer_sources: Vec<Vec<String>>) -> (r: Self)
        requires
            layer_sources@.len() < u32::MAX,
        ensures
            r.version == PROJECT_VERSION,
            r.layers@.len() == layer_sources@.len(),
            forall|i: int|
                0 <= i < layer_sources@.len() ==> (#[trigger] r.layers@[i])@ == fresh_layer(
                    i,
                    layer_sources@[i]@,
                ),
            r.regions@.len() == 0,
            !r.snap_to_zero,
            r.album_meta@ == empty_meta(),
            r.mastering_chain@.len() == 0,
            r.next_plugin_id == 1,
            r.next_region_id == 1,
            r.next_layer_id == layer_sources@.len() + 1,
    {
        let mut layers: Vec<Layer> = Vec::new();
        let mut i: usize = 0;
        while i < layer_sources.len()
            invariant
                i <= layer_sources@.len(),
                layer_sources@.len() < u32::MAX,
                layers@.len() == i,
                forall|k: int|
                    0 <= k < i ==> (#[trigger] layers@[k])@ == fresh_layer(k, layer_sources@[k]@),
            decreases layer_sources@.len() - i,
        {
            let group = &layer_sources[i];
            let mut sources: Vec<SourceRef> = Vec::new();
            let mut j: usize = 0;
            while j < group.len()
                invariant
                    j <= group@.len(),
                    sources@.len() == j,
                    forall|m: int|
                        0 <= m < j ==> #[trigger] sources@[m] == (SourceRef {
                            path: group@[m],
                            start: None,
                        }),
                decreases group@.len() - j,
            {
                sources.push(SourceRef::sequential(group[j].clone()));
                j += 1;
            }
            let layer = Layer {
                id: (i + 1) as u32,
                sources,
                gain_db_bits: ZERO_DB_BITS,
                muted: false,
                solo: false,
                collapsed: false,
                inserts: Vec::new(),
                custom_name: None,
            };
            proof {
                assert(layer@.sources =~= fresh_layer(i as int, layer_sources@[i as int]@).sources);
            }
            layers.push(layer);
            i += 1;
        }
        let next_layer_id = (layers.len() as u32) + 1;
        Project {
            version: PROJECT_VERSION,
            layers,
            regions: Vec::new(),
            snap_to_zero: false,
            export_config: ExportConfig::default(),
            album_meta: AlbumMeta::default(),
            mastering_chain: Vec::new(),
            next_plugin_id: 1,
            next_region_id: 1,
            next_layer_id,
        }
    }

    /// Single-layer convenience (sequential clips only).
    pub fn new(sources: Vec<String>) -> (r: Self)
        ensures
            r.version == PROJECT_VERSION,
            r.layers@.len() == 1,
            r.layers@[0]@ == fresh_layer(0, sources@),
            r.regions@.len() == 0,
            !r.snap_to_zero,
            r.album_meta@ == empty_meta(),
            r.mastering_chain@.len() == 0,
            r.next_plugin_id == 1,
            r.next_region_id == 1,
            r.next_layer_id == 2,
    {
        let mut groups: Vec<Vec<String>> = Vec::new();
        groups.push(sources);
        Self::new_layers(groups)
    }

    /// The source recipe of every layer.
    pub fn source_groups(&self) -> (r: Vec<Vec<SourceRef>>)
        ensures
            r@.len() == self.layers@.len(),
            forall|i: int| 0 <= i < r@.len() ==> (#[trigger] r@[i])@ == self.layers@[i].sources@,
    {
        let mut out: Vec<Vec<SourceRef>> = Vec::new();
        let mut i: usize = 0;
        while i < self.layers.len()
            invariant
                i <= self.layers@.len(),
                out@.len() == i,
                forall|k: int| 0 <= k < i ==> (#[trigger] out@[k])@ == self.layers@[k].sources@,
            decreases self.layers@.len() - i,
        {
            out.push(copy_sources(&self.layers[i].sources));
            i += 1;
        }
        out
    }
}

/// The id given to the first plugin of a new project.
pub fn default_next_plugin_id() -> (r: u32)
    ensures
        r == 1,
{
    1
}

/// A plugin chain's owner: the master bus, one layer or one track.
#[derive(Debug, Clone, Copy, PartialEq, Eq)]
pub enum ChainTarget {
    Master,
    Layer { id: u32 },
    Track { id: u32 },
}

/// Display state of one chain plugin.
#[derive(Debug, Clone)]
pub struct MasteringPluginView {
    pub id: u32,
    pub component: String,
    pub name: String,
    pub bypass: bool,
    pub format: PluginFormat,
}

/// Map persisted chain cfgs to their display views.
pub fn chain_views(chain: &[MasteringPluginCfg]) -> (r: Vec<MasteringPluginView>)
    ensures
        r@.len() == chain@.len(),
        forall|i: int|
            0 <= i < chain@.len() ==> {
                let v = #[trigger] r@[i];
                let c = chain@[i];
                &&& v.id == c.id
                &&& v.component == c.component
                &&& v.name == c.name
                &&& v.bypass == c.bypass
                &&& v.format == spec_format_of(c.component@)
            },
{
    let mut out: Vec<MasteringPluginView> = Vec::new();
    let mut i: usize = 0;
    while i < chain.len()
        invariant
            i <= chain@.len(),
            out@.len() == i,
            forall|k: int|
                0 <= k < i ==> {
                    let v = #[trigger] out@[k];
                    let c = chain@[k];
                    &&& v.id == c.id
                    &&& v.component == c.component
                    &&& v.name == c.name
                    &&& v.bypass == c.bypass
                    &&& v.format == spec_format_of(c.component@)
                },
        decreases chain@.len() - i,
    {
        let c = &chain[i];
        out.push(
            MasteringPluginView {
                id: c.id,
                component: c.component.clone(),
                name: c.name.clone(),
                bypass: c.bypass,
                format: format_of(c.component.as_str()),
            },
        );
        i += 1;
    }
    out
}

/// Which edge of a region a move targets.
#[derive(Debug, Clone, Copy, PartialEq, Eq)]
pub enum RegionEdge {
    Start,
    End,
}

/// Result of planning a base-clip removal: the surviving layers' new
/// source recipes and the removed timeline span.
pub struct ClipRemoval {
    /// New sources per surviving layer, index-aligned with
    /// `kept_layer_ids`.
    pub groups: Vec<Vec<SourceRef>>,
    pub kept_layer_ids: Vec<u32>,
    pub span: RegionSpan,
}

/// What an undo/redo actually did: `audio_changed` tells the caller to
/// reload the player with the restored timeline.
#[derive(Debug, Clone, Copy, PartialEq, Eq)]
pub struct UndoReport {
    pub applied: bool,
    pub audio_changed: bool,
}

/// One track as listed for display and export: a region resolved to its
/// position-ordered number and title.
#[derive(Debug, Clone)]
pub struct TrackInfo {
    /// Stable region id.
    pub id: u32,
    /// 1-based track number, ordered by position in the timeline.
    pub number: u32,
    pub title: String,
    pub start_sample: u64,
    pub end_sample: u64,
    /// Normalized ISRC ("" = none).
    pub isrc: String,
    /// Gap before this track as set by the user (None = album default).
    pub gap_before_ms: Option<u32>,
    /// Gap before this track after defaults are applied (0 for track 1).
    pub gap_before_effective_ms: u32,
}

/// Peak data of every layer, as plain values.
pub open spec fn peaks_view(ps: Seq<PeakPyramid>) -> Seq<Seq<(u32, Seq<Seq<i8>>)>> {
    ps.map_values(|p: PeakPyramid| p.data())
}

/// Copy of every layer's peaks.
pub fn copy_peaks(v: &Vec<PeakPyramid>) -> (r: Vec<PeakPyramid>)
    ensures
        peaks_view(r@) == peaks_view(v@),
{
    let r = v.clone();
    proof {
        assert(peaks_view(r@) =~= peaks_view(v@));
    }
    r
}

/// The parts of the session that undo and redo restore.
pub struct SessionView {
    pub regions: Seq<RegionView>,
    pub layers: Seq<LayerData>,
    pub audio: AudioInfoView,
    pub peaks: Seq<Seq<(u32, Seq<Seq<i8>>)>>,
}

/// One undo step as plain values. Region edits snapshot regions only;
/// clip-structure operations also capture the layer recipes and the
/// scanned audio with its peaks.
pub struct SnapshotView {
    pub regions: Seq<RegionView>,
    pub layers: Option<Seq<LayerData>>,
    pub audio: Option<(AudioInfoView, Seq<Seq<(u32, Seq<Seq<i8>>)>>)>,
}

/// The session and its two stacks.
pub struct History {
    pub current: SessionView,
    pub undo: Seq<SnapshotView>,
    pub redo: Seq<SnapshotView>,
}

/// Install `snap` into `cur`; returns the new session and the snapshot
/// that brings `cur` back (capturing exactly what `snap` carried).
pub open spec fn swap(cur: SessionView, snap: SnapshotView) -> (SessionView, SnapshotView) {
    let next = SessionView {
        regions: snap.regions,
        layers: match snap.layers {
            Some(l) => l,
            None => cur.layers,
        },
        audio: match snap.audio {
            Some(a) => a.0,
            None => cur.audio,
        },
        peaks: match snap.audio {
            Some(a) => a.1,
            None => cur.peaks,
        },
    };
    let back = SnapshotView {
        regions: cur.regions,
        layers: match snap.layers {
            Some(_) => Some(cur.layers),
            None => None,
        },
        audio: match snap.audio {
            Some(_) => Some((cur.audio, cur.peaks)),
            None => None,
        },
    };
    (next, back)
}

/// What `undo` does to the history.
pub open spec fn undo_step(h: History) -> History {
    if h.undo.len() == 0 {
        h
    } else {
        let (next, back) = swap(h.current, h.undo.last());
        History { current: next, undo: h.undo.drop_last(), redo: h.redo.push(back) }
    }
}

/// What `redo` does to the history.
pub open spec fn redo_step(h: History) -> History {
    if h.redo.len() == 0 {
        h
    } else {
        let (next, back) = swap(h.current, h.redo.last());
        History { current: next, undo: h.undo.push(back), redo: h.redo.drop_last() }
    }
}

/// The snapshot a region edit takes.
pub open spec fn region_snapshot(cur: SessionView) -> SnapshotView {
    SnapshotView { regions: cur.regions, layers: None, audio: None }
}

/// The snapshot a clip-structure edit takes.
pub open spec fn full_snapshot(cur: SessionView) -> SnapshotView {
    SnapshotView {
        regions: cur.regions,
        layers: Some(cur.layers),
        audio: Some((cur.audio, cur.peaks)),
    }
}

/// The history after an undoable edit: `snap` pushed, redo cleared, the
/// session replaced by `next`.
pub open spec fn recorded(h: History, snap: SnapshotView, next: SessionView) -> History {
    History { current: next, undo: h.undo.push(snap), redo: seq![] }
}

/// Undoing a step and redoing it gives back the history before the undo.
pub proof fn law_redo_undoes_undo(h: History)
    requires
        h.undo.len() > 0,
    ensures
        redo_step(undo_step(h)) == h,
{
    let u = undo_step(h);
    assert(u.redo.last() == swap(h.current, h.undo.last()).1);
    assert(u.undo.push(swap(u.current, u.redo.last()).1) =~= h.undo);
    assert(u.redo.drop_last() =~= h.redo);
}

/// Redoing a step and undoing it gives back the history before the redo.
pub proof fn law_undo_undoes_redo(h: History)
    requires
        h.redo.len() > 0,
    ensures
        undo_step(redo_step(h)) == h,
{
    let r = redo_step(h);
    assert(r.undo.last() == swap(h.current, h.redo.last()).1);
    assert(r.redo.push(swap(r.current, r.undo.last()).1) =~= h.redo);
    assert(r.undo.drop_last() =~= h.undo);
}

/// Undoing a region edit restores the regions and nothing else: layers,
/// audio and peaks stay as they are at undo time, and the undo stack is
/// back to what it was before the edit.
pub proof fn law_undo_region_edit(h: History, next: SessionView)
    ensures
        ({
            let u = undo_step(recorded(h, region_snapshot(h.current), next));
            &&& u.current.regions == h.current.regions
            &&& u.current.layers == next.layers
            &&& u.current.audio == next.audio
            &&& u.current.peaks == next.peaks
            &&& u.undo == h.undo
        }),
{
    let rec = recorded(h, region_snapshot(h.current), next);
    assert(rec.undo.last() == region_snapshot(h.current));
    assert(rec.undo.drop_last() =~= h.undo);
}

/// Undoing a clip-structure edit restores the whole session: regions,
/// layers, audio and peaks.
pub proof fn law_undo_structural_edit(h: History, next: SessionView)
    ensures
        ({
            let u = undo_step(recorded(h, full_snapshot(h.current), next));
            &&& u.current == h.current
            &&& u.undo == h.undo
        }),
{
    let rec = recorded(h, full_snapshot(h.current), next);
    assert(rec.undo.last() == full_snapshot(h.current));
    assert(rec.undo.drop_last() =~= h.undo);
}

/// One undo step.
pub struct Snapshot {
    pub regions: Vec<Region>,
    pub layers: Option<Vec<Layer>>,
    pub audio: Option<(AudioInfo, Vec<PeakPyramid>)>,
}

impl View for Snapshot {
    type V = SnapshotView;

    open spec fn view(&self) -> SnapshotView {
        SnapshotView {
            regions: regions_view(self.regions@),
            layers: match self.layers {
                Some(l) => Some(layers_view(l@)),
                None => None,
            },
            audio: match self.audio {
                Some(a) => Some((a.0@, peaks_view(a.1@))),
                None => None,
            },
        }
    }
}

pub open spec fn stack_view(v: Seq<Snapshot>) -> Seq<SnapshotView> {
    v.map_values(|s: Snapshot| s@)
}

/// The project settings an edit of regions, layers or audio leaves alone.
pub open spec fn same_settings(a: Project, b: Project) -> bool {
    &&& a.version == b.version
    &&& a.snap_to_zero == b.snap_to_zero
    &&& a.export_config == b.export_config
    &&& a.album_meta@ == b.album_meta@
    &&& a.mastering_chain@ == b.mastering_chain@
    &&& a.next_plugin_id == b.next_plugin_id
    &&& a.next_layer_id == b.next_layer_id
}

/// Canonical in-memory state: the project recipe, the scanned audio with
/// one peak pyramid per layer, and the undo/redo history.
pub struct ProjectState {
    pub project: Project,
    pub info: AudioInfo,
    /// One peak pyramid per layer (index-aligned with `project.layers`).
    pub peaks: Vec<PeakPyramid>,
    /// Path of the project file, once saved or loaded.
    pub project_path: Option<String>,
    /// Undo stack, most recent last.
    pub undo: Vec<Snapshot>,
    /// Redo stack, most recent last.
    pub redo: Vec<Snapshot>,
}

/// Shortest track region at `sample_rate` (at least one sample).
pub open spec fn min_len(sample_rate: u32) -> nat {
    let l = sample_rate * MIN_TRACK_MS / 1000;
    if l >= 1 {
        l as nat
    } else {
        1
    }
}

impl ProjectState {
    /// The session as undo sees it.
    pub open spec fn session(&self) -> SessionView {
        SessionView {
            regions: regions_view(self.project.regions@),
            layers: layers_view(self.project.layers@),
            audio: self.info@,
            peaks: peaks_view(self.peaks@),
        }
    }

    /// The session with its undo and redo stacks.
    pub open spec fn history(&self) -> History {
        History {
            current: self.session(),
            undo: stack_view(self.undo@),
            redo: stack_view(self.redo@),
        }
    }


    pub fn new(project: Project, info: AudioInfo, peaks: Vec<PeakPyramid>) -> (r: Self)
        ensures
            r.project == project,
            r.info == info,
            r.peaks == peaks,
            r.project_path is None,
            r.history().undo.len() == 0,
            r.history().redo.len() == 0,
    {
        ProjectState {
            project,
            info,
            peaks,
            project_path: None,
            undo: Vec::new(),
            redo: Vec::new(),
        }
    }

    /// Shortest track region at the session rate.
    pub fn min_len(&self) -> (r: u64)
        ensures
            r == min_len(self.info.sample_rate),
    {
        let l = self.info.sample_rate as u64 * MIN_TRACK_MS / 1000;
        if l >= 1 {
            l
        } else {
            1
        }
    }

    /// Whether an undo step is available.
    pub fn can_undo(&self) -> (r: bool)
        ensures
            r == (self.history().undo.len() > 0),
    {
        self.undo.len() > 0
    }

    /// Whether a redo step is available.
    pub fn can_redo(&self) -> (r: bool)
        ensures
            r == (self.history().redo.len() > 0),
    {
        self.redo.len() > 0
    }

    /// Replace the scanned audio while keeping the recipe and the history.
    pub fn set_audio(&mut self, info: AudioInfo, peaks: Vec<PeakPyramid>)
        ensures
            final(self).info == info,
            final(self).peaks == peaks,
            final(self).project == old(self).project,
            final(self).history().undo == old(self).history().undo,
            final(self).history().redo == old(self).history().redo,
    {
        self.info = info;
        self.peaks = peaks;
    }

    fn push_undo(&mut self)
        ensures
            final(self).history() == recorded(
                old(self).history(),
                region_snapshot(old(self).session()),
                old(self).session(),
            ),
            final(self).project == old(self).project,
            final(self).info == old(self).info,
            final(self).peaks == old(self).peaks,
            final(self).project_path == old(self).project_path,
    {
        let snap = Snapshot { regions: copy_regions(&self.project.regions), layers: None, audio: None };
        self.undo.push(snap);
        self.redo = Vec::new();
        proof {
            assert(stack_view(self.undo@) =~= stack_view(old(self).undo@).push(
                region_snapshot(old(self).session()),
            ));
            assert(stack_view(self.redo@) =~= Seq::<SnapshotView>::empty());
        }
    }

    /// Full snapshot for clip-structure operations.
    fn push_undo_full(&mut self)
        ensures
            final(self).history() == recorded(
                old(self).history(),
                full_snapshot(old(self).session()),
                old(self).session(),
            ),
            final(self).project == old(self).project,
            final(self).info == old(self).info,
            final(self).peaks == old(self).peaks,
            final(self).project_path == old(self).project_path,
    {
        let snap = Snapshot {
            regions: copy_regions(&self.project.regions),
            layers: Some(copy_layers(&self.project.layers)),
            audio: Some((self.info.clone(), copy_peaks(&self.peaks))),
        };
        self.undo.push(snap);
        self.redo = Vec::new();
        proof {
            assert(stack_view(self.undo@) =~= stack_view(old(self).undo@).push(
                full_snapshot(old(self).session()),
            ));
            assert(stack_view(self.redo@) =~= Seq::<SnapshotView>::empty());
        }
    }

    /// Strip layer and audio payloads from both stacks, keeping the
    /// region history (called by non-undoable structural operations so an
    /// old clip snapshot can never resurrect a previous timeline).
    pub fn forget_structural_undo(&mut self)
        ensures
            final(self).project == old(self).project,
            final(self).info == old(self).info,
            final(self).peaks == old(self).peaks,
            final(self).history().current == old(self).history().current,
            final(self).history().undo == old(self).history().undo.map_values(
                |s: SnapshotView| region_snapshot_of(s),
            ),
            final(self).history().redo == old(self).history().redo.map_values(
                |s: SnapshotView| region_snapshot_of(s),
            ),
    {
        let mut undo: Vec<Snapshot> = Vec::new();
        std::mem::swap(&mut undo, &mut self.undo);
        self.undo = strip_payloads(undo);
        let mut redo: Vec<Snapshot> = Vec::new();
        std::mem::swap(&mut redo, &mut self.redo);
        self.redo = strip_payloads(redo);
    }

    fn swap_snapshot(&mut self, snap: Snapshot) -> (r: (Snapshot, bool))
        ensures
            (final(self).session(), r.0@) == swap(old(self).session(), snap@),
            r.1 == (snap.audio is Some),
            same_settings(final(self).project, old(self).project),
            final(self).project.next_region_id == old(self).project.next_region_id,
            final(self).undo == old(self).undo,
            final(self).redo == old(self).redo,
            final(self).project_path == old(self).project_path,
    {
        let audio_changed = snap.audio.is_some();
        let Snapshot { regions, layers, audio } = snap;
        let mut regions = regions;
        std::mem::swap(&mut regions, &mut self.project.regions);
        let back_layers = match layers {
            Some(l) => {
                let mut l = l;
                std::mem::swap(&mut l, &mut self.project.layers);
                Some(l)
            },
            None => None,
        };
        let back_audio = match audio {
            Some(a) => {
                let (i, p) = a;
                let mut i = i;
                let mut p = p;
                std::mem::swap(&mut i, &mut self.info);
                std::mem::swap(&mut p, &mut self.peaks);
                Some((i, p))
            },
            None => None,
        };
        (Snapshot { regions, layers: back_layers, audio: back_audio }, audio_changed)
    }

    pub fn undo(&mut self) -> (r: UndoReport)
        ensures
            final(self).history() == undo_step(old(self).history()),
            r.applied == (old(self).history().undo.len() > 0),
            r.audio_changed == (r.applied && old(self).history().undo.last().audio is Some),
            same_settings(final(self).project, old(self).project),
            final(self).project.next_region_id == old(self).project.next_region_id,
            final(self).project_path == old(self).project_path,
    {
        match self.undo.pop() {
            None => UndoReport { applied: false, audio_changed: false },
            Some(snap) => {
                let ghost u0 = old(self).undo@;
                proof {
                    assert(stack_view(self.undo@) =~= stack_view(u0).drop_last());
                }
                let (back, audio_changed) = self.swap_snapshot(snap);
                self.redo.push(back);
                proof {
                    assert(stack_view(self.redo@) =~= stack_view(old(self).redo@).push(back@));
                }
                UndoReport { applied: true, audio_changed }
            },
        }
    }

    pub fn redo(&mut self) -> (r: UndoReport)
        ensures
            final(self).history() == redo_step(old(self).history()),
            r.applied == (old(self).history().redo.len() > 0),
            r.audio_changed == (r.applied && old(self).history().redo.last().audio is Some),
            same_settings(final(self).project, old(self).project),
            final(self).project.next_region_id == old(self).project.next_region_id,
            final(self).project_path == old(self).project_path,
    {
        match self.redo.pop() {
            None => UndoReport { applied: false, audio_changed: false },
            Some(snap) => {
                let ghost r0 = old(self).redo@;
                proof {
                    assert(stack_view(self.redo@) =~= stack_view(r0).drop_last());
                }
                let (back, audio_changed) = self.swap_snapshot(snap);
                self.undo.push(back);
                proof {
                    assert(stack_view(self.undo@) =~= stack_view(old(self).undo@).push(back@));
                }
                UndoReport { applied: true, audio_changed }
            },
        }
    }
}

/// A snapshot reduced to its regions.
pub open spec fn region_snapshot_of(s: SnapshotView) -> SnapshotView {
    SnapshotView { regions: s.regions, layers: None, audio: None }
}

fn strip_payloads(v: Vec<Snapshot>) -> (r: Vec<Snapshot>)
    ensures
        stack_view(r@) == stack_view(v@).map_values(|s: SnapshotView| region_snapshot_of(s)),
{
    let mut out: Vec<Snapshot> = Vec::new();
    let mut v = v;
    let ghost orig = v@;
    let mut rev: Vec<Snapshot> = Vec::new();
    // Drain from the back, then restore the order.
    while v.len() > 0
        invariant
            v@.len() + rev@.len() == orig.len(),
            v@ == orig.take(v@.len() as int),
            forall|k: int|
                0 <= k < rev@.len() ==> (#[trigger] rev@[k])@ == region_snapshot_of(
                    orig[orig.len() - 1 - k]@,
                ),
        decreases v@.len(),
    {
        let s = v.pop().unwrap();
        let Snapshot { regions, layers: _, audio: _ } = s;
        rev.push(Snapshot { regions, layers: None, audio: None });
        proof {
            assert(v@ =~= orig.take(v@.len() as int));
        }
    }
    while rev.len() > 0
        invariant
            out@.len() + rev@.len() == orig.len(),
            forall|k: int|
                0 <= k < rev@.len() ==> (#[trigger] rev@[k])@ == region_snapshot_of(
                    orig[orig.len() - 1 - k]@,
                ),
            forall|k: int|
                0 <= k < out@.len() ==> (#[trigger] out@[k])@ == region_snapshot_of(orig[k]@),
        decreases rev@.len(),
    {
        let s = rev.pop().unwrap();
        out.push(s);
    }
    proof {
        assert(stack_view(out@) =~= stack_view(orig).map_values(
            |s: SnapshotView| region_snapshot_of(s),
        ));
    }
    out
}

/// Why a candidate span was refused, or where it fits.
pub enum Fit {
    /// An existing region lies inside the span.
    Contains,
    /// What is left after trimming is shorter than a track may be.
    NoRoom,
    Fits(u64, u64),
}

pub const CONTAINS_TRACK: &'static str = "the selection contains an existing track";

pub const NO_ROOM: &'static str = "not enough room here for a track (it would overlap an existing one or be shorter than 200 ms)";

/// Trimming `[s, e)` against the regions from index `i` on, in list order:
/// a region inside the span refuses it; a region covering the start moves
/// the start to its end; a region covering the end moves the end to its
/// start.
pub open spec fn fit_from(bs: Seq<(u64, u64)>, i: int, s: u64, e: u64) -> Option<(u64, u64)>
    decreases bs.len() - i,
{
    if i < 0 || i >= bs.len() {
        Some((s, e))
    } else {
        let (rs, re) = bs[i];
        if rs >= s && re <= e {
            None
        } else {
            let s1 = if rs <= s && s < re {
                re
            } else {
                s
            };
            let e1 = if rs < e && e <= re {
                rs
            } else {
                e
            };
            fit_from(bs, i + 1, s1, e1)
        }
    }
}

/// The bounds of each region.
pub open spec fn bounds(rs: Seq<Region>) -> Seq<(u64, u64)> {
    rs.map_values(|r: Region| (r.start, r.end))
}

/// The bounds of each region view.
pub open spec fn view_bounds(rs: Seq<RegionView>) -> Seq<(u64, u64)> {
    rs.map_values(|r: RegionView| (r.start, r.end))
}

/// Where a candidate span (bounds in any order) fits among the regions
/// of a timeline of `dur` samples.
pub open spec fn fit_outcome(bs: Seq<(u64, u64)>, start: u64, end: u64, dur: u64, ml: nat) -> Fit {
    let s0 = if start <= end {
        start
    } else {
        end
    };
    let e0 = if start <= end {
        end
    } else {
        start
    };
    let e1 = if e0 <= dur {
        e0
    } else {
        dur
    };
    fit_close(fit_from(bs, 0, s0, e1), ml)
}

/// The outcome of a trimmed span: refused, too short, or fitting.
pub open spec fn fit_close(o: Option<(u64, u64)>, ml: nat) -> Fit {
    match o {
        None => Fit::Contains,
        Some((s, e)) => if e < s + ml {
            Fit::NoRoom
        } else {
            Fit::Fits(s, e)
        },
    }
}

/// Two regions do not overlap (touching is fine).
pub open spec fn apart(a_start: u64, a_end: u64, b_start: u64, b_end: u64) -> bool {
    a_end <= b_start || b_end <= a_start
}

proof fn lemma_fit_from(bs: Seq<(u64, u64)>, i: int, s: u64, e: u64)
    requires
        0 <= i,
    ensures
        fit_from(bs, i, s, e) matches Some((s2, e2)) ==> {
            &&& s <= s2
            &&& e2 <= e
            &&& forall|j: int|
                i <= j < bs.len() ==> (s2 >= e2 || apart((#[trigger] bs[j]).0, bs[j].1, s2, e2))
        },
    decreases bs.len() - i,
{
    if i < bs.len() {
        let (rs, re) = bs[i];
        if !(rs >= s && re <= e) {
            let s1 = if rs <= s && s < re {
                re
            } else {
                s
            };
            let e1 = if rs < e && e <= re {
                rs
            } else {
                e
            };
            lemma_fit_from(bs, i + 1, s1, e1);
        }
    }
}

/// A fitted span stays clear of every region it was fitted against.
proof fn lemma_fit_outcome(bs: Seq<(u64, u64)>, start: u64, end: u64, dur: u64, ml: nat)
    requires
        ml >= 1,
    ensures
        fit_outcome(bs, start, end, dur, ml) matches Fit::Fits(s, e) ==> {
            &&& s + ml <= e
            &&& e <= dur
            &&& forall|j: int| 0 <= j < bs.len() ==> apart((#[trigger] bs[j]).0, bs[j].1, s, e)
        },
{
    let s0 = if start <= end {
        start
    } else {
        end
    };
    let e0 = if start <= end {
        end
    } else {
        start
    };
    let e1 = if e0 <= dur {
        e0
    } else {
        dur
    };
    lemma_fit_from(bs, 0, s0, e1);
}

/// A span holding region `j`, which no other region from `i` on overlaps,
/// is refused: trimming against those regions never cuts into region `j`.
proof fn lemma_fit_from_refuses(bs: Seq<(u64, u64)>, i: int, s: u64, e: u64, j: int)
    requires
        0 <= i <= j < bs.len(),
        s <= bs[j].0,
        bs[j].1 <= e,
        bs[j].0 < bs[j].1,
        forall|k: int| i <= k < bs.len() && k != j ==> apart((#[trigger] bs[k]).0, bs[k].1, bs[j].0, bs[j].1),
    ensures
        fit_from(bs, i, s, e) is None,
    decreases bs.len() - i,
{
    if i < j {
        let (rs, re) = bs[i];
        if !(rs >= s && re <= e) {
            let s1 = if rs <= s && s < re {
                re
            } else {
                s
            };
            let e1 = if rs < e && e <= re {
                rs
            } else {
                e
            };
            assert(apart(bs[i].0, bs[i].1, bs[j].0, bs[j].1));
            lemma_fit_from_refuses(bs, i + 1, s1, e1, j);
        }
    }
}

/// The lower of two bounds.
pub open spec fn low(a: u64, b: u64) -> u64 {
    if a <= b {
        a
    } else {
        b
    }
}

/// The higher of two bounds.
pub open spec fn high(a: u64, b: u64) -> u64 {
    if a <= b {
        b
    } else {
        a
    }
}

/// Where `add_region` puts a new track. Marked between `start` and `end`
/// (in either order) on a timeline of `dur` samples at `sample_rate`:
/// - when it fits, the new span lies within the marked span and the
///   timeline, is at least the minimum track length long, and overlaps no
///   existing region;
/// - among valid regions, a span that holds a whole existing region (cut
///   at the end of the timeline) is refused as containing a track.
pub proof fn law_added_region_fits(
    rs: Seq<Region>,
    start: u64,
    end: u64,
    dur: u64,
    sample_rate: u32,
    next_id: u32,
)
    ensures
        fit_outcome(bounds(rs), start, end, dur, min_len(sample_rate)) matches Fit::Fits(s, e) ==> {
            &&& low(start, end) <= s
            &&& s + min_len(sample_rate) <= e
            &&& e <= high(start, end)
            &&& e <= dur
            &&& forall|j: int| 0 <= j < rs.len() ==> apart((#[trigger] rs[j]).start, rs[j].end, s, e)
        },
        regions_valid(rs, dur, min_len(sample_rate), next_id) ==> ((exists|j: int|
            0 <= j < rs.len() && low(start, end) <= (#[trigger] rs[j]).start && rs[j].end <= high(start, end)
                && rs[j].end <= dur) ==> fit_outcome(bounds(rs), start, end, dur, min_len(sample_rate))
            == Fit::Contains),
{
    let bs = bounds(rs);
    let ml = min_len(sample_rate);
    lemma_fit_outcome(bs, start, end, dur, ml);
    lemma_fit_from(bs, 0, low(start, end), if high(start, end) <= dur { high(start, end) } else { dur });
    if let Fit::Fits(s, e) = fit_outcome(bs, start, end, dur, ml) {
        assert forall|j: int| 0 <= j < rs.len() implies apart((#[trigger] rs[j]).start, rs[j].end, s, e) by {
            assert(bs[j] == (rs[j].start, rs[j].end));
        }
    }
    if regions_valid(rs, dur, ml, next_id) {
        if exists|j: int|
            0 <= j < rs.len() && low(start, end) <= (#[trigger] rs[j]).start && rs[j].end <= high(start, end)
                && rs[j].end <= dur {
            let j = choose|j: int|
                0 <= j < rs.len() && low(start, end) <= (#[trigger] rs[j]).start && rs[j].end <= high(
                    start,
                    end,
                ) && rs[j].end <= dur;
            assert forall|k: int| 0 <= k < bs.len() && k != j implies apart(
                (#[trigger] bs[k]).0,
                bs[k].1,
                bs[j].0,
                bs[j].1,
            ) by {
                assert(bs[k] == (rs[k].start, rs[k].end));
                assert(bs[j] == (rs[j].start, rs[j].end));
                assert(apart(rs[k].start, rs[k].end, rs[j].start, rs[j].end));
            }
            assert(rs[j].start + ml <= rs[j].end);
            lemma_fit_from_refuses(
                bs,
                0,
                low(start, end),
                if high(start, end) <= dur { high(start, end) } else { dur },
                j,
            );
        }
    }
}

/// The message of an unknown-id error.
fn unknown_id(what: &str, id: u32) -> (r: String)
    ensures
        r@ == what@ + dec(id as nat),
{
    let mut v: Vec<char> = chars_of(what);
    push_dec(&mut v, id as u64);
    string_of(&v)
}

/// A title as stored: trimmed, and None when nothing is left.
pub open spec fn clean_title(t: Option<Seq<char>>) -> Option<Seq<char>> {
    match t {
        Some(s) => if trim(s).len() == 0 {
            None
        } else {
            Some(trim(s))
        },
        None => None,
    }
}

fn clean_title_exec(t: Option<String>) -> (r: Option<String>)
    ensures
        opt_view(r) == clean_title(opt_view(t)),
{
    match t {
        Some(s) => {
            let v = chars_of(s.as_str());
            let tv = trim_chars(v.as_slice());
            if tv.len() == 0 {
                None
            } else {
                Some(string_of(&tv))
            }
        },
        None => None,
    }
}

/// The regions as a timeline can hold them: each at least `ml` long and
/// inside `[0, dur]`, no two overlapping, ids distinct and below `next_id`.
pub open spec fn regions_valid(rs: Seq<Region>, dur: u64, ml: nat, next_id: u32) -> bool {
    &&& forall|i: int|
        0 <= i < rs.len() ==> (#[trigger] rs[i]).start + ml <= rs[i].end && rs[i].end <= dur
    &&& forall|i: int| 0 <= i < rs.len() ==> (#[trigger] rs[i]).id < next_id
    &&& forall|i: int, j: int|
        0 <= i < rs.len() && 0 <= j < rs.len() && i != j ==> apart(
            #[trigger] rs[i].start,
            rs[i].end,
            #[trigger] rs[j].start,
            rs[j].end,
        ) && rs[i].id != rs[j].id
}

/// First index from `i` on of a region with `id`, or -1.
pub open spec fn index_from(rs: Seq<Region>, id: u32, i: int) -> int
    decreases rs.len() - i,
{
    if i < 0 || i >= rs.len() {
        -1
    } else if rs[i].id == id {
        i
    } else {
        index_from(rs, id, i + 1)
    }
}

/// The region with `id` (the first one when ids repeat), or -1.
pub open spec fn index_of_id(rs: Seq<Region>, id: u32) -> int {
    index_from(rs, id, 0)
}

/// Where `index_from` lands.
pub proof fn lemma_index_from_pub(rs: Seq<Region>, id: u32, i: int)
    requires
        0 <= i,
    ensures
        index_from(rs, id, i) == -1 || i <= index_from(rs, id, i) < rs.len(),
        index_from(rs, id, i) >= 0 ==> rs[index_from(rs, id, i)].id == id,
{
    lemma_index_from(rs, id, i);
}

proof fn lemma_index_from(rs: Seq<Region>, id: u32, i: int)
    requires
        0 <= i,
    ensures
        index_from(rs, id, i) == -1 || i <= index_from(rs, id, i) < rs.len(),
        index_from(rs, id, i) >= 0 ==> rs[index_from(rs, id, i)].id == id,
        index_from(rs, id, i) >= 0 ==> forall|k: int|
            i <= k < index_from(rs, id, i) ==> (#[trigger] rs[k]).id != id,
        index_from(rs, id, i) < 0 ==> forall|k: int| i <= k < rs.len() ==> (#[trigger] rs[k]).id != id,
    decreases rs.len() - i,
{
    if i < rs.len() && rs[i].id != id {
        lemma_index_from(rs, id, i + 1);
    }
}

/// Position of the region with `id`, if any.
pub(crate) fn find_region(rs: &Vec<Region>, id: u32) -> (r: Option<usize>)
    ensures
        match r {
            Some(i) => i == index_of_id(rs@, id) && i < rs@.len() && rs@[i as int].id == id,
            None => index_of_id(rs@, id) < 0,
        },
{
    proof {
        lemma_index_from(rs@, id, 0);
    }
    let mut i: usize = 0;
    while i < rs.len()
        invariant
            i <= rs@.len(),
            index_from(rs@, id, i as int) == index_of_id(rs@, id),
        decreases rs@.len() - i,
    {
        if rs[i].id == id {
            return Some(i);
        }
        i += 1;
    }
    None
}

impl ProjectState {
    /// Normalize, clamp and trim a candidate span against the existing
    /// regions. Fails when an existing region sits inside the span or no
    /// room is left; a span it returns never overlaps a region.
    pub fn fit_span(&self, start: u64, end: u64) -> (r: Result<(u64, u64), StillError>)
        ensures
            match fit_outcome(
                bounds(self.project.regions@),
                start,
                end,
                self.info.duration_samples,
                min_len(self.info.sample_rate),
            ) {
                Fit::Contains => r matches Err(StillError::InvalidMarker(m)) && m@
                    == CONTAINS_TRACK@,
                Fit::NoRoom => r matches Err(StillError::InvalidMarker(m)) && m@ == NO_ROOM@,
                Fit::Fits(s, e) => r == Ok::<(u64, u64), StillError>((s, e)),
            },
            r matches Ok((s, e)) ==> {
                &&& s + min_len(self.info.sample_rate) <= e
                &&& e <= self.info.duration_samples
                &&& forall|j: int|
                    0 <= j < self.project.regions@.len() ==> apart(
                        (#[trigger] self.project.regions@[j]).start,
                        self.project.regions@[j].end,
                        s,
                        e,
                    )
            },
    {
        let rs = &self.project.regions;
        let (mut s, mut e) = if start <= end {
            (start, end)
        } else {
            (end, start)
        };
        let dur = self.info.duration_samples;
        if e > dur {
            e = dur;
        }
        let ghost s0 = s;
        let ghost e0 = e;
        let ghost bs = bounds(rs@);
        proof {
            lemma_fit_from(bs, 0, s, e);
        }
        let mut i: usize = 0;
        while i < rs.len()
            invariant
                i <= rs@.len(),
                bs == bounds(rs@),
                fit_from(bs, i as int, s, e) == fit_from(bs, 0, s0, e0),
                rs@ == self.project.regions@,
                fit_outcome(
                    bs,
                    start,
                    end,
                    self.info.duration_samples,
                    min_len(self.info.sample_rate),
                ) == fit_close(fit_from(bs, 0, s0, e0), min_len(self.info.sample_rate)),
                s0 <= s,
                e <= e0,
                forall|j: int|
                    0 <= j < i ==> (s >= e || apart(
                        (#[trigger] rs@[j]).start,
                        rs@[j].end,
                        s,
                        e,
                    )),
            decreases rs@.len() - i,
        {
            let r = &rs[i];
            if r.start >= s && r.end <= e {
                assert(bs[i as int] == (r.start, r.end));
                assert(fit_from(bs, i as int, s, e) is None);
                return Err(StillError::InvalidMarker(String::from_str(CONTAINS_TRACK)));
            }
            assert(bs[i as int] == (r.start, r.end));
            if r.start <= s && s < r.end {
                s = r.end;
            }
            if r.start < e && e <= r.end {
                e = r.start;
            }
            i += 1;
        }
        let ml = self.min_len();
        if e < s || e - s < ml {
            return Err(StillError::InvalidMarker(String::from_str(NO_ROOM)));
        }
        Ok((s, e))
    }
}

/// `regions_valid` on views.
pub open spec fn views_valid(rs: Seq<RegionView>, dur: u64, ml: nat, next_id: u32) -> bool {
    &&& forall|i: int|
        0 <= i < rs.len() ==> (#[trigger] rs[i]).start + ml <= rs[i].end && rs[i].end <= dur
    &&& forall|i: int| 0 <= i < rs.len() ==> (#[trigger] rs[i]).id < next_id
    &&& forall|i: int, j: int|
        0 <= i < rs.len() && 0 <= j < rs.len() && i != j ==> apart(
            #[trigger] rs[i].start,
            rs[i].end,
            #[trigger] rs[j].start,
            rs[j].end,
        ) && rs[i].id != rs[j].id
}

proof fn lemma_valid_views(rs: Seq<Region>, dur: u64, ml: nat, next_id: u32)
    ensures
        regions_valid(rs, dur, ml, next_id) == views_valid(regions_view(rs), dur, ml, next_id),
{
    let v = regions_view(rs);
    if regions_valid(rs, dur, ml, next_id) {
        assert forall|i: int, j: int|
            0 <= i < v.len() && 0 <= j < v.len() && i != j implies apart(
            #[trigger] v[i].start,
            v[i].end,
            #[trigger] v[j].start,
            v[j].end,
        ) && v[i].id != v[j].id by {
            assert(v[i] == rs[i]@);
            assert(v[j] == rs[j]@);
        }
    }
    if views_valid(v, dur, ml, next_id) {
        assert forall|i: int, j: int|
            0 <= i < rs.len() && 0 <= j < rs.len() && i != j implies apart(
            #[trigger] rs[i].start,
            rs[i].end,
            #[trigger] rs[j].start,
            rs[j].end,
        ) && rs[i].id != rs[j].id by {
            assert(v[i] == rs[i]@);
            assert(v[j] == rs[j]@);
        }
        assert forall|i: int| 0 <= i < rs.len() implies (#[trigger] rs[i]).start + ml <= rs[i].end
            && rs[i].end <= dur && rs[i].id < next_id by {
            assert(v[i] == rs[i]@);
        }
    }
}

/// Adding a span fitted against the regions to valid regions, under a
/// fresh id, keeps them valid.
proof fn lemma_add_keeps_valid(
    rs: Seq<RegionView>,
    added: RegionView,
    dur: u64,
    ml: nat,
    next_id: u32,
)
    requires
        views_valid(rs, dur, ml, next_id),
        added.id == next_id,
        next_id < u32::MAX,
        added.start + ml <= added.end <= dur,
        forall|j: int|
            0 <= j < rs.len() ==> apart((#[trigger] rs[j]).start, rs[j].end, added.start, added.end),
    ensures
        views_valid(rs.push(added), dur, ml, (next_id + 1) as u32),
{
    let n = rs.push(added);
    assert forall|i: int, j: int|
        0 <= i < n.len() && 0 <= j < n.len() && i != j implies apart(
        #[trigger] n[i].start,
        n[i].end,
        #[trigger] n[j].start,
        n[j].end,
    ) && n[i].id != n[j].id by {
        if i < rs.len() && j < rs.len() {
            assert(n[i] == rs[i] && n[j] == rs[j]);
        } else if i < rs.len() {
            assert(n[i] == rs[i]);
        } else {
            assert(n[j] == rs[j]);
        }
    }
}

impl ProjectState {
    /// The regions as valid for this session's timeline and id counter.
    pub open spec fn valid(&self) -> bool {
        regions_valid(
            self.project.regions@,
            self.info.duration_samples,
            min_len(self.info.sample_rate),
            self.project.next_region_id,
        )
    }

    /// Create a track region from a start/end pair (any order), optionally
    /// titled right away (trimmed; blank = default title). Edges
    /// overlapping existing tracks are trimmed to the free gap. Returns the
    /// new region's id.
    pub fn add_region(&mut self, start: u64, end: u64, title: Option<String>) -> (r: Result<
        u32,
        StillError,
    >)
        requires
            old(self).project.next_region_id < u32::MAX,
        ensures
            match fit_outcome(
                bounds(old(self).project.regions@),
                start,
                end,
                old(self).info.duration_samples,
                min_len(old(self).info.sample_rate),
            ) {
                Fit::Fits(s, e) => {
                    &&& r == Ok::<u32, StillError>(old(self).project.next_region_id)
                    &&& regions_view(final(self).project.regions@) == regions_view(
                        old(self).project.regions@,
                    ).push(
                        new_region(
                            old(self).project.next_region_id,
                            s,
                            e,
                            clean_title(opt_view(title)),
                        ),
                    )
                    &&& final(self).project.next_region_id == old(self).project.next_region_id + 1
                    &&& final(self).history() == recorded(
                        old(self).history(),
                        region_snapshot(old(self).session()),
                        final(self).session(),
                    )
                    &&& final(self).project.layers == old(self).project.layers
                    &&& final(self).info == old(self).info
                    &&& final(self).peaks == old(self).peaks
                    &&& same_settings(final(self).project, old(self).project)
                },
                Fit::Contains => r matches Err(StillError::InvalidMarker(m)) && m@
                    == CONTAINS_TRACK@ && *final(self) == *old(self),
                Fit::NoRoom => r matches Err(StillError::InvalidMarker(m)) && m@ == NO_ROOM@
                    && *final(self) == *old(self),
            },
            old(self).valid() ==> final(self).valid(),
    {
        proof {
            lemma_fit_outcome(
                bounds(self.project.regions@),
                start,
                end,
                self.info.duration_samples,
                min_len(self.info.sample_rate),
            );
            lemma_valid_views(
                self.project.regions@,
                self.info.duration_samples,
                min_len(self.info.sample_rate),
                self.project.next_region_id,
            );
        }
        let (s, e) = match self.fit_span(start, end) {
            Ok(p) => p,
            Err(err) => {
                return Err(err);
            },
        };
        self.push_undo();
        let id = self.project.next_region_id;
        self.project.next_region_id = id + 1;
        let title = clean_title_exec(title);
        let region = Region::new(id, s, e, title);
        self.project.regions.push(region);
        proof {
            let old_rs = old(self).project.regions@;
            assert(regions_view(self.project.regions@) =~= regions_view(old_rs).push(region@));
            let v = regions_view(old_rs);
            assert forall|j: int| 0 <= j < v.len() implies apart(
                (#[trigger] v[j]).start,
                v[j].end,
                s,
                e,
            ) by {
                assert(bounds(old_rs)[j] == (old_rs[j].start, old_rs[j].end));
            }
            if old(self).valid() {
                lemma_add_keeps_valid(
                    v,
                    region@,
                    self.info.duration_samples,
                    min_len(self.info.sample_rate),
                    id,
                );
            }
            lemma_valid_views(
                self.project.regions@,
                self.info.duration_samples,
                min_len(self.info.sample_rate),
                self.project.next_region_id,
            );
        }
        Ok(id)
    }

    /// Take an undo snapshot explicitly: called once at the start of an
    /// interactive edge drag, so the whole drag undoes in one step.
    pub fn begin_edit(&mut self)
        ensures
            final(self).history() == recorded(
                old(self).history(),
                region_snapshot(old(self).session()),
                old(self).session(),
            ),
            final(self).project == old(self).project,
            final(self).info == old(self).info,
            final(self).peaks == old(self).peaks,
    {
        self.push_undo();
    }

    /// Delete the track region with `id` (one undo step).
    pub fn remove_region(&mut self, id: u32) -> (r: Result<(), StillError>)
        ensures
            index_of_id(old(self).project.regions@, id) < 0 ==> (r matches Err(
                StillError::InvalidMarker(m),
            ) && m@ == "unknown track id "@ + dec(id as nat) && *final(self) == *old(self)),
            index_of_id(old(self).project.regions@, id) >= 0 ==> {
                &&& r is Ok
                &&& regions_view(final(self).project.regions@) == regions_view(
                    old(self).project.regions@,
                ).remove(index_of_id(old(self).project.regions@, id))
                &&& final(self).history() == recorded(
                    old(self).history(),
                    region_snapshot(old(self).session()),
                    final(self).session(),
                )
                &&& final(self).project.layers == old(self).project.layers
                &&& final(self).project.next_region_id == old(self).project.next_region_id
                &&& final(self).info == old(self).info
                &&& final(self).peaks == old(self).peaks
                &&& same_settings(final(self).project, old(self).project)
            },
            old(self).valid() ==> final(self).valid(),
    {
        let idx = match find_region(&self.project.regions, id) {
            Some(i) => i,
            None => {
                return Err(StillError::InvalidMarker(unknown_id("unknown track id ", id)));
            },
        };
        self.push_undo();
        self.project.regions.remove(idx);
        proof {
            let old_rs = old(self).project.regions@;
            assert(regions_view(self.project.regions@) =~= regions_view(old_rs).remove(
                idx as int,
            ));
            let n = self.project.regions@;
            assert forall|k: int| 0 <= k < n.len() implies #[trigger] n[k] == old_rs[if k < idx {
                k
            } else {
                k + 1
            }] by {}
        }
        Ok(())
    }

    /// Set (or reset, with a blank title) a track's title (one undo step).
    pub fn rename_track(&mut self, id: u32, title: &str) -> (r: Result<(), StillError>)
        ensures
            index_of_id(old(self).project.regions@, id) < 0 ==> (r matches Err(
                StillError::InvalidMarker(m),
            ) && m@ == "unknown track id "@ + dec(id as nat) && *final(self) == *old(self)),
            index_of_id(old(self).project.regions@, id) >= 0 ==> {
                let k = index_of_id(old(self).project.regions@, id);
                let before = old(self).project.regions@[k]@;
                &&& r is Ok
                &&& regions_view(final(self).project.regions@) == regions_view(
                    old(self).project.regions@,
                ).update(k, RegionView { title: clean_title(Some(title@)), ..before })
                &&& final(self).history() == recorded(
                    old(self).history(),
                    region_snapshot(old(self).session()),
                    final(self).session(),
                )
                &&& final(self).project.layers == old(self).project.layers
                &&& final(self).project.next_region_id == old(self).project.next_region_id
                &&& final(self).info == old(self).info
                &&& final(self).peaks == old(self).peaks
                &&& same_settings(final(self).project, old(self).project)
            },
            old(self).valid() ==> final(self).valid(),
    {
        let idx = match find_region(&self.project.regions, id) {
            Some(i) => i,
            None => {
                return Err(StillError::InvalidMarker(unknown_id("unknown track id ", id)));
            },
        };
        self.push_undo();
        let t = clean_title_exec(Some(String::from_str(title)));
        let mut region = self.project.regions.remove(idx);
        region.title = t;
        self.project.regions.insert(idx, region);
        proof {
            let old_rs = old(self).project.regions@;
            let k = idx as int;
            assert(regions_view(self.project.regions@) =~= regions_view(old_rs).update(
                k,
                RegionView { title: clean_title(Some(title@)), ..old_rs[k]@ },
            ));
            let n = self.project.regions@;
            assert forall|j: int| 0 <= j < n.len() && j != k implies #[trigger] n[j]
                == old_rs[j] by {}
        }
        Ok(())
    }
}

/// Latest end, among the first `n` regions other than `id`, that lies at
/// or before `own_start` (0 when there is none).
pub open spec fn prev_end(rs: Seq<Region>, id: u32, own_start: u64, n: int) -> u64
    decreases n,
{
    if n <= 0 {
        0
    } else {
        let p = prev_end(rs, id, own_start, n - 1);
        let r = rs[n - 1];
        if r.id != id && r.end <= own_start && r.end > p {
            r.end
        } else {
            p
        }
    }
}

/// Earliest start, among the first `n` regions other than `id`, that lies
/// at or after `own_end`.
pub open spec fn next_start(rs: Seq<Region>, id: u32, own_end: u64, n: int) -> Option<u64>
    decreases n,
{
    if n <= 0 {
        None
    } else {
        let p = next_start(rs, id, own_end, n - 1);
        let r = rs[n - 1];
        if r.id != id && r.start >= own_end && (p is None || r.start < p->0) {
            Some(r.start)
        } else {
            p
        }
    }
}

/// The range an edge of region `k` may move in: after the previous
/// region and leaving the minimum length (start), or leaving the minimum
/// length and before the next region or the end of the audio (end).
pub open spec fn edge_range(rs: Seq<Region>, k: int, edge: RegionEdge, dur: u64, ml: nat) -> (
    int,
    int,
) {
    let r = rs[k];
    match edge {
        RegionEdge::Start => (
            prev_end(rs, r.id, r.start, rs.len() as int) as int,
            if r.end >= ml {
                r.end - ml
            } else {
                0
            },
        ),
        RegionEdge::End => (
            r.start + ml,
            match next_start(rs, r.id, r.end, rs.len() as int) {
                Some(x) => x as int,
                None => dur as int,
            },
        ),
    }
}

/// `position.clamp(lo, hi)`.
pub open spec fn clamp(position: int, lo: int, hi: int) -> int {
    if position < lo {
        lo
    } else if position > hi {
        hi
    } else {
        position
    }
}

/// Region view `v` with the given edge moved to `p`.
pub open spec fn with_edge(v: RegionView, edge: RegionEdge, p: u64) -> RegionView {
    match edge {
        RegionEdge::Start => RegionView { start: p, ..v },
        RegionEdge::End => RegionView { end: p, ..v },
    }
}

pub const NO_ROOM_TO_MOVE: &'static str = "no room to move this marker";

proof fn lemma_prev_end(rs: Seq<Region>, id: u32, own_start: u64, n: int)
    requires
        0 <= n <= rs.len(),
    ensures
        prev_end(rs, id, own_start, n) <= own_start,
        forall|j: int|
            0 <= j < n && (#[trigger] rs[j]).id != id && rs[j].end <= own_start ==> rs[j].end
                <= prev_end(rs, id, own_start, n),
    decreases n,
{
    if n > 0 {
        lemma_prev_end(rs, id, own_start, n - 1);
    }
}

proof fn lemma_next_start(rs: Seq<Region>, id: u32, own_end: u64, n: int)
    requires
        0 <= n <= rs.len(),
    ensures
        next_start(rs, id, own_end, n) matches Some(x) ==> (x >= own_end && exists|j: int|
            0 <= j < n && (#[trigger] rs[j]).start == x && rs[j].id != id),
        forall|j: int|
            0 <= j < n && (#[trigger] rs[j]).id != id && rs[j].start >= own_end ==> (next_start(
                rs,
                id,
                own_end,
                n,
            ) matches Some(x) && x <= rs[j].start),
    decreases n,
{
    if n > 0 {
        lemma_next_start(rs, id, own_end, n - 1);
        let r = rs[n - 1];
        let p = next_start(rs, id, own_end, n - 1);
        if r.id != id && r.start >= own_end && (p is None || r.start < p->0) {
            assert(rs[n - 1].start == r.start);
        }
    }
}

/// Moving an edge within its range keeps valid regions valid.
proof fn lemma_move_keeps_valid(
    rs: Seq<Region>,
    k: int,
    edge: RegionEdge,
    p: u64,
    dur: u64,
    ml: nat,
    next_id: u32,
)
    requires
        regions_valid(rs, dur, ml, next_id),
        0 <= k < rs.len(),
        edge_range(rs, k, edge, dur, ml).0 <= p <= edge_range(rs, k, edge, dur, ml).1,
    ensures
        views_valid(
            regions_view(rs).update(k, with_edge(rs[k]@, edge, p)),
            dur,
            ml,
            next_id,
        ),
{
    let r = rs[k];
    let v = regions_view(rs).update(k, with_edge(rs[k]@, edge, p));
    lemma_prev_end(rs, r.id, r.start, rs.len() as int);
    lemma_next_start(rs, r.id, r.end, rs.len() as int);
    assert(v[k] == with_edge(r@, edge, p));
    assert forall|i: int| 0 <= i < v.len() implies (#[trigger] v[i]).start + ml <= v[i].end
        && v[i].end <= dur && v[i].id < next_id by {
        if i != k {
            assert(v[i] == rs[i]@);
        } else {
            match edge {
                RegionEdge::Start => {},
                RegionEdge::End => {
                    if let Some(x) = next_start(rs, r.id, r.end, rs.len() as int) {
                        let j = choose|j: int|
                            0 <= j < rs.len() && (#[trigger] rs[j]).start == x && rs[j].id != r.id;
                        assert(rs[j].start + ml <= rs[j].end);
                    }
                },
            }
        }
    }
    assert forall|i: int, j: int|
        0 <= i < v.len() && 0 <= j < v.len() && i != j implies apart(
        #[trigger] v[i].start,
        v[i].end,
        #[trigger] v[j].start,
        v[j].end,
    ) && v[i].id != v[j].id by {
        if i != k && j != k {
            assert(v[i] == rs[i]@ && v[j] == rs[j]@);
        } else {
            let o = if i == k {
                j
            } else {
                i
            };
            assert(v[o] == rs[o]@);
            assert(apart(rs[k].start, rs[k].end, rs[o].start, rs[o].end));
            assert(rs[o].id != rs[k].id);
        }
    }
}

impl ProjectState {
    /// Move one edge without touching the undo stack (live drag preview).
    /// The position is clamped to the neighboring regions, the end of the
    /// audio and the minimum track length; returns the final position.
    pub fn move_edge_preview(&mut self, id: u32, edge: RegionEdge, position: u64) -> (r: Result<
        u64,
        StillError,
    >)
        requires
            index_of_id(old(self).project.regions@, id) >= 0 ==> old(self).project.regions@[index_of_id(
                old(self).project.regions@,
                id,
            )].start + min_len(old(self).info.sample_rate) <= u64::MAX,
        ensures
            ({
                let rs = old(self).project.regions@;
                let k = index_of_id(rs, id);
                let range = edge_range(
                    rs,
                    k,
                    edge,
                    old(self).info.duration_samples,
                    min_len(old(self).info.sample_rate),
                );
                if k < 0 {
                    &&& r matches Err(StillError::InvalidMarker(m)) && m@ == "unknown track id "@
                        + dec(id as nat)
                    &&& *final(self) == *old(self)
                } else if range.0 > range.1 {
                    &&& r matches Err(StillError::InvalidMarker(m)) && m@ == NO_ROOM_TO_MOVE@
                    &&& *final(self) == *old(self)
                } else {
                    let p = clamp(position as int, range.0, range.1);
                    &&& r == Ok::<u64, StillError>(p as u64)
                    &&& regions_view(final(self).project.regions@) == regions_view(rs).update(
                        k,
                        with_edge(rs[k]@, edge, p as u64),
                    )
                    &&& final(self).project.layers == old(self).project.layers
                    &&& final(self).project.next_region_id == old(self).project.next_region_id
                    &&& final(self).info == old(self).info
                    &&& final(self).peaks == old(self).peaks
                    &&& same_settings(final(self).project, old(self).project)
                    &&& final(self).undo == old(self).undo
                    &&& final(self).redo == old(self).redo
                }
            }),
            old(self).valid() ==> final(self).valid(),
    {
        let ml = self.min_len();
        let dur = self.info.duration_samples;
        let idx = match find_region(&self.project.regions, id) {
            Some(i) => i,
            None => {
                return Err(StillError::InvalidMarker(unknown_id("unknown track id ", id)));
            },
        };
        let rs = &self.project.regions;
        let own_start = rs[idx].start;
        let own_end = rs[idx].end;
        let (lo, hi) = match edge {
            RegionEdge::Start => {
                let mut prev: u64 = 0;
                let mut i: usize = 0;
                while i < rs.len()
                    invariant
                        i <= rs@.len(),
                        rs@ == self.project.regions@,
                        prev == prev_end(rs@, id, own_start, i as int),
                    decreases rs@.len() - i,
                {
                    let r = &rs[i];
                    if r.id != id && r.end <= own_start && r.end > prev {
                        prev = r.end;
                    }
                    i += 1;
                }
                (prev, own_end.saturating_sub(ml))
            },
            RegionEdge::End => {
                let mut next: Option<u64> = None;
                let mut i: usize = 0;
                while i < rs.len()
                    invariant
                        i <= rs@.len(),
                        rs@ == self.project.regions@,
                        next == next_start(rs@, id, own_end, i as int),
                    decreases rs@.len() - i,
                {
                    let r = &rs[i];
                    let closer = match next {
                        None => true,
                        Some(x) => r.start < x,
                    };
                    if r.id != id && r.start >= own_end && closer {
                        next = Some(r.start);
                    }
                    i += 1;
                }
                let hi = match next {
                    Some(x) => x,
                    None => dur,
                };
                (own_start + ml, hi)
            },
        };
        if lo > hi {
            return Err(StillError::InvalidMarker(String::from_str(NO_ROOM_TO_MOVE)));
        }
        let clamped = if position < lo {
            lo
        } else if position > hi {
            hi
        } else {
            position
        };
        let mut region = self.project.regions.remove(idx);
        match edge {
            RegionEdge::Start => {
                region.start = clamped;
            },
            RegionEdge::End => {
                region.end = clamped;
            },
        }
        self.project.regions.insert(idx, region);
        proof {
            let old_rs = old(self).project.regions@;
            let k = idx as int;
            assert(regions_view(self.project.regions@) =~= regions_view(old_rs).update(
                k,
                with_edge(old_rs[k]@, edge, clamped),
            ));
            if old(self).valid() {
                lemma_move_keeps_valid(
                    old_rs,
                    k,
                    edge,
                    clamped,
                    dur,
                    min_len(self.info.sample_rate),
                    self.project.next_region_id,
                );
            }
            lemma_valid_views(
                self.project.regions@,
                dur,
                min_len(self.info.sample_rate),
                self.project.next_region_id,
            );
        }
        Ok(clamped)
    }
}

impl ProjectState {
    /// Move one edge of a region as a single undoable operation; clamping
    /// as `move_edge_preview`. A move that fails leaves the regions and the
    /// undo stack as they were (the redo stack is cleared).
    pub fn move_edge(&mut self, id: u32, edge: RegionEdge, position: u64) -> (r: Result<
        u64,
        StillError,
    >)
        requires
            index_of_id(old(self).project.regions@, id) >= 0 ==> old(self).project.regions@[index_of_id(
                old(self).project.regions@,
                id,
            )].start + min_len(old(self).info.sample_rate) <= u64::MAX,
        ensures
            ({
                let rs = old(self).project.regions@;
                let k = index_of_id(rs, id);
                let range = edge_range(
                    rs,
                    k,
                    edge,
                    old(self).info.duration_samples,
                    min_len(old(self).info.sample_rate),
                );
                if k < 0 || range.0 > range.1 {
                    &&& r is Err
                    &&& k < 0 ==> (r matches Err(StillError::InvalidMarker(m)) && m@
                        == "unknown track id "@ + dec(id as nat))
                    &&& k >= 0 ==> (r matches Err(StillError::InvalidMarker(m)) && m@
                        == NO_ROOM_TO_MOVE@)
                    &&& final(self).session() == old(self).session()
                    &&& final(self).history().undo == old(self).history().undo
                    &&& final(self).history().redo == Seq::<SnapshotView>::empty()
                } else {
                    let p = clamp(position as int, range.0, range.1);
                    &&& r == Ok::<u64, StillError>(p as u64)
                    &&& regions_view(final(self).project.regions@) == regions_view(rs).update(
                        k,
                        with_edge(rs[k]@, edge, p as u64),
                    )
                    &&& final(self).history() == recorded(
                        old(self).history(),
                        region_snapshot(old(self).session()),
                        final(self).session(),
                    )
                    &&& final(self).project.layers == old(self).project.layers
                    &&& final(self).info == old(self).info
                    &&& final(self).peaks == old(self).peaks
                }
            }),
            final(self).project.next_region_id == old(self).project.next_region_id,
            same_settings(final(self).project, old(self).project),
            old(self).valid() ==> final(self).valid(),
    {
        self.push_undo();
        match self.move_edge_preview(id, edge, position) {
            Ok(p) => Ok(p),
            Err(e) => {
                let ghost mid = self.history();
                self.undo();
                self.redo = Vec::new();
                proof {
                    assert(mid.undo.last() == region_snapshot(old(self).session()));
                    assert(mid.undo.drop_last() =~= old(self).history().undo);
                    assert(stack_view(self.redo@) =~= Seq::<SnapshotView>::empty());
                    lemma_valid_views(
                        self.project.regions@,
                        self.info.duration_samples,
                        min_len(self.info.sample_rate),
                        self.project.next_region_id,
                    );
                    lemma_valid_views(
                        old(self).project.regions@,
                        self.info.duration_samples,
                        min_len(self.info.sample_rate),
                        self.project.next_region_id,
                    );
                }
                Err(e)
            },
        }
    }
}

/// The regions a bulk add appends for the first `k` spans: each span
/// fitted against the existing regions and those added before it,
/// misfits skipped, ids counted up from `next_id`.
pub open spec fn bulk_added(
    existing: Seq<(u64, u64)>,
    spans: Seq<(RegionSpan, Option<Seq<char>>)>,
    k: int,
    dur: u64,
    ml: nat,
    next_id: u32,
) -> Seq<RegionView>
    decreases k,
{
    if k <= 0 {
        seq![]
    } else {
        let prev = bulk_added(existing, spans, k - 1, dur, ml, next_id);
        let sp = spans[k - 1];
        match fit_outcome(existing + view_bounds(prev), sp.0.start, sp.0.end, dur, ml) {
            Fit::Fits(s, e) => prev.push(new_region((next_id + prev.len()) as u32, s, e, sp.1)),
            _ => prev,
        }
    }
}

proof fn lemma_bulk_len(
    existing: Seq<(u64, u64)>,
    spans: Seq<(RegionSpan, Option<Seq<char>>)>,
    k: int,
    dur: u64,
    ml: nat,
    next_id: u32,
)
    requires
        0 <= k,
    ensures
        bulk_added(existing, spans, k, dur, ml, next_id).len() <= k,
    decreases k,
{
    if k > 0 {
        lemma_bulk_len(existing, spans, k - 1, dur, ml, next_id);
    }
}

/// The titled spans as plain values.
pub open spec fn titled_view(spans: Seq<(RegionSpan, Option<String>)>) -> Seq<
    (RegionSpan, Option<Seq<char>>),
> {
    spans.map_values(|p: (RegionSpan, Option<String>)| (p.0, opt_view(p.1)))
}

/// Spans without titles.
pub open spec fn untitled(spans: Seq<RegionSpan>) -> Seq<(RegionSpan, Option<Seq<char>>)> {
    spans.map_values(|p: RegionSpan| (p, None::<Seq<char>>))
}

impl ProjectState {
    /// Add several regions as one undoable operation. Spans that do not
    /// fit are skipped; returns how many were added.
    pub fn add_regions(&mut self, spans: &[RegionSpan]) -> (r: usize)
        requires
            old(self).project.next_region_id + spans@.len() < u32::MAX,
        ensures
            ({
                let added = bulk_added(
                    bounds(old(self).project.regions@),
                    untitled(spans@),
                    spans@.len() as int,
                    old(self).info.duration_samples,
                    min_len(old(self).info.sample_rate),
                    old(self).project.next_region_id,
                );
                &&& r == added.len()
                &&& regions_view(final(self).project.regions@) == regions_view(
                    old(self).project.regions@,
                ) + added
                &&& final(self).project.next_region_id == old(self).project.next_region_id + r
                &&& r > 0 ==> final(self).history() == recorded(
                    old(self).history(),
                    region_snapshot(old(self).session()),
                    final(self).session(),
                )
                &&& r == 0 ==> *final(self) == *old(self)
            }),
            final(self).project.layers == old(self).project.layers,
            final(self).info == old(self).info,
            final(self).peaks == old(self).peaks,
            same_settings(final(self).project, old(self).project),
            old(self).valid() ==> final(self).valid(),
    {
        let mut titled: Vec<(RegionSpan, Option<String>)> = Vec::new();
        let mut i: usize = 0;
        while i < spans.len()
            invariant
                i <= spans@.len(),
                titled@.len() == i,
                forall|k: int| 0 <= k < i ==> (#[trigger] titled@[k]).0 == spans@[k] && titled@[k].1 is None,
            decreases spans@.len() - i,
        {
            titled.push((spans[i], None));
            i += 1;
        }
        proof {
            assert(titled_view(titled@) =~= untitled(spans@));
        }
        self.add_regions_titled(&titled)
    }

    fn add_regions_titled(&mut self, spans: &Vec<(RegionSpan, Option<String>)>) -> (r: usize)
        requires
            old(self).project.next_region_id + spans@.len() < u32::MAX,
        ensures
            ({
                let added = bulk_added(
                    bounds(old(self).project.regions@),
                    titled_view(spans@),
                    spans@.len() as int,
                    old(self).info.duration_samples,
                    min_len(old(self).info.sample_rate),
                    old(self).project.next_region_id,
                );
                &&& r == added.len()
                &&& regions_view(final(self).project.regions@) == regions_view(
                    old(self).project.regions@,
                ) + added
                &&& final(self).project.next_region_id == old(self).project.next_region_id + r
                &&& r > 0 ==> final(self).history() == recorded(
                    old(self).history(),
                    region_snapshot(old(self).session()),
                    final(self).session(),
                )
                &&& r == 0 ==> *final(self) == *old(self)
            }),
            final(self).project.layers == old(self).project.layers,
            final(self).info == old(self).info,
            final(self).peaks == old(self).peaks,
            same_settings(final(self).project, old(self).project),
            old(self).valid() ==> final(self).valid(),
    {
        let before = copy_regions(&self.project.regions);
        let ghost old_rs = self.project.regions@;
        let ghost existing = bounds(old_rs);
        let ghost tv = titled_view(spans@);
        let ghost dur = self.info.duration_samples;
        let ghost ml = min_len(self.info.sample_rate);
        let ghost id0 = self.project.next_region_id;
        proof {
            lemma_valid_views(old_rs, dur, ml, id0);
        }
        let mut added: usize = 0;
        let mut i: usize = 0;
        while i < spans.len()
            invariant
                i <= spans@.len(),
                tv == titled_view(spans@),
                dur == self.info.duration_samples,
                ml == min_len(self.info.sample_rate),
                id0 + spans@.len() < u32::MAX,
                existing == bounds(old_rs),
                added == bulk_added(existing, tv, i as int, dur, ml, id0).len(),
                added <= i,
                regions_view(self.project.regions@) == regions_view(old_rs) + bulk_added(
                    existing,
                    tv,
                    i as int,
                    dur,
                    ml,
                    id0,
                ),
                self.project.next_region_id == id0 + added,
                views_valid(regions_view(old_rs), dur, ml, id0) ==> views_valid(
                    regions_view(self.project.regions@),
                    dur,
                    ml,
                    self.project.next_region_id,
                ),
                self.project.layers == old(self).project.layers,
                self.info == old(self).info,
                self.peaks == old(self).peaks,
                same_settings(self.project, old(self).project),
                self.undo == old(self).undo,
                self.redo == old(self).redo,
                self.project_path == old(self).project_path,
                added == 0 ==> *self == *old(self),
            decreases spans@.len() - i,
        {
            let ghost prev = bulk_added(existing, tv, i as int, dur, ml, id0);
            proof {
                assert(bounds(self.project.regions@) =~= existing + view_bounds(prev)) by {
                    let b = bounds(self.project.regions@);
                    let rv = regions_view(self.project.regions@);
                    let full = regions_view(old_rs) + prev;
                    assert(rv == full);
                    assert(regions_view(old_rs).len() == old_rs.len());
                    assert(rv.len() == b.len());
                    assert forall|j: int| 0 <= j < b.len() implies b[j] == (existing + view_bounds(
                        prev,
                    ))[j] by {
                        assert(rv[j] == self.project.regions@[j]@);
                        assert(rv[j] == full[j]);
                        if j < old_rs.len() {
                            assert(full[j] == old_rs[j]@);
                        } else {
                            assert(j - old_rs.len() < prev.len());
                            assert(full[j] == prev[j - old_rs.len()]);
                            assert(view_bounds(prev)[j - old_rs.len()] == (
                                prev[j - old_rs.len()].start,
                                prev[j - old_rs.len()].end,
                            ));
                        }
                    }
                }
                lemma_fit_outcome(
                    existing + view_bounds(prev),
                    spans@[i as int].0.start,
                    spans@[i as int].0.end,
                    dur,
                    ml,
                );
                assert(tv[i as int] == (spans@[i as int].0, opt_view(spans@[i as int].1)));
            }
            let span = spans[i].0;
            match self.fit_span(span.start, span.end) {
                Ok((s, e)) => {
                    let id = self.project.next_region_id;
                    self.project.next_region_id = id + 1;
                    let title = match &spans[i].1 {
                        Some(t) => Some(t.clone()),
                        None => None,
                    };
                    let region = Region::new(id, s, e, title);
                    let ghost cur = regions_view(self.project.regions@);
                    self.project.regions.push(region);
                    added += 1;
                    proof {
                        assert(regions_view(self.project.regions@) =~= cur.push(region@));
                        if views_valid(regions_view(old_rs), dur, ml, id0) {
                            assert forall|j: int| 0 <= j < cur.len() implies apart(
                                (#[trigger] cur[j]).start,
                                cur[j].end,
                                s,
                                e,
                            ) by {
                                assert(bounds(self.project.regions@.drop_last())[j] == (
                                    cur[j].start,
                                    cur[j].end,
                                ));
                                assert((existing + view_bounds(prev))[j] == (
                                    cur[j].start,
                                    cur[j].end,
                                ));
                            }
                            lemma_add_keeps_valid(cur, region@, dur, ml, id);
                        }
                    }
                },
                Err(_) => {},
            }
            i += 1;
            proof {
                assert(bulk_added(existing, tv, i as int, dur, ml, id0) == (match fit_outcome(
                    existing + view_bounds(prev),
                    tv[i - 1].0.start,
                    tv[i - 1].0.end,
                    dur,
                    ml,
                ) {
                    Fit::Fits(s, e) => prev.push(
                        new_region((id0 + prev.len()) as u32, s, e, tv[i - 1].1),
                    ),
                    _ => prev,
                }));
            }
        }
        if added > 0 {
            self.undo.push(Snapshot { regions: before, layers: None, audio: None });
            self.redo = Vec::new();
            proof {
                assert(stack_view(self.undo@) =~= stack_view(old(self).undo@).push(
                    region_snapshot(old(self).session()),
                ));
                assert(stack_view(self.redo@) =~= Seq::<SnapshotView>::empty());
            }
        }
        proof {
            lemma_valid_views(self.project.regions@, dur, ml, self.project.next_region_id);
        }
        added
    }
}

/// Index of the first entry for `key` in an override list, or -1.
pub open spec fn entry_index<T>(v: Seq<(u32, T)>, key: u32, i: int) -> int
    decreases v.len() - i,
{
    if i < 0 || i >= v.len() {
        -1
    } else if v[i].0 == key {
        i
    } else {
        entry_index(v, key, i + 1)
    }
}

/// The override for `key`, if any (the first entry wins).
pub open spec fn lookup<T>(v: Seq<(u32, T)>, key: u32) -> Option<T> {
    let i = entry_index(v, key, 0);
    if i >= 0 {
        Some(v[i].1)
    } else {
        None
    }
}

/// The list with the override for `key` set to `x`: the first entry for
/// `key` updated in place, or a new entry appended.
pub open spec fn put<T>(v: Seq<(u32, T)>, key: u32, x: T) -> Seq<(u32, T)> {
    let i = entry_index(v, key, 0);
    if i >= 0 {
        v.update(i, (key, x))
    } else {
        v.push((key, x))
    }
}

/// The list without any override for `key`.
pub open spec fn drop_key<T>(v: Seq<(u32, T)>, key: u32) -> Seq<(u32, T)>
    decreases v.len(),
{
    if v.len() == 0 {
        v
    } else if v.last().0 == key {
        drop_key(v.drop_last(), key)
    } else {
        drop_key(v.drop_last(), key).push(v.last())
    }
}

proof fn lemma_entry_index<T>(v: Seq<(u32, T)>, key: u32, i: int)
    requires
        0 <= i,
    ensures
        entry_index(v, key, i) == -1 || i <= entry_index(v, key, i) < v.len(),
        entry_index(v, key, i) >= 0 ==> v[entry_index(v, key, i)].0 == key,
        entry_index(v, key, i) >= 0 ==> forall|k: int|
            i <= k < entry_index(v, key, i) ==> (#[trigger] v[k]).0 != key,
        entry_index(v, key, i) < 0 ==> forall|k: int| i <= k < v.len() ==> (#[trigger] v[k]).0 != key,
    decreases v.len() - i,
{
    if i < v.len() && v[i].0 != key {
        lemma_entry_index(v, key, i + 1);
    }
}

/// Setting an override makes it the one looked up; clearing it leaves
/// none.
pub proof fn law_put_then_lookup<T>(v: Seq<(u32, T)>, key: u32, x: T)
    ensures
        lookup(put(v, key, x), key) == Some(x),
        lookup(drop_key(v, key), key) is None,
{
    lemma_entry_index(v, key, 0);
    let p = put(v, key, x);
    lemma_entry_index(p, key, 0);
    let i = entry_index(v, key, 0);
    if i < 0 {
        assert(p[v.len() as int].0 == key);
    } else {
        assert(p[i].0 == key);
    }
    lemma_drop_key_none(v, key);
    lemma_entry_index(drop_key(v, key), key, 0);
}

proof fn lemma_drop_key_none<T>(v: Seq<(u32, T)>, key: u32)
    ensures
        forall|k: int| 0 <= k < drop_key(v, key).len() ==> (#[trigger] drop_key(v, key)[k]).0 != key,
    decreases v.len(),
{
    if v.len() > 0 {
        lemma_drop_key_none(v.drop_last(), key);
        let d = drop_key(v.drop_last(), key);
        if v.last().0 != key {
            assert forall|k: int| 0 <= k < d.push(v.last()).len() implies (#[trigger] d.push(
                v.last(),
            )[k]).0 != key by {
                if k < d.len() {
                    assert(d.push(v.last())[k] == d[k]);
                }
            }
        }
    }
}

/// Look up the override for `key`.
pub fn get_entry<T: Copy>(v: &Vec<(u32, T)>, key: u32) -> (r: Option<T>)
    ensures
        r == lookup(v@, key),
{
    proof {
        lemma_entry_index(v@, key, 0);
    }
    let mut i: usize = 0;
    while i < v.len()
        invariant
            i <= v@.len(),
            entry_index(v@, key, i as int) == entry_index(v@, key, 0),
        decreases v@.len() - i,
    {
        if v[i].0 == key {
            return Some(v[i].1);
        }
        i += 1;
    }
    None
}

/// Set the override for `key`.
pub fn put_entry<T: Copy>(v: &mut Vec<(u32, T)>, key: u32, x: T)
    ensures
        final(v)@ == put(old(v)@, key, x),
{
    proof {
        lemma_entry_index(v@, key, 0);
    }
    let mut i: usize = 0;
    while i < v.len()
        invariant
            i <= v@.len(),
            v@ == old(v)@,
            entry_index(v@, key, i as int) == entry_index(v@, key, 0),
        decreases v@.len() - i,
    {
        if v[i].0 == key {
            v.set(i, (key, x));
            return ;
        }
        i += 1;
    }
    v.push((key, x));
}

/// Clear the override for `key`.
pub fn drop_entry<T: Copy>(v: &mut Vec<(u32, T)>, key: u32)
    ensures
        final(v)@ == drop_key(old(v)@, key),
{
    let mut out: Vec<(u32, T)> = Vec::new();
    let mut i: usize = 0;
    while i < v.len()
        invariant
            i <= v@.len(),
            v@ == old(v)@,
            out@ == drop_key(v@.take(i as int), key),
        decreases v@.len() - i,
    {
        let e = v[i];
        if e.0 != key {
            out.push(e);
        }
        i += 1;
        proof {
            assert(v@.take(i as int).drop_last() =~= v@.take(i - 1));
        }
    }
    proof {
        assert(v@.take(v@.len() as int) =~= v@);
    }
    *v = out;
}

/// The layer with `id` (the first one when ids repeat), or -1.
pub open spec fn layer_index_of(ls: Seq<Layer>, id: u32) -> int
    decreases ls.len(),
{
    layer_from(ls, id, 0)
}

pub open spec fn layer_from(ls: Seq<Layer>, id: u32, i: int) -> int
    decreases ls.len() - i,
{
    if i < 0 || i >= ls.len() {
        -1
    } else if ls[i].id == id {
        i
    } else {
        layer_from(ls, id, i + 1)
    }
}

proof fn lemma_layer_from(ls: Seq<Layer>, id: u32, i: int)
    requires
        0 <= i,
    ensures
        layer_from(ls, id, i) == -1 || i <= layer_from(ls, id, i) < ls.len(),
        layer_from(ls, id, i) >= 0 ==> ls[layer_from(ls, id, i)].id == id,
        layer_from(ls, id, i) < 0 ==> forall|k: int| i <= k < ls.len() ==> (#[trigger] ls[k]).id != id,
    decreases ls.len() - i,
{
    if i < ls.len() && ls[i].id != id {
        lemma_layer_from(ls, id, i + 1);
    }
}

/// Which override list a per-track flag edit touches.
pub open spec fn flag_list(r: RegionView, solo_flag: bool) -> Seq<(u32, bool)> {
    if solo_flag {
        r.solo_overrides
    } else {
        r.mute_overrides
    }
}

/// Region view `r` with its mute (or solo) overrides replaced by `l`.
pub open spec fn with_flags(r: RegionView, solo_flag: bool, l: Seq<(u32, bool)>) -> RegionView {
    if solo_flag {
        RegionView { solo_overrides: l, ..r }
    } else {
        RegionView { mute_overrides: l, ..r }
    }
}

/// An override list edit: set to `Some(x)`, or clear with `None`.
pub open spec fn edit_list<T>(v: Seq<(u32, T)>, key: u32, value: Option<T>) -> Seq<(u32, T)> {
    match value {
        Some(x) => put(v, key, x),
        None => drop_key(v, key),
    }
}

impl ProjectState {
    /// Position of the layer with `id`.
    pub fn layer_index(&self, id: u32) -> (r: Result<usize, StillError>)
        ensures
            layer_index_of(self.project.layers@, id) < 0 ==> (r matches Err(
                StillError::InvalidMarker(m),
            ) && m@ == "unknown layer id "@ + dec(id as nat)),
            layer_index_of(self.project.layers@, id) >= 0 ==> (r matches Ok(i) && i
                == layer_index_of(self.project.layers@, id) && i < self.project.layers@.len()
                && self.project.layers@[i as int].id == id),
    {
        proof {
            lemma_layer_from(self.project.layers@, id, 0);
        }
        let ls = &self.project.layers;
        let mut i: usize = 0;
        while i < ls.len()
            invariant
                i <= ls@.len(),
                ls@ == self.project.layers@,
                layer_from(ls@, id, i as int) == layer_index_of(ls@, id),
            decreases ls@.len() - i,
        {
            if ls[i].id == id {
                return Ok(i);
            }
            i += 1;
        }
        Err(StillError::InvalidMarker(unknown_id("unknown layer id ", id)))
    }

    /// Set or clear (None) a per-track mute (or, with `solo_flag`, solo)
    /// override for one layer; one undo step.
    pub fn set_track_layer_flag(
        &mut self,
        track_id: u32,
        layer_id: u32,
        solo_flag: bool,
        value: Option<bool>,
    ) -> (r: Result<(), StillError>)
        ensures
            ({
                let rs = old(self).project.regions@;
                let k = index_of_id(rs, track_id);
                if layer_index_of(old(self).project.layers@, layer_id) < 0 {
                    &&& r matches Err(StillError::InvalidMarker(m)) && m@ == "unknown layer id "@
                        + dec(layer_id as nat)
                    &&& *final(self) == *old(self)
                } else if k < 0 {
                    &&& r matches Err(StillError::InvalidMarker(m)) && m@ == "unknown track id "@
                        + dec(track_id as nat)
                    &&& *final(self) == *old(self)
                } else {
                    &&& r is Ok
                    &&& regions_view(final(self).project.regions@) == regions_view(rs).update(
                        k,
                        with_flags(
                            rs[k]@,
                            solo_flag,
                            edit_list(flag_list(rs[k]@, solo_flag), layer_id, value),
                        ),
                    )
                    &&& final(self).history() == recorded(
                        old(self).history(),
                        region_snapshot(old(self).session()),
                        final(self).session(),
                    )
                    &&& final(self).project.layers == old(self).project.layers
                    &&& final(self).project.next_region_id == old(self).project.next_region_id
                    &&& final(self).info == old(self).info
                    &&& final(self).peaks == old(self).peaks
                    &&& same_settings(final(self).project, old(self).project)
                }
            }),
            old(self).valid() ==> final(self).valid(),
    {
        match self.layer_index(layer_id) {
            Ok(_) => {},
            Err(e) => {
                return Err(e);
            },
        }
        let idx = match find_region(&self.project.regions, track_id) {
            Some(i) => i,
            None => {
                return Err(StillError::InvalidMarker(unknown_id("unknown track id ", track_id)));
            },
        };
        self.push_undo();
        let mut region = self.project.regions.remove(idx);
        if solo_flag {
            match value {
                Some(v) => put_entry(&mut region.solo_overrides, layer_id, v),
                None => drop_entry(&mut region.solo_overrides, layer_id),
            }
        } else {
            match value {
                Some(v) => put_entry(&mut region.mute_overrides, layer_id, v),
                None => drop_entry(&mut region.mute_overrides, layer_id),
            }
        }
        self.project.regions.insert(idx, region);
        proof {
            let old_rs = old(self).project.regions@;
            let k = idx as int;
            assert(regions_view(self.project.regions@) =~= regions_view(old_rs).update(
                k,
                with_flags(
                    old_rs[k]@,
                    solo_flag,
                    edit_list(flag_list(old_rs[k]@, solo_flag), layer_id, value),
                ),
            ));
            let n = self.project.regions@;
            assert forall|j: int| 0 <= j < n.len() && j != k implies #[trigger] n[j]
                == old_rs[j] by {}
        }
        Ok(())
    }

    /// Set (or clear, with `None`) a per-track gain override for one layer,
    /// given as the bit pattern of the `f32` gain in dB (already clamped by
    /// the caller); one undo step. Returns the value applied.
    pub fn set_track_layer_gain(&mut self, track_id: u32, layer_id: u32, gain_db_bits: Option<u32>) -> (r: Result<
        Option<u32>,
        StillError,
    >)
        ensures
            ({
                let rs = old(self).project.regions@;
                let k = index_of_id(rs, track_id);
                if layer_index_of(old(self).project.layers@, layer_id) < 0 {
                    &&& r matches Err(StillError::InvalidMarker(m)) && m@ == "unknown layer id "@
                        + dec(layer_id as nat)
                    &&& *final(self) == *old(self)
                } else if k < 0 {
                    &&& r matches Err(StillError::InvalidMarker(m)) && m@ == "unknown track id "@
                        + dec(track_id as nat)
                    &&& *final(self) == *old(self)
                } else {
                    &&& r == Ok::<Option<u32>, StillError>(gain_db_bits)
                    &&& regions_view(final(self).project.regions@) == regions_view(rs).update(
                        k,
                        RegionView {
                            gain_overrides: edit_list(rs[k]@.gain_overrides, layer_id, gain_db_bits),
                            ..rs[k]@
                        },
                    )
                    &&& final(self).history() == recorded(
                        old(self).history(),
                        region_snapshot(old(self).session()),
                        final(self).session(),
                    )
                    &&& final(self).project.layers == old(self).project.layers
                    &&& final(self).project.next_region_id == old(self).project.next_region_id
                    &&& final(self).info == old(self).info
                    &&& final(self).peaks == old(self).peaks
                    &&& same_settings(final(self).project, old(self).project)
                }
            }),
            old(self).valid() ==> final(self).valid(),
    {
        match self.layer_index(layer_id) {
            Ok(_) => {},
            Err(e) => {
                return Err(e);
            },
        }
        let idx = match find_region(&self.project.regions, track_id) {
            Some(i) => i,
            None => {
                return Err(StillError::InvalidMarker(unknown_id("unknown track id ", track_id)));
            },
        };
        self.push_undo();
        let mut region = self.project.regions.remove(idx);
        match gain_db_bits {
            Some(g) => put_entry(&mut region.gain_overrides, layer_id, g),
            None => drop_entry(&mut region.gain_overrides, layer_id),
        }
        self.project.regions.insert(idx, region);
        proof {
            let old_rs = old(self).project.regions@;
            let k = idx as int;
            assert(regions_view(self.project.regions@) =~= regions_view(old_rs).update(
                k,
                RegionView {
                    gain_overrides: edit_list(old_rs[k]@.gain_overrides, layer_id, gain_db_bits),
                    ..old_rs[k]@
                },
            ));
            let n = self.project.regions@;
            assert forall|j: int| 0 <= j < n.len() && j != k implies #[trigger] n[j]
                == old_rs[j] by {}
        }
        Ok(gain_db_bits)
    }

    /// Set (or clear, with an empty string) a track's ISRC. The value is
    /// validated and normalized (separators stripped, uppercased); an edit
    /// that changes it is one undo step.
    pub fn set_track_isrc(&mut self, id: u32, isrc: &str) -> (r: Result<(), StillError>)
        ensures
            ({
                let n = isrc_chars(isrc@);
                let rs = old(self).project.regions@;
                let k = index_of_id(rs, id);
                if n.len() > 0 && !isrc_shape(n) {
                    &&& r matches Err(StillError::InvalidProject(m)) && m@ == isrc_error(isrc@)
                    &&& *final(self) == *old(self)
                } else if k < 0 {
                    &&& r matches Err(StillError::InvalidMarker(m)) && m@ == "unknown track id "@
                        + dec(id as nat)
                    &&& *final(self) == *old(self)
                } else if rs[k].isrc@ == n {
                    &&& r is Ok
                    &&& *final(self) == *old(self)
                } else {
                    &&& r is Ok
                    &&& regions_view(final(self).project.regions@) == regions_view(rs).update(
                        k,
                        RegionView { isrc: n, ..rs[k]@ },
                    )
                    &&& final(self).history() == recorded(
                        old(self).history(),
                        region_snapshot(old(self).session()),
                        final(self).session(),
                    )
                    &&& final(self).project.layers == old(self).project.layers
                    &&& final(self).project.next_region_id == old(self).project.next_region_id
                    &&& final(self).info == old(self).info
                    &&& final(self).peaks == old(self).peaks
                    &&& same_settings(final(self).project, old(self).project)
                }
            }),
            old(self).valid() ==> final(self).valid(),
    {
        let normalized = match normalize_isrc(isrc) {
            Ok(Some(s)) => s,
            Ok(None) => String::new(),
            Err(m) => {
                return Err(StillError::InvalidProject(m));
            },
        };
        proof {
            assert(normalized@ =~= isrc_chars(isrc@));
        }
        let idx = match find_region(&self.project.regions, id) {
            Some(i) => i,
            None => {
                return Err(StillError::InvalidMarker(unknown_id("unknown track id ", id)));
            },
        };
        if self.project.regions[idx].isrc == normalized {
            return Ok(());
        }
        self.push_undo();
        let mut region = self.project.regions.remove(idx);
        region.isrc = normalized;
        self.project.regions.insert(idx, region);
        proof {
            let old_rs = old(self).project.regions@;
            let k = idx as int;
            assert(regions_view(self.project.regions@) =~= regions_view(old_rs).update(
                k,
                RegionView { isrc: isrc_chars(isrc@), ..old_rs[k]@ },
            ));
            let n = self.project.regions@;
            assert forall|j: int| 0 <= j < n.len() && j != k implies #[trigger] n[j]
                == old_rs[j] by {}
        }
        Ok(())
    }
}

impl ProjectState {
    /// Set a layer's session solo.
    pub fn set_layer_solo(&mut self, id: u32, solo: bool) -> (r: Result<(), StillError>)
        ensures
            ({
                let k = layer_index_of(old(self).project.layers@, id);
                if k < 0 {
                    &&& r matches Err(StillError::InvalidMarker(m)) && m@ == "unknown layer id "@
                        + dec(id as nat)
                    &&& *final(self) == *old(self)
                } else {
                    &&& r == Ok::<(), StillError>(())
                    &&& layers_view(final(self).project.layers@) == layers_view(
                        old(self).project.layers@,
                    ).update(k, LayerData { solo: solo, ..old(self).project.layers@[k]@ })
                    &&& final(self).project.regions == old(self).project.regions
                    &&& final(self).project.next_region_id == old(self).project.next_region_id
                    &&& final(self).info == old(self).info
                    &&& final(self).peaks == old(self).peaks
                    &&& same_settings(final(self).project, old(self).project)
                    &&& final(self).undo == old(self).undo
                    &&& final(self).redo == old(self).redo
                }
            }),
    {
        let idx = match self.layer_index(id) {
            Ok(i) => i,
            Err(e) => {
                return Err(e);
            },
        };
        let mut layer = self.project.layers.remove(idx);
        layer.solo = solo;
        self.project.layers.insert(idx, layer);
        proof {
            let old_ls = old(self).project.layers@;
            let k = idx as int;
            assert(layers_view(self.project.layers@) =~= layers_view(old_ls).update(
                k,
                LayerData { solo: solo, ..old_ls[k]@ },
            ));
        }
        Ok(())
    }

    /// Set a layer's session mute.
    pub fn set_layer_muted(&mut self, id: u32, muted: bool) -> (r: Result<(), StillError>)
        ensures
            ({
                let k = layer_index_of(old(self).project.layers@, id);
                if k < 0 {
                    &&& r matches Err(StillError::InvalidMarker(m)) && m@ == "unknown layer id "@
                        + dec(id as nat)
                    &&& *final(self) == *old(self)
                } else {
                    &&& r == Ok::<(), StillError>(())
                    &&& layers_view(final(self).project.layers@) == layers_view(
                        old(self).project.layers@,
                    ).update(k, LayerData { muted: muted, ..old(self).project.layers@[k]@ })
                    &&& final(self).project.regions == old(self).project.regions
                    &&& final(self).project.next_region_id == old(self).project.next_region_id
                    &&& final(self).info == old(self).info
                    &&& final(self).peaks == old(self).peaks
                    &&& same_settings(final(self).project, old(self).project)
                    &&& final(self).undo == old(self).undo
                    &&& final(self).redo == old(self).redo
                }
            }),
    {
        let idx = match self.layer_index(id) {
            Ok(i) => i,
            Err(e) => {
                return Err(e);
            },
        };
        let mut layer = self.project.layers.remove(idx);
        layer.muted = muted;
        self.project.layers.insert(idx, layer);
        proof {
            let old_ls = old(self).project.layers@;
            let k = idx as int;
            assert(layers_view(self.project.layers@) =~= layers_view(old_ls).update(
                k,
                LayerData { muted: muted, ..old_ls[k]@ },
            ));
        }
        Ok(())
    }

    /// Show a layer collapsed (a display preference persisted in the project).
    pub fn set_layer_collapsed(&mut self, id: u32, collapsed: bool) -> (r: Result<(), StillError>)
        ensures
            ({
                let k = layer_index_of(old(self).project.layers@, id);
                if k < 0 {
                    &&& r matches Err(StillError::InvalidMarker(m)) && m@ == "unknown layer id "@
                        + dec(id as nat)
                    &&& *final(self) == *old(self)
                } else {
                    &&& r == Ok::<(), StillError>(())
                    &&& layers_view(final(self).project.layers@) == layers_view(
                        old(self).project.layers@,
                    ).update(k, LayerData { collapsed: collapsed, ..old(self).project.layers@[k]@ })
                    &&& final(self).project.regions == old(self).project.regions
                    &&& final(self).project.next_region_id == old(self).project.next_region_id
                    &&& final(self).info == old(self).info
                    &&& final(self).peaks == old(self).peaks
                    &&& same_settings(final(self).project, old(self).project)
                    &&& final(self).undo == old(self).undo
                    &&& final(self).redo == old(self).redo
                }
            }),
    {
        let idx = match self.layer_index(id) {
            Ok(i) => i,
            Err(e) => {
                return Err(e);
            },
        };
        let mut layer = self.project.layers.remove(idx);
        layer.collapsed = collapsed;
        self.project.layers.insert(idx, layer);
        proof {
            let old_ls = old(self).project.layers@;
            let k = idx as int;
            assert(layers_view(self.project.layers@) =~= layers_view(old_ls).update(
                k,
                LayerData { collapsed: collapsed, ..old_ls[k]@ },
            ));
        }
        Ok(())
    }

    /// Set a layer's mix gain, given as the bit pattern of the `f32` gain in dB (already clamped by the caller); returns the value applied.
    pub fn set_layer_gain(&mut self, id: u32, gain_db_bits: u32) -> (r: Result<u32, StillError>)
        ensures
            ({
                let k = layer_index_of(old(self).project.layers@, id);
                if k < 0 {
                    &&& r matches Err(StillError::InvalidMarker(m)) && m@ == "unknown layer id "@
                        + dec(id as nat)
                    &&& *final(self) == *old(self)
                } else {
                    &&& r == Ok::<u32, StillError>(gain_db_bits)
                    &&& layers_view(final(self).project.layers@) == layers_view(
                        old(self).project.layers@,
                    ).update(k, LayerData { gain_db_bits: gain_db_bits, ..old(self).project.layers@[k]@ })
                    &&& final(self).project.regions == old(self).project.regions
                    &&& final(self).project.next_region_id == old(self).project.next_region_id
                    &&& final(self).info == old(self).info
                    &&& final(self).peaks == old(self).peaks
                    &&& same_settings(final(self).project, old(self).project)
                    &&& final(self).undo == old(self).undo
                    &&& final(self).redo == old(self).redo
                }
            }),
    {
        let idx = match self.layer_index(id) {
            Ok(i) => i,
            Err(e) => {
                return Err(e);
            },
        };
        let mut layer = self.project.layers.remove(idx);
        layer.gain_db_bits = gain_db_bits;
        self.project.layers.insert(idx, layer);
        proof {
            let old_ls = old(self).project.layers@;
            let k = idx as int;
            assert(layers_view(self.project.layers@) =~= layers_view(old_ls).update(
                k,
                LayerData { gain_db_bits: gain_db_bits, ..old_ls[k]@ },
            ));
        }
        Ok(gain_db_bits)
    }

    /// Set (or clear, with a blank name) a layer's display name.
    pub fn rename_layer(&mut self, id: u32, name: &str) -> (r: Result<(), StillError>)
        ensures
            ({
                let k = layer_index_of(old(self).project.layers@, id);
                if k < 0 {
                    &&& r matches Err(StillError::InvalidMarker(m)) && m@ == "unknown layer id "@
                        + dec(id as nat)
                    &&& *final(self) == *old(self)
                } else {
                    &&& r is Ok
                    &&& layers_view(final(self).project.layers@) == layers_view(
                        old(self).project.layers@,
                    ).update(
                        k,
                        LayerData {
                            custom_name: clean_title(Some(name@)),
                            ..old(self).project.layers@[k]@
                        },
                    )
                    &&& final(self).project.regions == old(self).project.regions
                    &&& final(self).project.next_region_id == old(self).project.next_region_id
                    &&& final(self).info == old(self).info
                    &&& final(self).peaks == old(self).peaks
                    &&& same_settings(final(self).project, old(self).project)
                    &&& final(self).undo == old(self).undo
                    &&& final(self).redo == old(self).redo
                }
            }),
    {
        let idx = match self.layer_index(id) {
            Ok(i) => i,
            Err(e) => {
                return Err(e);
            },
        };
        let cleaned = clean_title_exec(Some(String::from_str(name)));
        let mut layer = self.project.layers.remove(idx);
        layer.custom_name = cleaned;
        self.project.layers.insert(idx, layer);
        proof {
            let old_ls = old(self).project.layers@;
            let k = idx as int;
            assert(layers_view(self.project.layers@) =~= layers_view(old_ls).update(
                k,
                LayerData { custom_name: clean_title(Some(name@)), ..old_ls[k]@ },
            ));
        }
        Ok(())
    }
}

/// `a.saturating_sub(b)`.
pub open spec fn sat_sub(a: u64, b: u64) -> nat {
    if a >= b {
        (a - b) as nat
    } else {
        0
    }
}

/// Where the ripple of removing `[s, e)` moves a timeline position:
/// positions before the span stay, positions inside collapse to `s`,
/// positions after shift left by the span's length.
pub open spec fn ripple_pos(x: u64, s: u64, e: u64) -> u64 {
    if x <= s {
        x
    } else if x < e {
        s
    } else {
        (x - (e - s)) as u64
    }
}

/// One region after removing `[s, e)`: regions before stay, regions
/// inside disappear, regions after shift left, straddlers are trimmed,
/// and a trim leaving less than `ml` drops the region.
pub open spec fn ripple_one(r: RegionView, s: u64, e: u64, ml: nat) -> Option<RegionView> {
    let d = e - s;
    if r.end <= s {
        Some(r)
    } else if r.start >= e {
        Some(RegionView { start: (r.start - d) as u64, end: (r.end - d) as u64, ..r })
    } else if r.start >= s && r.end <= e {
        None
    } else {
        let ns: u64 = if r.start < s && r.end <= e {
            r.start
        } else if r.start >= s {
            s
        } else {
            r.start
        };
        let ne: u64 = if r.start < s && r.end <= e {
            s
        } else {
            (r.end - d) as u64
        };
        if sat_sub(ne, ns) >= ml {
            Some(RegionView { start: ns, end: ne, ..r })
        } else {
            None
        }
    }
}

/// Shifting the region left by the span's length does not underflow (it
/// can only for an inverted region lying after the span).
pub open spec fn ripple_fits(r: Region, s: u64, e: u64) -> bool {
    r.end <= s || r.start < e || r.end >= e - s
}

/// The regions after removing `[s, e)`, in their order.
pub open spec fn rippled(rs: Seq<RegionView>, s: u64, e: u64, ml: nat) -> Seq<RegionView>
    decreases rs.len(),
{
    if rs.len() == 0 {
        rs
    } else {
        let p = rippled(rs.drop_last(), s, e, ml);
        match ripple_one(rs.last(), s, e, ml) {
            Some(x) => p.push(x),
            None => p,
        }
    }
}

/// Region views pairwise apart.
pub open spec fn all_apart(rs: Seq<RegionView>) -> bool {
    forall|i: int, j: int|
        0 <= i < rs.len() && 0 <= j < rs.len() && i != j ==> apart(
            #[trigger] rs[i].start,
            rs[i].end,
            #[trigger] rs[j].start,
            rs[j].end,
        )
}

proof fn lemma_ripple_image(r: RegionView, s: u64, e: u64, ml: nat)
    requires
        s <= e,
        r.start <= r.end,
    ensures
        ripple_one(r, s, e, ml) matches Some(x) ==> (x.start == ripple_pos(r.start, s, e) && x.end
            == ripple_pos(r.end, s, e) && x.id == r.id),
{
}

proof fn lemma_ripple_pos_mono(a: u64, b: u64, s: u64, e: u64)
    requires
        s <= e,
        a <= b,
    ensures
        ripple_pos(a, s, e) <= ripple_pos(b, s, e),
{
}

proof fn lemma_rippled_origin(rs: Seq<RegionView>, s: u64, e: u64, ml: nat)
    requires
        s <= e,
        forall|i: int| 0 <= i < rs.len() ==> (#[trigger] rs[i]).start <= rs[i].end,
    ensures
        forall|k: int|
            0 <= k < rippled(rs, s, e, ml).len() ==> exists|j: int|
                0 <= j < rs.len() && (#[trigger] rippled(rs, s, e, ml)[k]).start == ripple_pos(
                    rs[j].start,
                    s,
                    e,
                ) && rippled(rs, s, e, ml)[k].end == ripple_pos(rs[j].end, s, e),
        rippled(rs, s, e, ml).len() <= rs.len(),
    decreases rs.len(),
{
    if rs.len() > 0 {
        let d = rs.drop_last();
        assert forall|i: int| 0 <= i < d.len() implies (#[trigger] d[i]).start <= d[i].end by {
            assert(d[i] == rs[i]);
        }
        lemma_rippled_origin(d, s, e, ml);
        lemma_ripple_image(rs.last(), s, e, ml);
        let p = rippled(d, s, e, ml);
        let out = rippled(rs, s, e, ml);
        assert forall|k: int| 0 <= k < out.len() implies exists|j: int|
            0 <= j < rs.len() && (#[trigger] out[k]).start == ripple_pos(rs[j].start, s, e)
                && out[k].end == ripple_pos(rs[j].end, s, e) by {
            if k < p.len() {
                assert(out[k] == p[k]);
                let j = choose|j: int|
                    0 <= j < d.len() && (#[trigger] p[k]).start == ripple_pos(d[j].start, s, e)
                        && p[k].end == ripple_pos(d[j].end, s, e);
                assert(d[j] == rs[j]);
            } else {
                assert(rs[rs.len() - 1] == rs.last());
            }
        }
    }
}

/// Rippling keeps regions that did not overlap from overlapping: the
/// removal maps every position monotonically, and each kept region is the
/// image of its old bounds.
pub proof fn law_ripple_keeps_apart(rs: Seq<RegionView>, s: u64, e: u64, ml: nat)
    requires
        s <= e,
        forall|i: int| 0 <= i < rs.len() ==> (#[trigger] rs[i]).start <= rs[i].end,
        all_apart(rs),
    ensures
        all_apart(rippled(rs, s, e, ml)),
    decreases rs.len(),
{
    if rs.len() > 0 {
        let d = rs.drop_last();
        assert forall|i: int| 0 <= i < d.len() implies (#[trigger] d[i]).start <= d[i].end by {
            assert(d[i] == rs[i]);
        }
        assert forall|i: int, j: int|
            0 <= i < d.len() && 0 <= j < d.len() && i != j implies apart(
            #[trigger] d[i].start,
            d[i].end,
            #[trigger] d[j].start,
            d[j].end,
        ) by {
            assert(d[i] == rs[i] && d[j] == rs[j]);
        }
        law_ripple_keeps_apart(d, s, e, ml);
        lemma_rippled_origin(d, s, e, ml);
        let last = rs.last();
        lemma_ripple_image(last, s, e, ml);
        let p = rippled(d, s, e, ml);
        if let Some(x) = ripple_one(last, s, e, ml) {
            let out = p.push(x);
            assert forall|i: int, j: int|
                0 <= i < out.len() && 0 <= j < out.len() && i != j implies apart(
                #[trigger] out[i].start,
                out[i].end,
                #[trigger] out[j].start,
                out[j].end,
            ) by {
                if i < p.len() && j < p.len() {
                    assert(out[i] == p[i] && out[j] == p[j]);
                } else {
                    let k = if i < p.len() {
                        i
                    } else {
                        j
                    };
                    assert(out[k] == p[k]);
                    let m = choose|m: int|
                        0 <= m < d.len() && (#[trigger] p[k]).start == ripple_pos(d[m].start, s, e)
                            && p[k].end == ripple_pos(d[m].end, s, e);
                    assert(d[m] == rs[m]);
                    assert(rs[rs.len() - 1] == last);
                    assert(apart(rs[m].start, rs[m].end, last.start, last.end));
                    if rs[m].end <= last.start {
                        lemma_ripple_pos_mono(rs[m].end, last.start, s, e);
                    } else {
                        lemma_ripple_pos_mono(last.end, rs[m].start, s, e);
                    }
                }
            }
        }
    }
}

/// Ripple regions after removing the span `[s, e)`: regions before stay,
/// regions inside disappear, regions after shift left, straddlers are
/// trimmed, and any trim leaving less than `min_len` drops the region.
pub fn ripple_regions(regions: &mut Vec<Region>, s: u64, e: u64, min_len: u64)
    requires
        s <= e,
        forall|i: int| 0 <= i < old(regions)@.len() ==> ripple_fits(#[trigger] old(regions)@[i], s, e),
    ensures
        regions_view(final(regions)@) == rippled(regions_view(old(regions)@), s, e, min_len as nat),
{
    let d = e - s;
    let mut out: Vec<Region> = Vec::new();
    let mut src: Vec<Region> = Vec::new();
    std::mem::swap(&mut src, regions);
    let ghost orig = src@;
    let mut rev: Vec<Region> = Vec::new();
    assert(orig == old(regions)@);
    while src.len() > 0
        invariant
            src@.len() + rev@.len() == orig.len(),
            src@ == orig.take(src@.len() as int),
            forall|k: int| 0 <= k < rev@.len() ==> #[trigger] rev@[k] == orig[orig.len() - 1 - k],
        decreases src@.len(),
    {
        let r = src.pop().unwrap();
        rev.push(r);
        proof {
            assert(src@ =~= orig.take(src@.len() as int));
        }
    }
    let ghost n = orig.len();
    while rev.len() > 0
        invariant
            rev@.len() <= n == orig.len(),
            forall|k: int| 0 <= k < rev@.len() ==> #[trigger] rev@[k] == orig[n - 1 - k],
            d == e - s,
            s <= e,
            forall|k: int| 0 <= k < orig.len() ==> ripple_fits(#[trigger] orig[k], s, e),
            regions_view(out@) == rippled(
                regions_view(orig).take(n - rev@.len()),
                s,
                e,
                min_len as nat,
            ),
        decreases rev@.len(),
    {
        let mut r = rev.pop().unwrap();
        let ghost i = n - 1 - rev@.len();
        let ghost rv = r@;
        let keep: bool = if r.end <= s {
            true
        } else if r.start >= e {
            r.start = r.start - d;
            r.end = r.end - d;
            true
        } else if r.start >= s && r.end <= e {
            false
        } else {
            if r.start < s && r.end <= e {
                r.end = s;
            } else if r.start >= s {
                r.start = s;
                r.end = r.end - d;
            } else {
                r.end = r.end - d;
            }
            r.end.saturating_sub(r.start) >= min_len
        };
        proof {
            let vs = regions_view(orig);
            assert(vs[i] == rv);
            assert(vs.take(i + 1).drop_last() =~= vs.take(i));
            assert(vs.take(i + 1).last() == rv);
            if keep {
                assert(ripple_one(rv, s, e, min_len as nat) == Some(r@));
            } else {
                assert(ripple_one(rv, s, e, min_len as nat) is None);
            }
        }
        if keep {
            let ghost before = out@;
            out.push(r);
            proof {
                assert(regions_view(out@) =~= regions_view(before).push(r@));
            }
        }
    }
    proof {
        assert(regions_view(orig).take(n as int) =~= regions_view(orig));
    }
    *regions = out;
}

/// One region clamped to a timeline of `dur` samples.
pub open spec fn clamp_region(r: RegionView, dur: u64) -> RegionView {
    RegionView {
        start: if r.start <= dur {
            r.start
        } else {
            dur
        },
        end: if r.end <= dur {
            r.end
        } else {
            dur
        },
        ..r
    }
}

/// The regions clamped to `dur` samples, those shorter than `ml` dropped.
pub open spec fn sanitized(rs: Seq<RegionView>, dur: u64, ml: nat) -> Seq<RegionView>
    decreases rs.len(),
{
    if rs.len() == 0 {
        rs
    } else {
        let p = sanitized(rs.drop_last(), dur, ml);
        let c = clamp_region(rs.last(), dur);
        if sat_sub(c.end, c.start) >= ml {
            p.push(c)
        } else {
            p
        }
    }
}

proof fn lemma_sanitized_fit(rs: Seq<RegionView>, dur: u64, ml: nat)
    requires
        ml >= 1,
    ensures
        forall|k: int|
            0 <= k < sanitized(rs, dur, ml).len() ==> (#[trigger] sanitized(rs, dur, ml)[k]).start
                + ml <= sanitized(rs, dur, ml)[k].end && sanitized(rs, dur, ml)[k].end <= dur,
    decreases rs.len(),
{
    if rs.len() > 0 {
        lemma_sanitized_fit(rs.drop_last(), dur, ml);
        let p = sanitized(rs.drop_last(), dur, ml);
        let c = clamp_region(rs.last(), dur);
        if sat_sub(c.end, c.start) >= ml {
            assert forall|k: int| 0 <= k < p.len() implies p.push(c)[k] == p[k] by {}
        }
    }
}

/// Clamp region bounds to the real (scanned) source duration and drop
/// degenerate regions; used right after loading a project. Every region
/// left ends within the duration and is at least the minimum length.
pub fn sanitize_regions(project: &mut Project, duration_samples: u64, sample_rate: u32)
    ensures
        regions_view(final(project).regions@) == sanitized(
            regions_view(old(project).regions@),
            duration_samples,
            min_len(sample_rate),
        ),
        forall|k: int|
            0 <= k < final(project).regions@.len() ==> (#[trigger] final(project).regions@[k]).start
                + min_len(sample_rate) <= final(project).regions@[k].end
                && final(project).regions@[k].end <= duration_samples,
        final(project).layers == old(project).layers,
        final(project).next_region_id == old(project).next_region_id,
        same_settings(*final(project), *old(project)),
{
    let l = sample_rate as u64 * MIN_TRACK_MS / 1000;
    let ml: u64 = if l >= 1 {
        l
    } else {
        1
    };
    let mut src: Vec<Region> = Vec::new();
    std::mem::swap(&mut src, &mut project.regions);
    let ghost orig = src@;
    let ghost vs = regions_view(orig);
    let mut out: Vec<Region> = Vec::new();
    let mut i: usize = 0;
    while i < src.len()
        invariant
            i <= src@.len(),
            src@ == orig,
            vs == regions_view(orig),
            ml == min_len(sample_rate),
            regions_view(out@) == sanitized(vs.take(i as int), duration_samples, ml as nat),
        decreases src@.len() - i,
    {
        let r = &src[i];
        let mut c = r.clone();
        if c.end > duration_samples {
            c.end = duration_samples;
        }
        if c.start > duration_samples {
            c.start = duration_samples;
        }
        proof {
            assert(vs[i as int] == src@[i as int]@);
            assert(c@ == clamp_region(vs[i as int], duration_samples));
            assert(vs.take(i + 1).drop_last() =~= vs.take(i as int));
        }
        if c.end.saturating_sub(c.start) >= ml {
            let ghost before = out@;
            out.push(c);
            proof {
                assert(regions_view(out@) =~= regions_view(before).push(c@));
            }
        }
        i += 1;
    }
    proof {
        assert(vs.take(orig.len() as int) =~= vs);
        lemma_sanitized_fit(vs, duration_samples, ml as nat);
    }
    project.regions = out;
    proof {
        assert forall|k: int| 0 <= k < project.regions@.len() implies (#[trigger] project.regions@[k]).start
            + min_len(sample_rate) <= project.regions@[k].end && project.regions@[k].end
            <= duration_samples by {
            assert(regions_view(project.regions@)[k] == project.regions@[k]@);
        }
    }
}

/// Longest duration among scanned layers (0 when there are none).
pub open spec fn max_duration(ls: Seq<ScannedLayerView>) -> u64
    decreases ls.len(),
{
    if ls.len() == 0 {
        0
    } else {
        let p = max_duration(ls.drop_last());
        if ls.last().duration_samples > p {
            ls.last().duration_samples
        } else {
            p
        }
    }
}

/// Largest channel count among scanned layers (0 when there are none).
pub open spec fn max_channels(ls: Seq<ScannedLayerView>) -> u16
    decreases ls.len(),
{
    if ls.len() == 0 {
        0
    } else {
        let p = max_channels(ls.drop_last());
        if ls.last().channels > p {
            ls.last().channels
        } else {
            p
        }
    }
}

/// `v` without element `k` when `k` is one of its indices.
pub open spec fn remove_if_in<T>(v: Seq<T>, k: int) -> Seq<T> {
    if 0 <= k < v.len() {
        v.remove(k)
    } else {
        v
    }
}

pub const BASE_LAYER_STAYS: &'static str = "the base layer cannot be removed";

impl ProjectState {
    /// Remove a layer (never the base layer 0, which carries the
    /// timeline), with its scanned audio and peaks; the timeline shrinks
    /// to the longest remaining layer and the regions are sanitized
    /// against it. Not an undo step.
    #[verifier::rlimit(40)]
    pub fn remove_layer(&mut self, id: u32) -> (r: Result<(), StillError>)
        ensures
            ({
                let k = layer_index_of(old(self).project.layers@, id);
                if k < 0 {
                    &&& r matches Err(StillError::InvalidMarker(m)) && m@ == "unknown layer id "@
                        + dec(id as nat)
                    &&& *final(self) == *old(self)
                } else if k == 0 {
                    &&& r matches Err(StillError::InvalidMarker(m)) && m@ == BASE_LAYER_STAYS@
                    &&& *final(self) == *old(self)
                } else {
                    let scanned = remove_if_in(old(self).info@.layers, k);
                    &&& r is Ok
                    &&& layers_view(final(self).project.layers@) == layers_view(
                        old(self).project.layers@,
                    ).remove(k)
                    &&& final(self).info@.layers == scanned
                    &&& peaks_view(final(self).peaks@) == remove_if_in(
                        peaks_view(old(self).peaks@),
                        k,
                    )
                    &&& final(self).info.duration_samples == max_duration(scanned)
                    &&& final(self).info.channels == max_channels(scanned)
                    &&& final(self).info.sample_rate == old(self).info.sample_rate
                    &&& final(self).info.path == old(self).info.path
                    &&& final(self).info.clips == old(self).info.clips
                    &&& final(self).info.format == old(self).info.format
                    &&& regions_view(final(self).project.regions@) == sanitized(
                        regions_view(old(self).project.regions@),
                        max_duration(scanned),
                        min_len(old(self).info.sample_rate),
                    )
                    &&& final(self).project.next_region_id == old(self).project.next_region_id
                    &&& same_settings(final(self).project, old(self).project)
                    &&& final(self).undo == old(self).undo
                    &&& final(self).redo == old(self).redo
                }
            }),
    {
        let idx = match self.layer_index(id) {
            Ok(i) => i,
            Err(e) => {
                return Err(e);
            },
        };
        if idx == 0 {
            return Err(StillError::InvalidMarker(String::from_str(BASE_LAYER_STAYS)));
        }
        let ghost old_ls = self.project.layers@;
        self.project.layers.remove(idx);
        proof {
            assert(layers_view(self.project.layers@) =~= layers_view(old_ls).remove(idx as int));
        }
        let ghost old_scanned = self.info@.layers;
        if idx < self.info.layers.len() {
            let ghost before = self.info.layers@;
            self.info.layers.remove(idx);
            proof {
                assert(self.info@.layers =~= old_scanned.remove(idx as int));
            }
        }
        let ghost old_peaks = peaks_view(self.peaks@);
        if idx < self.peaks.len() {
            self.peaks.remove(idx);
            proof {
                assert(peaks_view(self.peaks@) =~= old_peaks.remove(idx as int));
            }
        }
        let ghost scanned = self.info@.layers;
        let mut duration: u64 = 0;
        let mut channels: u16 = 0;
        let mut i: usize = 0;
        while i < self.info.layers.len()
            invariant
                i <= self.info.layers@.len(),
                scanned == self.info@.layers,
                duration == max_duration(scanned.take(i as int)),
                channels == max_channels(scanned.take(i as int)),
            decreases self.info.layers@.len() - i,
        {
            let l = &self.info.layers[i];
            proof {
                assert(scanned.take(i + 1).drop_last() =~= scanned.take(i as int));
                assert(scanned[i as int] == l@);
            }
            if l.duration_samples > duration {
                duration = l.duration_samples;
            }
            if l.channels > channels {
                channels = l.channels;
            }
            i += 1;
        }
        proof {
            assert(scanned.take(scanned.len() as int) =~= scanned);
        }
        self.info.duration_samples = duration;
        self.info.channels = channels;
        let sr = self.info.sample_rate;
        sanitize_regions(&mut self.project, duration, sr);
        Ok(())
    }
}

/// The sources a layer keeps when the base-layer span `[s0, e0)` is
/// removed, over its first `n` clips: a clip starting inside the span
/// goes, a clip starting at or after its end shifts left by its length,
/// earlier clips stay; every survivor is pinned at its position.
pub open spec fn kept_sources(
    sources: Seq<SourceRef>,
    clips: Seq<ClipInfo>,
    s0: u64,
    e0: u64,
    n: int,
) -> Seq<SourceRef>
    decreases n,
{
    if n <= 0 {
        seq![]
    } else {
        let p = kept_sources(sources, clips, s0, e0, n - 1);
        let ci = n - 1;
        if ci >= sources.len() {
            p
        } else {
            let cs = clips[ci].start_sample;
            if s0 <= cs && cs < e0 {
                p
            } else {
                let pinned: u64 = if cs >= e0 {
                    (cs - (e0 - s0)) as u64
                } else {
                    cs
                };
                p.push(SourceRef { path: sources[ci].path, start: Some(pinned) })
            }
        }
    }
}

/// The surviving layers of a clip removal over the first `n` layers, as
/// (layer id, new sources); a layer left without sources is dropped.
pub open spec fn plan_layers(
    layers: Seq<Layer>,
    scanned: Seq<ScannedLayerView>,
    s0: u64,
    e0: u64,
    n: int,
) -> Seq<(u32, Seq<SourceRef>)>
    decreases n,
{
    if n <= 0 {
        seq![]
    } else {
        let p = plan_layers(layers, scanned, s0, e0, n - 1);
        let li = n - 1;
        if li >= scanned.len() {
            p
        } else {
            let src = kept_sources(
                layers[li].sources@,
                scanned[li].clips,
                s0,
                e0,
                scanned[li].clips.len() as int,
            );
            if src.len() == 0 {
                p
            } else {
                p.push((layers[li].id, src))
            }
        }
    }
}

/// A planned removal holds exactly `plan` for the span `[s0, e0)`.
pub open spec fn removal_is(p: ClipRemoval, plan: Seq<(u32, Seq<SourceRef>)>, s0: u64, e0: u64) -> bool {
    &&& p.span == (RegionSpan { start: s0, end: e0 })
    &&& p.groups@.len() == plan.len()
    &&& p.kept_layer_ids@.len() == plan.len()
    &&& forall|j: int|
        0 <= j < plan.len() ==> (#[trigger] p.groups@[j])@ == plan[j].1 && p.kept_layer_ids@[j]
            == plan[j].0
}

pub const LAST_CLIP_STAYS: &'static str = "The last clip of the timeline cannot be removed. Start a new session or open another file instead.";

impl ProjectState {
    /// Plan the removal of a base-layer clip: validates and computes the
    /// new source recipe of every surviving layer, without changing
    /// anything.
    pub fn plan_remove_clip(&self, clip_index: usize) -> (r: Result<ClipRemoval, StillError>)
        requires
            self.info.layers@.len() > 0 && clip_index < self.info.layers@[0].clips@.len()
                ==> clip_end(self.info.layers@[0].clips@[clip_index as int]) <= u64::MAX,
        ensures
            ({
                let ls = self.info@.layers;
                if ls.len() == 0 {
                    r matches Err(StillError::NoAudioLoaded)
                } else if clip_index >= ls[0].clips.len() {
                    r matches Err(StillError::InvalidProject(m)) && m@ == "unknown clip index "@
                        + dec(clip_index as nat)
                } else if ls[0].clips.len() == 1 {
                    r matches Err(StillError::InvalidProject(m)) && m@ == LAST_CLIP_STAYS@
                } else {
                    let c = ls[0].clips[clip_index as int];
                    let s0 = c.start_sample;
                    let e0 = (c.start_sample + c.duration_samples) as u64;
                    let plan = plan_layers(
                        self.project.layers@,
                        ls,
                        s0,
                        e0,
                        self.project.layers@.len() as int,
                    );
                    r matches Ok(p) && removal_is(p, plan, s0, e0)
                }
            }),
    {
        if self.info.layers.len() == 0 {
            return Err(StillError::NoAudioLoaded);
        }
        let base = &self.info.layers[0];
        if clip_index >= base.clips.len() {
            let mut v: Vec<char> = chars_of("unknown clip index ");
            push_dec(&mut v, clip_index as u64);
            return Err(StillError::InvalidProject(string_of(&v)));
        }
        if base.clips.len() == 1 {
            return Err(StillError::InvalidProject(String::from_str(LAST_CLIP_STAYS)));
        }
        let clip = &base.clips[clip_index];
        let s0 = clip.start_sample;
        let e0 = s0 + clip.duration_samples;
        let d = e0 - s0;
        let ghost ls = self.info@.layers;
        proof {
            assert(ls[0] == base@);
            assert(ls[0].clips[clip_index as int] == *clip);
        }
        let mut groups: Vec<Vec<SourceRef>> = Vec::new();
        let mut kept: Vec<u32> = Vec::new();
        let mut li: usize = 0;
        while li < self.project.layers.len()
            invariant
                li <= self.project.layers@.len(),
                ls == self.info@.layers,
                d == e0 - s0,
                s0 <= e0,
                groups@.len() == kept@.len(),
                groups@.len() == plan_layers(self.project.layers@, ls, s0, e0, li as int).len(),
                forall|j: int|
                    0 <= j < groups@.len() ==> (#[trigger] groups@[j])@ == plan_layers(
                        self.project.layers@,
                        ls,
                        s0,
                        e0,
                        li as int,
                    )[j].1 && kept@[j] == plan_layers(
                        self.project.layers@,
                        ls,
                        s0,
                        e0,
                        li as int,
                    )[j].0,
            decreases self.project.layers@.len() - li,
        {
            let ghost prev = plan_layers(self.project.layers@, ls, s0, e0, li as int);
            if li < self.info.layers.len() {
                let layer = &self.project.layers[li];
                let scanned = &self.info.layers[li];
                let ghost cl = scanned.clips@;
                proof {
                    assert(ls[li as int] == scanned@);
                }
                let mut sources: Vec<SourceRef> = Vec::new();
                let mut ci: usize = 0;
                while ci < scanned.clips.len()
                    invariant
                        ci <= cl.len(),
                        cl == scanned.clips@,
                        d == e0 - s0,
                        s0 <= e0,
                        sources@ == kept_sources(layer.sources@, cl, s0, e0, ci as int),
                    decreases cl.len() - ci,
                {
                    if ci < layer.sources.len() {
                        let cs = scanned.clips[ci].start_sample;
                        if !(s0 <= cs && cs < e0) {
                            let pinned = if cs >= e0 {
                                cs - d
                            } else {
                                cs
                            };
                            sources.push(
                                SourceRef {
                                    path: layer.sources[ci].path.clone(),
                                    start: Some(pinned),
                                },
                            );
                        }
                    }
                    ci += 1;
                }
                if sources.len() > 0 {
                    groups.push(sources);
                    kept.push(layer.id);
                    proof {
                        let now = plan_layers(self.project.layers@, ls, s0, e0, li + 1);
                        assert(now == prev.push((self.project.layers@[li as int].id, sources@)));
                        assert forall|j: int| 0 <= j < groups@.len() implies (#[trigger] groups@[j])@
                            == now[j].1 && kept@[j] == now[j].0 by {
                            if j < prev.len() {
                                assert(now[j] == prev[j]);
                            }
                        }
                    }
                }
            }
            li += 1;
        }
        let r = ClipRemoval { groups, kept_layer_ids: kept, span: RegionSpan { start: s0, end: e0 } };
        proof {
            let c = ls[0].clips[clip_index as int];
            assert(c.start_sample == s0);
            assert(c.start_sample + c.duration_samples == e0);
            let plan = plan_layers(self.project.layers@, ls, s0, e0, self.project.layers@.len() as int);
            assert(r.groups@.len() == plan.len());
            assert(forall|j: int|
                0 <= j < plan.len() ==> (#[trigger] r.groups@[j])@ == plan[j].1
                    && r.kept_layer_ids@[j] == plan[j].0);
            assert(ls.len() != 0);
            assert(clip_index < ls[0].clips.len());
            assert(ls[0].clips.len() != 1);
            assert(r.span == (RegionSpan { start: s0, end: e0 }));
            assert(removal_is(r, plan, s0, e0));
            let e1 = (c.start_sample + c.duration_samples) as u64;
            assert(e1 == e0);
            let plan1 = plan_layers(self.project.layers@, ls, c.start_sample, e1, self.project.layers@.len() as int);
            assert(plan1 == plan);
            assert(removal_is(r, plan1, c.start_sample, e1));
        }
        Ok(r)
    }
}

/// The layers installed by a clip removal over its first `k` entries:
/// each surviving layer found by id, with its new sources.
pub open spec fn applied_layers(
    layers: Seq<Layer>,
    ids: Seq<u32>,
    groups: Seq<Vec<SourceRef>>,
    k: int,
) -> Seq<LayerData>
    decreases k,
{
    if k <= 0 {
        seq![]
    } else {
        let p = applied_layers(layers, ids, groups, k - 1);
        let li = layer_index_of(layers, ids[k - 1]);
        if li < 0 {
            p
        } else {
            p.push(LayerData { sources: groups[k - 1]@, ..layers[li]@ })
        }
    }
}

impl ProjectState {
    /// Install a planned clip removal: full undo snapshot (regions,
    /// layers, audio), the new layer recipes, rippled regions. The caller
    /// adopts the rescanned audio with `set_audio` right after.
    pub fn apply_remove_clip(&mut self, plan: &ClipRemoval)
        requires
            plan.span.start <= plan.span.end,
            forall|i: int|
                0 <= i < old(self).project.regions@.len() ==> ripple_fits(
                    #[trigger] old(self).project.regions@[i],
                    plan.span.start,
                    plan.span.end,
                ),
        ensures
            ({
                let n = if plan.kept_layer_ids@.len() <= plan.groups@.len() {
                    plan.kept_layer_ids@.len()
                } else {
                    plan.groups@.len()
                };
                &&& layers_view(final(self).project.layers@) == applied_layers(
                    old(self).project.layers@,
                    plan.kept_layer_ids@,
                    plan.groups@,
                    n as int,
                )
                &&& regions_view(final(self).project.regions@) == rippled(
                    regions_view(old(self).project.regions@),
                    plan.span.start,
                    plan.span.end,
                    min_len(old(self).info.sample_rate),
                )
                &&& final(self).history() == recorded(
                    old(self).history(),
                    full_snapshot(old(self).session()),
                    final(self).session(),
                )
                &&& final(self).info == old(self).info
                &&& final(self).peaks == old(self).peaks
                &&& final(self).project.next_region_id == old(self).project.next_region_id
                &&& same_settings(final(self).project, old(self).project)
            }),
    {
        self.push_undo_full();
        let n: usize = if plan.kept_layer_ids.len() <= plan.groups.len() {
            plan.kept_layer_ids.len()
        } else {
            plan.groups.len()
        };
        let mut kept: Vec<Layer> = Vec::new();
        let mut k: usize = 0;
        while k < n
            invariant
                k <= n,
                n <= plan.kept_layer_ids@.len(),
                n <= plan.groups@.len(),
                self.project.layers == old(self).project.layers,
                layers_view(kept@) == applied_layers(
                    self.project.layers@,
                    plan.kept_layer_ids@,
                    plan.groups@,
                    k as int,
                ),
            decreases n - k,
        {
            proof {
                lemma_layer_from(self.project.layers@, plan.kept_layer_ids@[k as int], 0);
            }
            match self.layer_index(plan.kept_layer_ids[k]) {
                Ok(li) => {
                    let mut layer = self.project.layers[li].clone();
                    layer.sources = copy_sources(&plan.groups[k]);
                    let ghost before = kept@;
                    kept.push(layer);
                    proof {
                        assert(layers_view(kept@) =~= layers_view(before).push(layer@));
                    }
                },
                Err(_) => {},
            }
            k += 1;
        }
        self.project.layers = kept;
        let min = self.min_len();
        ripple_regions(&mut self.project.regions, plan.span.start, plan.span.end, min);
    }
}

/// The base-layer clip spans (start, end) of the clips at `indices`.
pub open spec fn clip_spans(clips: Seq<ClipInfo>, indices: Seq<usize>) -> Seq<RegionSpan> {
    indices.map_values(
        |i: usize|
            RegionSpan {
                start: clips[i as int].start_sample,
                end: (clips[i as int].start_sample + clips[i as int].duration_samples) as u64,
            },
    )
}

/// Pair each span with a title.
pub open spec fn with_titles(spans: Seq<RegionSpan>, titles: Seq<Option<Seq<char>>>) -> Seq<
    (RegionSpan, Option<Seq<char>>),
> {
    Seq::new(spans.len(), |k: int| (spans[k], titles[k]))
}

/// The clip indices a clips-to-tracks request names: the given list, or
/// every clip.
pub open spec fn requested(indices: Option<Seq<usize>>, n: nat) -> Seq<usize> {
    match indices {
        Some(l) => l,
        None => Seq::new(n, |i: int| i as usize),
    }
}

/// The first index of the list that names no clip, or -1.
pub open spec fn first_unknown(l: Seq<usize>, n: nat, k: int) -> int
    decreases l.len() - k,
{
    if k < 0 || k >= l.len() {
        -1
    } else if l[k] >= n {
        k
    } else {
        first_unknown(l, n, k + 1)
    }
}

impl ProjectState {
    /// One region per base-layer clip (all clips, or the given indices),
    /// titled with the source file's stem. Clip bounds are exact file
    /// boundaries; edges overlapping existing tracks are trimmed, misfits
    /// skipped; one undo step. Returns how many tracks were added.
    pub fn clips_to_tracks(&mut self, clip_indices: Option<&[usize]>) -> (r: Result<usize, StillError>)
        requires
            clips_fit_all(old(self).info.clips@),
            old(self).project.next_region_id + requested(
                opt_seq(clip_indices),
                old(self).info.clips@.len(),
            ).len() < u32::MAX,
        ensures
            ({
                let l = requested(opt_seq(clip_indices), old(self).info.clips@.len());
                let bad = first_unknown(l, old(self).info.clips@.len(), 0);
                &&& bad >= 0 ==> (r matches Err(StillError::InvalidProject(m)) && m@
                    == "unknown clip index "@ + dec(l[bad] as nat) && *final(self) == *old(self))
                &&& bad < 0 ==> r is Ok
                &&& bad < 0 ==> exists|titles: Seq<Option<Seq<char>>>|
                    titles.len() == l.len() && stems_of_clips(titles, old(self).info.clips@, l)
                        && r->Ok_0 == (#[trigger] clip_added(*old(self), l, titles)).len()
                        && regions_view(final(self).project.regions@) == regions_view(
                        old(self).project.regions@,
                    ) + clip_added(*old(self), l, titles)
            }),
            final(self).project.layers == old(self).project.layers,
            final(self).info == old(self).info,
            final(self).peaks == old(self).peaks,
            same_settings(final(self).project, old(self).project),
            old(self).valid() ==> final(self).valid(),
    {
        let n = self.info.clips.len();
        let mut indices: Vec<usize> = Vec::new();
        let ghost l = requested(opt_seq(clip_indices), n as nat);
        match clip_indices {
            Some(list) => {
                let mut k: usize = 0;
                while k < list.len()
                    invariant
                        k <= list@.len(),
                        l == list@,
                        clip_indices == Some(list),
                        n == self.info.clips@.len(),
                        first_unknown(l, n as nat, k as int) == first_unknown(l, n as nat, 0),
                        indices@ == list@.take(k as int),
                        forall|m: int| 0 <= m < k ==> (#[trigger] list@[m]) < n,
                    decreases list@.len() - k,
                {
                    if list[k] >= n {
                        let mut v: Vec<char> = chars_of("unknown clip index ");
                        push_dec(&mut v, list[k] as u64);
                        return Err(StillError::InvalidProject(string_of(&v)));
                    }
                    indices.push(list[k]);
                    k += 1;
                    proof {
                        assert(indices@ =~= list@.take(k as int));
                    }
                }
                proof {
                    assert(indices@ =~= l);
                }
            },
            None => {
                let mut k: usize = 0;
                while k < n
                    invariant
                        k <= n,
                        indices@.len() == k,
                        forall|m: int| 0 <= m < k ==> #[trigger] indices@[m] == m as usize,
                    decreases n - k,
                {
                    indices.push(k);
                    k += 1;
                }
                proof {
                    assert(indices@ =~= l);
                    lemma_first_unknown_all(l, n as nat, 0);
                }
            },
        }
        proof {
            lemma_first_unknown_none(l, n as nat, 0);
        }
        let mut spans: Vec<(RegionSpan, Option<String>)> = Vec::new();
        let ghost mut titles: Seq<Option<Seq<char>>> = seq![];
        let mut k: usize = 0;
        while k < indices.len()
            invariant
                k <= indices@.len(),
                indices@ == l,
                n == self.info.clips@.len(),
                clips_fit_all(self.info.clips@),
                forall|m: int| 0 <= m < l.len() ==> (#[trigger] l[m]) < n,
                titles.len() == k,
                stems_of_clips(titles, self.info.clips@, l),
                spans@.len() == k,
                forall|m: int|
                    0 <= m < k ==> (#[trigger] spans@[m]).0 == clip_spans(self.info.clips@, l)[m]
                        && opt_view(spans@[m].1) == titles[m],
            decreases indices@.len() - k,
        {
            let c = &self.info.clips[indices[k]];
            let title = file_stem(c.path.as_str());
            let span = RegionSpan { start: c.start_sample, end: c.start_sample + c.duration_samples };
            proof {
                titles = titles.push(opt_view(title));
            }
            spans.push((span, title));
            k += 1;
        }
        proof {
            assert(titled_view(spans@) =~= with_titles(clip_spans(self.info.clips@, l), titles));
        }
        let added = self.add_regions_titled(&spans);
        proof {
            assert(first_unknown(l, old(self).info.clips@.len(), 0) < 0);
            assert(clip_added(*old(self), l, titles).len() == added);
        }
        Ok(added)
    }
}

/// Each title present is a file stem of its clip's path: a non-empty
/// piece of that path, and on a plain path exactly its file stem.
pub open spec fn stems_of_clips(titles: Seq<Option<Seq<char>>>, clips: Seq<ClipInfo>, l: Seq<usize>) -> bool {
    forall|k: int|
        0 <= k < titles.len() ==> {
            &&& (#[trigger] titles[k] matches Some(s) ==> s.len() > 0 && path_piece(s, clips[l[k] as int].path@))
            &&& plain_path(clips[l[k] as int].path@) ==> titles[k] == spec_file_stem(clips[l[k] as int].path@)
        }
}

/// A list argument as a sequence.
pub open spec fn opt_seq(o: Option<&[usize]>) -> Option<Seq<usize>> {
    match o {
        Some(l) => Some(l@),
        None => None,
    }
}

/// The regions clips-to-tracks appends for the clips `l` with `titles`.
pub open spec fn clip_added(st: ProjectState, l: Seq<usize>, titles: Seq<Option<Seq<char>>>) -> Seq<
    RegionView,
> {
    bulk_added(
        bounds(st.project.regions@),
        with_titles(clip_spans(st.info.clips@, l), titles),
        l.len() as int,
        st.info.duration_samples,
        min_len(st.info.sample_rate),
        st.project.next_region_id,
    )
}

/// Every clip end is representable.
pub open spec fn clips_fit_all(clips: Seq<ClipInfo>) -> bool {
    forall|i: int| 0 <= i < clips.len() ==> clip_end(#[trigger] clips[i]) <= u64::MAX
}

proof fn lemma_first_unknown_all(l: Seq<usize>, n: nat, k: int)
    requires
        0 <= k,
        forall|m: int| k <= m < l.len() ==> (#[trigger] l[m]) < n,
    ensures
        first_unknown(l, n, k) < 0,
    decreases l.len() - k,
{
    if k < l.len() {
        lemma_first_unknown_all(l, n, k + 1);
    }
}

proof fn lemma_first_unknown_none(l: Seq<usize>, n: nat, k: int)
    requires
        0 <= k,
        first_unknown(l, n, k) < 0,
    ensures
        forall|m: int| k <= m < l.len() ==> (#[trigger] l[m]) < n,
    decreases l.len() - k,
{
    if k < l.len() {
        lemma_first_unknown_none(l, n, k + 1);
    }
}

} // verus!
