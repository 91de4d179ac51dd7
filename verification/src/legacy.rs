//! Project files of earlier format versions: which format a file is in,
//! and the migration of each earlier format to the current model.

use vstd::prelude::*;
use crate::error::StillError;
use crate::metadata::{empty_meta, AlbumMeta};
use crate::project::{
    copy_regions, fresh_layer, new_region, opt_view, regions_view, DitherMode, ExportConfig, ExportFormat, Layer,
    LayerData, MasteringPluginCfg, Project, Region, RegionView, SourceRef, PROJECT_VERSION, ZERO_DB_BITS,
};
use crate::text::{chars_of, dec, extend_str, push_dec, string_of};
use crate::tracks::{as_ints, is_order, lemma_sorted_order, order_by_keys, sorted_order};

verus! {

/// The format a project file was written in, from its `version` field.
#[derive(Debug, Clone, Copy, PartialEq, Eq)]
pub enum ProjectFormat {
    /// Split markers over one source file (no version, 0 or 1).
    V1,
    /// Regions over one source file.
    V2,
    /// Regions over a sequence of source files.
    V3,
    /// Layers of plain source paths.
    V4,
    /// Read as the current format, then marked current (5 and 6 only
    /// lack fields that default).
    Compatible,
    Current,
}

/// The format of a file whose `version` field holds `version` (absent:
/// 0), the field taken as a 32-bit number; versions newer than this
/// library's are refused.
pub open spec fn spec_project_format(version: Option<u64>) -> Result<ProjectFormat, Seq<char>> {
    let v = match version {
        Some(x) => (x % 0x1_0000_0000) as nat,
        None => 0,
    };
    if v > PROJECT_VERSION {
        Err("this project was created by a newer version of AudioDistillery (v"@ + dec(v) + ")"@)
    } else if v <= 1 {
        Ok(ProjectFormat::V1)
    } else if v == 2 {
        Ok(ProjectFormat::V2)
    } else if v == 3 {
        Ok(ProjectFormat::V3)
    } else if v == 4 {
        Ok(ProjectFormat::V4)
    } else if v == 5 || v == 6 {
        Ok(ProjectFormat::Compatible)
    } else {
        Ok(ProjectFormat::Current)
    }
}

pub fn project_format(version: Option<u64>) -> (r: Result<ProjectFormat, StillError>)
    ensures
        match spec_project_format(version) {
            Ok(f) => r == Ok::<ProjectFormat, StillError>(f),
            Err(m) => r matches Err(StillError::InvalidProject(d)) && d@ == m,
        },
{
    let v: u32 = match version {
        Some(x) => (x % 0x1_0000_0000) as u32,
        None => 0,
    };
    if v > PROJECT_VERSION {
        let mut msg: Vec<char> = chars_of("this project was created by a newer version of AudioDistillery (v");
        push_dec(&mut msg, v as u64);
        extend_str(&mut msg, ")");
        return Err(StillError::InvalidProject(string_of(msg.as_slice())));
    }
    if v <= 1 {
        Ok(ProjectFormat::V1)
    } else if v == 2 {
        Ok(ProjectFormat::V2)
    } else if v == 3 {
        Ok(ProjectFormat::V3)
    } else if v == 4 {
        Ok(ProjectFormat::V4)
    } else if v == 5 || v == 6 {
        Ok(ProjectFormat::Compatible)
    } else {
        Ok(ProjectFormat::Current)
    }
}

/// A project read in a compatible earlier format is marked current.
pub fn mark_current(p: &mut Project)
    ensures
        final(p).version == PROJECT_VERSION,
        final(p).layers == old(p).layers,
        final(p).regions == old(p).regions,
        final(p).snap_to_zero == old(p).snap_to_zero,
        final(p).export_config == old(p).export_config,
        final(p).album_meta == old(p).album_meta,
        final(p).mastering_chain == old(p).mastering_chain,
        final(p).next_plugin_id == old(p).next_plugin_id,
        final(p).next_region_id == old(p).next_region_id,
        final(p).next_layer_id == old(p).next_layer_id,
{
    p.version = PROJECT_VERSION;
}

/// The export settings of a migrated project: the stored ones, else the
/// defaults.
pub open spec fn settings_from(stored: Option<ExportConfig>, c: ExportConfig) -> bool {
    match stored {
        Some(s) => c == s,
        None => {
            &&& c.format == ExportFormat::Flac
            &&& c.bitrate_kbps == 320
            &&& c.bit_depth == 16
            &&& c.dest_dir@ == Seq::<char>::empty()
            &&& c.template@ == "{n} - {title}"@
            &&& c.target_sample_rate is None
            &&& c.dither == DitherMode::Auto
            &&& !c.cd_image
            &&& !c.ddp
            &&& !c.stems
            &&& !c.stems_apply_mix
        },
    }
}

fn settings_or_default(stored: Option<ExportConfig>) -> (r: ExportConfig)
    ensures
        settings_from(stored, r),
{
    match stored {
        Some(c) => c,
        None => ExportConfig::default(),
    }
}

/// What every migrated project shares: a current version, the given
/// regions and settings, and nothing the old formats lacked (metadata,
/// mastering chain).
pub open spec fn migrated(
    p: Project,
    regions: Seq<RegionView>,
    snap_to_zero: bool,
    stored: Option<ExportConfig>,
    next_region_id: u32,
) -> bool {
    &&& p.version == PROJECT_VERSION
    &&& regions_view(p.regions@) == regions
    &&& p.snap_to_zero == snap_to_zero
    &&& settings_from(stored, p.export_config)
    &&& p.album_meta@ == empty_meta()
    &&& p.mastering_chain@.len() == 0
    &&& p.next_plugin_id == 1
    &&& p.next_region_id == next_region_id
}

/// A single-layer project of the given sources (pre-layer formats).
pub fn from_single_layer(
    sources: Vec<String>,
    regions: Vec<Region>,
    snap_to_zero: bool,
    export_config: ExportConfig,
    next_region_id: u32,
) -> (r: Project)
    ensures
        r.version == PROJECT_VERSION,
        r.layers@.len() == 1,
        r.layers@[0]@ == fresh_layer(0, sources@),
        r.next_layer_id == 2,
        regions_view(r.regions@) == regions_view(regions@),
        r.snap_to_zero == snap_to_zero,
        r.export_config == export_config,
        r.album_meta@ == empty_meta(),
        r.mastering_chain@.len() == 0,
        r.next_plugin_id == 1,
        r.next_region_id == next_region_id,
{
    let mut p = Project::new(sources);
    p.regions = regions;
    p.snap_to_zero = snap_to_zero;
    p.export_config = export_config;
    p.next_region_id = next_region_id;
    p
}

/// A split marker of the first format.
#[derive(Debug, Clone, Copy)]
pub struct LegacyMarker {
    pub id: u32,
    pub position: u64,
}

/// The first format: split markers dividing one file into tracks, named
/// by marker id ("0" for the first track).
#[derive(Debug)]
pub struct LegacyProjectV1 {
    pub source_path: String,
    pub markers: Vec<LegacyMarker>,
    /// (marker id as text, track name).
    pub track_names: Vec<(String, String)>,
    pub snap_to_zero: bool,
    pub export_config: Option<ExportConfig>,
}

/// The name stored under `key` (a later entry wins over an earlier one).
pub open spec fn name_for(names: Seq<(String, String)>, key: Seq<char>) -> Option<Seq<char>>
    decreases names.len(),
{
    if names.len() == 0 {
        None
    } else if names.last().0@ == key {
        Some(names.last().1@)
    } else {
        name_for(names.drop_last(), key)
    }
}

fn find_name(names: &Vec<(String, String)>, key: &String) -> (r: Option<String>)
    ensures
        opt_view(r) == name_for(names@, key@),
{
    let mut i: usize = names.len();
    assert(names@.take(i as int) =~= names@);
    while i > 0
        invariant
            i <= names@.len(),
            name_for(names@, key@) == name_for(names@.take(i as int), key@),
        decreases i,
    {
        let ghost t = names@.take(i as int);
        assert(t.drop_last() =~= names@.take(i - 1));
        if names[i - 1].0 == *key {
            return Some(names[i - 1].1.clone());
        }
        i -= 1;
    }
    None
}

pub open spec fn positions(ms: Seq<LegacyMarker>) -> Seq<u64> {
    ms.map_values(|m: LegacyMarker| m.position)
}

/// Track boundaries of a first-format project: 0, then every marker in
/// position order (stable for equal positions), each with the key of its
/// track's name.
pub open spec fn v1_bounds(ms: Seq<LegacyMarker>) -> Seq<(Seq<char>, u64)> {
    let order = sorted_order(positions(ms), ms.len() as int);
    seq![("0"@, 0u64)] + Seq::new(ms.len(), |k: int| (dec(ms[order[k]].id as nat), ms[order[k]].position))
}

/// Region `i` of a migrated first-format project: from its boundary to
/// the next one, the last open-ended (clamped on load).
pub open spec fn v1_region(bounds: Seq<(Seq<char>, u64)>, names: Seq<(String, String)>, i: int) -> RegionView {
    new_region(
        (i + 1) as u32,
        bounds[i].1,
        if i + 1 < bounds.len() {
            bounds[i + 1].1
        } else {
            u64::MAX
        },
        name_for(names, bounds[i].0),
    )
}

/// Migrate a first-format project: the markers become contiguous regions
/// covering the whole file.
pub fn migrate_v1(legacy: LegacyProjectV1) -> (r: Project)
    requires
        legacy.markers@.len() + 2 < u32::MAX,
    ensures
        ({
            let bounds = v1_bounds(legacy.markers@);
            migrated(
                r,
                Seq::new(bounds.len(), |i: int| v1_region(bounds, legacy.track_names@, i)),
                legacy.snap_to_zero,
                legacy.export_config,
                (bounds.len() + 1) as u32,
            )
        }),
        r.layers@.len() == 1,
        r.layers@[0]@ == fresh_layer(0, seq![legacy.source_path]),
{
    let ms = &legacy.markers;
    let ghost order_spec = sorted_order(positions(ms@), ms@.len() as int);
    let ghost bounds = v1_bounds(ms@);
    let mut keys: Vec<u64> = Vec::new();
    let mut i: usize = 0;
    while i < ms.len()
        invariant
            i <= ms@.len(),
            keys@ == positions(ms@).take(i as int),
        decreases ms@.len() - i,
    {
        keys.push(ms[i].position);
        i += 1;
        assert(keys@ =~= positions(ms@).take(i as int));
    }
    assert(keys@ =~= positions(ms@));
    let order = order_by_keys(&keys);
    proof {
        lemma_sorted_order(positions(ms@), ms@.len() as int);
    }
    let mut bound_keys: Vec<String> = Vec::new();
    let mut bound_pos: Vec<u64> = Vec::new();
    bound_keys.push(String::from_str("0"));
    bound_pos.push(0);
    let mut k: usize = 0;
    while k < order.len()
        invariant
            k <= order@.len(),
            order@.len() == ms@.len(),
            as_ints(order@) == order_spec,
            is_order(order_spec, positions(ms@), ms@.len() as int),
            bounds == v1_bounds(ms@),
            order_spec == sorted_order(positions(ms@), ms@.len() as int),
            bound_keys@.len() == k + 1,
            bound_pos@.len() == k + 1,
            forall|j: int| 0 <= j <= k ==> #[trigger] bound_keys@[j]@ == bounds[j].0,
            forall|j: int| 0 <= j <= k ==> #[trigger] bound_pos@[j] == bounds[j].1,
        decreases order@.len() - k,
    {
        let idx = order[k];
        assert(order_spec[k as int] == idx as int);
        assert(0 <= order_spec[k as int] < ms@.len());
        let m = ms[idx];
        let mut d: Vec<char> = Vec::new();
        push_dec(&mut d, m.id as u64);
        assert(d@ =~= dec(m.id as nat));
        bound_keys.push(string_of(d.as_slice()));
        bound_pos.push(m.position);
        k += 1;
        assert(bound_keys@[k as int]@ == bounds[k as int].0);
        assert(bound_pos@[k as int] == bounds[k as int].1);
    }
    let n = bound_keys.len();
    let mut regions: Vec<Region> = Vec::new();
    let mut j: usize = 0;
    while j < n
        invariant
            j <= n,
            n == bound_keys@.len(),
            n == bound_pos@.len(),
            n == bounds.len(),
            n + 1 < u32::MAX,
            forall|t: int| 0 <= t < n ==> #[trigger] bound_keys@[t]@ == bounds[t].0,
            forall|t: int| 0 <= t < n ==> #[trigger] bound_pos@[t] == bounds[t].1,
            regions_view(regions@) == Seq::new(j as nat, |i: int| v1_region(bounds, legacy.track_names@, i)),
        decreases n - j,
    {
        let end = if j + 1 < n { bound_pos[j + 1] } else { u64::MAX };
        let title = find_name(&legacy.track_names, &bound_keys[j]);
        assert(bound_keys@[j as int]@ == bounds[j as int].0 && bound_pos@[j as int] == bounds[j as int].1);
        if j + 1 < n {
            assert(bound_keys@[j + 1]@ == bounds[j + 1].0 && bound_pos@[j + 1] == bounds[j + 1].1);
        }
        let ghost before = regions_view(regions@);
        let region = Region::new((j + 1) as u32, bound_pos[j], end, title);
        assert(region@ == v1_region(bounds, legacy.track_names@, j as int));
        let ghost rv = region@;
        regions.push(region);
        assert(regions_view(regions@) =~= before.push(rv));
        j += 1;
        assert(regions_view(regions@) =~= Seq::new(j as nat, |i: int| v1_region(bounds, legacy.track_names@, i)));
    }
    let next_region_id = (regions.len() + 1) as u32;
    let mut sources: Vec<String> = Vec::new();
    sources.push(legacy.source_path);
    let cfg = settings_or_default(legacy.export_config);
    let p = from_single_layer(sources, regions, legacy.snap_to_zero, cfg, next_region_id);
    assert(sources@ =~= seq![legacy.source_path]);
    p
}

/// Regions over one source file.
#[derive(Debug)]
pub struct LegacyProjectV2 {
    pub source_path: String,
    pub regions: Vec<Region>,
    pub snap_to_zero: bool,
    pub export_config: Option<ExportConfig>,
    pub next_region_id: u32,
}

pub fn migrate_v2(legacy: LegacyProjectV2) -> (r: Project)
    ensures
        migrated(r, regions_view(legacy.regions@), legacy.snap_to_zero, legacy.export_config, legacy.next_region_id),
        r.layers@.len() == 1,
        r.layers@[0]@ == fresh_layer(0, seq![legacy.source_path]),
{
    let mut sources: Vec<String> = Vec::new();
    sources.push(legacy.source_path);
    assert(sources@ =~= seq![legacy.source_path]);
    let cfg = settings_or_default(legacy.export_config);
    from_single_layer(sources, legacy.regions, legacy.snap_to_zero, cfg, legacy.next_region_id)
}

/// Regions over a sequence of source files.
#[derive(Debug)]
pub struct LegacyProjectV3 {
    pub sources: Vec<String>,
    pub regions: Vec<Region>,
    pub snap_to_zero: bool,
    pub export_config: Option<ExportConfig>,
    pub next_region_id: u32,
}

pub fn migrate_v3(legacy: LegacyProjectV3) -> (r: Project)
    ensures
        migrated(r, regions_view(legacy.regions@), legacy.snap_to_zero, legacy.export_config, legacy.next_region_id),
        r.layers@.len() == 1,
        r.layers@[0]@ == fresh_layer(0, legacy.sources@),
{
    let cfg = settings_or_default(legacy.export_config);
    from_single_layer(legacy.sources, legacy.regions, legacy.snap_to_zero, cfg, legacy.next_region_id)
}

/// A layer of plain source paths (always played in sequence).
#[derive(Debug)]
pub struct LegacyLayerV4 {
    pub id: u32,
    pub sources: Vec<String>,
    /// Bit pattern of the `f32` gain in dB.
    pub gain_db_bits: u32,
    pub muted: bool,
    pub solo: bool,
    pub collapsed: bool,
}

#[derive(Debug)]
pub struct LegacyProjectV4 {
    pub layers: Vec<LegacyLayerV4>,
    pub regions: Vec<Region>,
    pub snap_to_zero: bool,
    pub export_config: Option<ExportConfig>,
    pub next_region_id: u32,
    pub next_layer_id: u32,
}

/// A migrated layer: the same settings, every source sequential, no
/// inserts, no custom name.
pub open spec fn v4_layer(l: LegacyLayerV4) -> LayerData {
    LayerData {
        id: l.id,
        sources: Seq::new(l.sources@.len(), |j: int| SourceRef { path: l.sources@[j], start: None }),
        gain_db_bits: l.gain_db_bits,
        muted: l.muted,
        solo: l.solo,
        collapsed: l.collapsed,
        inserts: seq![],
        custom_name: None,
    }
}

pub fn migrate_v4(legacy: LegacyProjectV4) -> (r: Project)
    ensures
        migrated(r, regions_view(legacy.regions@), legacy.snap_to_zero, legacy.export_config, legacy.next_region_id),
        r.layers@.len() == legacy.layers@.len(),
        forall|i: int| 0 <= i < r.layers@.len() ==> (#[trigger] r.layers@[i])@ == v4_layer(legacy.layers@[i]),
        r.next_layer_id == legacy.next_layer_id,
{
    let mut layers: Vec<Layer> = Vec::new();
    let mut i: usize = 0;
    while i < legacy.layers.len()
        invariant
            i <= legacy.layers@.len(),
            layers@.len() == i,
            forall|k: int| 0 <= k < i ==> (#[trigger] layers@[k])@ == v4_layer(legacy.layers@[k]),
        decreases legacy.layers@.len() - i,
    {
        let l = &legacy.layers[i];
        let mut sources: Vec<SourceRef> = Vec::new();
        let mut j: usize = 0;
        while j < l.sources.len()
            invariant
                j <= l.sources@.len(),
                sources@.len() == j,
                forall|m: int| 0 <= m < j ==> #[trigger] sources@[m] == (SourceRef { path: l.sources@[m], start: None }),
            decreases l.sources@.len() - j,
        {
            sources.push(SourceRef::sequential(l.sources[j].clone()));
            j += 1;
        }
        let layer = Layer {
            id: l.id,
            sources,
            gain_db_bits: l.gain_db_bits,
            muted: l.muted,
            solo: l.solo,
            collapsed: l.collapsed,
            inserts: Vec::new(),
            custom_name: None,
        };
        assert(layer@.sources =~= v4_layer(*l).sources);
        assert(layer@.inserts =~= v4_layer(*l).inserts);
        layers.push(layer);
        i += 1;
    }
    Project {
        version: PROJECT_VERSION,
        layers,
        regions: legacy.regions,
        snap_to_zero: legacy.snap_to_zero,
        export_config: settings_or_default(legacy.export_config),
        album_meta: AlbumMeta::default(),
        mastering_chain: Vec::new(),
        next_plugin_id: 1,
        next_region_id: legacy.next_region_id,
        next_layer_id: legacy.next_layer_id,
    }
}

} // verus!
