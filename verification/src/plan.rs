//! Planning an export: one job per output file, each file placed by the
//! naming template under the destination folder and given a name that
//! neither an existing file nor an earlier job of the same export holds.

use vstd::prelude::*;
use crate::error::StillError;
use crate::export::{
    check_destination, file_place, first_free, is_stem_job, is_track_job, spec_file_place, spec_stem_volume,
    stem_job, stem_volume, texts, track_job, unique_file_name, ExportJob, StemLayer, NO_DESTINATION,
};
use crate::metadata::{disc_numbering, empty_meta, spec_disc_numbering, AlbumMeta, AlbumMetaView, MacroContext};
use crate::peaks::copy_vec;
use crate::project::{ExportConfig, ExportFormat, TrackInfo};
use crate::text::{chars_of, extend_str, string_of, trim};

verus! {

broadcast use vstd::string::group_string_axioms;

// ---------------------------------------------------------------------------
// Paths.

/// `b` joined under `a` as `PathBuf::join` does for a relative piece: a
/// '/' between them unless `a` is empty or already ends with one.
pub open spec fn join_one(a: Seq<char>, b: Seq<char>) -> Seq<char> {
    if a.len() == 0 || a.last() == '/' {
        a + b
    } else {
        a + "/"@ + b
    }
}

/// Folders `segs` joined under `dest`, in order.
pub open spec fn join_all(dest: Seq<char>, segs: Seq<Seq<char>>) -> Seq<char>
    decreases segs.len(),
{
    if segs.len() == 0 {
        dest
    } else {
        join_one(join_all(dest, segs.drop_last()), segs.last())
    }
}

fn join_text(a: &String, b: &String) -> (r: String)
    ensures
        r@ == join_one(a@, b@),
{
    let mut v = chars_of(a.as_str());
    let n = v.len();
    if n > 0 && v[n - 1] != '/' {
        proof {
            reveal_strlit("/");
        }
        v.push('/');
    }
    extend_str(&mut v, b.as_str());
    let r = string_of(v.as_slice());
    proof {
        reveal_strlit("/");
        if n > 0 && a@.last() != '/' {
            assert(r@ =~= a@ + "/"@ + b@);
        } else {
            assert(r@ =~= a@ + b@);
        }
    }
    r
}

fn join_segments(dest: &str, segs: &Vec<String>) -> (r: String)
    ensures
        r@ == join_all(dest@, texts(segs@)),
{
    let mut acc = string_of(chars_of(dest).as_slice());
    let mut i: usize = 0;
    while i < segs.len()
        invariant
            i <= segs@.len(),
            acc@ == join_all(dest@, texts(segs@).take(i as int)),
        decreases segs@.len() - i,
    {
        acc = join_text(&acc, &segs[i]);
        proof {
            let t = texts(segs@).take(i + 1);
            assert(t.drop_last() =~= texts(segs@).take(i as int));
            assert(t.last() == segs@[i as int]@);
        }
        i += 1;
    }
    proof {
        assert(texts(segs@).take(segs@.len() as int) =~= texts(segs@));
    }
    acc
}

// ---------------------------------------------------------------------------
// Plans.

/// The resolved source format a plan uses: only a `Source` configuration
/// mirrors the source file.
pub open spec fn used_fmt(
    format: ExportFormat,
    source_fmt: Option<(ExportFormat, u8, Option<u32>)>,
) -> Option<(ExportFormat, u8, Option<u32>)> {
    if format == ExportFormat::Source {
        source_fmt
    } else {
        None
    }
}

/// File extension of a format.
pub open spec fn format_ext(f: ExportFormat) -> Seq<char> {
    match f {
        ExportFormat::Wav => "wav"@,
        ExportFormat::Flac => "flac"@,
        ExportFormat::Mp3 => "mp3"@,
        ExportFormat::Aac => "m4a"@,
        ExportFormat::Source => "wav"@,
    }
}

/// Extension of the files a plan writes: that of the resolved source
/// format, else that of the configured one.
pub open spec fn out_ext(format: ExportFormat, fmt: Option<(ExportFormat, u8, Option<u32>)>) -> Seq<char> {
    match fmt {
        Some((f, _, _)) => format_ext(f),
        None => format_ext(format),
    }
}

/// The output paths of a list of jobs.
pub open spec fn job_paths(jobs: Seq<ExportJob>) -> Seq<Seq<char>> {
    jobs.map_values(|j: ExportJob| j.out_path@)
}

/// Base name and sub-folders of track `t`'s file (for stem `layer`, if any).
pub open spec fn track_place(
    template: Seq<char>,
    m: AlbumMetaView,
    stem: Seq<char>,
    t: TrackInfo,
    total: nat,
    layer: Option<(nat, Seq<char>)>,
) -> (Seq<char>, Seq<Seq<char>>) {
    spec_file_place(
        template,
        m,
        t.title@,
        stem,
        spec_disc_numbering(m.disc_breaks, t.number, total as u32),
        t.number as nat,
        total,
        layer,
    )
}

/// The name a placed file would take before collisions: its folders
/// joined under `dest`, then its base name.
pub open spec fn placed_base(dest: Seq<char>, place: (Seq<char>, Seq<Seq<char>>)) -> Seq<char> {
    join_one(join_all(dest, place.1), place.0)
}

/// `jobs` is the mixdown plan of `tracks`: one job per track, in order,
/// each at the first free name of its place, given the files that exist
/// and the names of the jobs before it.
pub open spec fn planned_mixdown(
    jobs: Seq<ExportJob>,
    tracks: Seq<TrackInfo>,
    volumes: Seq<Seq<u32>>,
    cfg: ExportConfig,
    stem: Seq<char>,
    fmt: Option<(ExportFormat, u8, Option<u32>)>,
    m: AlbumMetaView,
    existing: Seq<Seq<char>>,
) -> bool {
    &&& jobs.len() == tracks.len()
    &&& forall|i: int|
        #![trigger jobs[i]]
        0 <= i < tracks.len() ==> {
            &&& is_track_job(jobs[i], tracks[i], m, stem, tracks.len() as u32, jobs[i].out_path@, volumes[i], fmt)
            &&& first_free(
                jobs[i].out_path@,
                placed_base(cfg.dest_dir@, track_place(cfg.template@, m, stem, tracks[i], tracks.len(), None)),
                out_ext(cfg.format, fmt),
                existing + job_paths(jobs.take(i)),
            )
        }
}

/// Track numbers are 1-based.
pub open spec fn numbered(tracks: Seq<TrackInfo>) -> bool {
    forall|i: int| 0 <= i < tracks.len() ==> (#[trigger] tracks[i]).number >= 1
}

/// The volumes of every track, as plain values.
pub open spec fn volumes_view(v: Seq<Vec<u32>>) -> Seq<Seq<u32>> {
    v.map_values(|x: Vec<u32>| x@)
}

/// A copy of a list of texts.
fn copy_texts(v: &Vec<String>) -> (r: Vec<String>)
    ensures
        texts(r@) == texts(v@),
{
    let mut out: Vec<String> = Vec::new();
    let mut i: usize = 0;
    while i < v.len()
        invariant
            i <= v@.len(),
            texts(out@) == texts(v@).take(i as int),
        decreases v@.len() - i,
    {
        let ghost before = out@;
        let c = v[i].clone();
        out.push(c);
        proof {
            assert(out@ =~= before.push(c));
            assert(texts(out@) =~= texts(before).push(c@));
            assert(texts(v@).take(i + 1) =~= texts(v@).take(i as int).push(v@[i as int]@));
        }
        i += 1;
    }
    proof {
        assert(texts(v@).take(v@.len() as int) =~= texts(v@));
    }
    out
}

/// Plan a mixdown export without album metadata.
pub fn plan_export(
    tracks: &Vec<TrackInfo>,
    volumes: &Vec<Vec<u32>>,
    cfg: &ExportConfig,
    source_stem: &str,
    source_fmt: Option<(ExportFormat, u8, Option<u32>)>,
    existing: &Vec<String>,
) -> (r: Result<Vec<ExportJob>, StillError>)
    requires
        volumes@.len() == tracks@.len(),
        tracks@.len() <= u32::MAX,
        numbered(tracks@),
    ensures
        r is Err <==> trim(cfg.dest_dir@).len() == 0,
        r matches Err(e) ==> (e matches StillError::InvalidProject(msg) && msg@ == NO_DESTINATION@),
        r matches Ok(jobs) ==> planned_mixdown(
            jobs@,
            tracks@,
            volumes_view(volumes@),
            *cfg,
            source_stem@,
            used_fmt(cfg.format, source_fmt),
            empty_meta(),
            texts(existing@),
        ),
{
    let meta = AlbumMeta::default();
    plan_export_with_meta(tracks, volumes, cfg, source_stem, source_fmt, &meta, existing)
}

/// Plan a mixdown export: one job per track, named by the template (its
/// macros expanded from the album metadata), placed under the destination
/// folder, never on an existing file nor on a name given earlier in the
/// plan. `volumes` holds each track's resolved layer volumes, `existing`
/// the files already present, and `source_fmt` the source file's own
/// format (used when the configuration asks for `Source`).
pub fn plan_export_with_meta(
    tracks: &Vec<TrackInfo>,
    volumes: &Vec<Vec<u32>>,
    cfg: &ExportConfig,
    source_stem: &str,
    source_fmt: Option<(ExportFormat, u8, Option<u32>)>,
    meta: &AlbumMeta,
    existing: &Vec<String>,
) -> (r: Result<Vec<ExportJob>, StillError>)
    requires
        volumes@.len() == tracks@.len(),
        tracks@.len() <= u32::MAX,
        numbered(tracks@),
        meta.disc_breaks@.len() < u32::MAX,
    ensures
        r is Err <==> trim(cfg.dest_dir@).len() == 0,
        r matches Err(e) ==> (e matches StillError::InvalidProject(msg) && msg@ == NO_DESTINATION@),
        r matches Ok(jobs) ==> planned_mixdown(
            jobs@,
            tracks@,
            volumes_view(volumes@),
            *cfg,
            source_stem@,
            used_fmt(cfg.format, source_fmt),
            meta@,
            texts(existing@),
        ),
{
    match check_destination(cfg) {
        Err(e) => {
            return Err(e);
        },
        Ok(()) => {},
    }
    let fmt = match cfg.format {
        ExportFormat::Source => source_fmt,
        _ => None,
    };
    let ext: &str = match fmt {
        Some((f, _, _)) => f.extension(),
        None => cfg.format.extension(),
    };
    let n = tracks.len();
    let total = n as u32;
    let ghost stem = source_stem@;
    let ghost m = meta@;
    let mut taken = copy_texts(existing);
    let mut jobs: Vec<ExportJob> = Vec::new();
    let mut i: usize = 0;
    while i < n
        invariant
            n == tracks@.len(),
            total == n,
            n <= u32::MAX,
            i <= n,
            volumes@.len() == n,
            numbered(tracks@),
            meta.disc_breaks@.len() < u32::MAX,
            m == meta@,
            stem == source_stem@,
            fmt == used_fmt(cfg.format, source_fmt),
            ext@ == out_ext(cfg.format, fmt),
            jobs@.len() == i,
            texts(taken@) == texts(existing@) + job_paths(jobs@),
            forall|k: int|
                #![trigger jobs@[k]]
                0 <= k < i ==> {
                    &&& is_track_job(
                        jobs@[k],
                        tracks@[k],
                        m,
                        stem,
                        total,
                        jobs@[k].out_path@,
                        volumes_view(volumes@)[k],
                        fmt,
                    )
                    &&& first_free(
                        jobs@[k].out_path@,
                        placed_base(cfg.dest_dir@, track_place(cfg.template@, m, stem, tracks@[k], n as nat, None)),
                        out_ext(cfg.format, fmt),
                        texts(existing@) + job_paths(jobs@.take(k)),
                    )
                },
        decreases n - i,
    {
        let t = &tracks[i];
        assert(t.number >= 1);
        let numbering = disc_numbering(meta.disc_breaks.as_slice(), t.number, total);
        let ctx = MacroContext { meta, title: t.title.as_str(), source_stem, numbering };
        let (base, dirs) = file_place(cfg.template.as_str(), &ctx, t.number as usize, n, None);
        let parent = join_segments(cfg.dest_dir.as_str(), &dirs);
        let full_base = join_text(&parent, &base);
        let path = unique_file_name(full_base.as_str(), ext, &taken);
        let job = track_job(t, meta, source_stem, total, path.clone(), copy_vec(&volumes[i]), fmt);
        proof {
            assert(volumes_view(volumes@)[i as int] == volumes@[i as int]@);
            assert(path@ == job.out_path@);
        }
        let ghost before = jobs@;
        let ghost taken_before = taken@;
        taken.push(path);
        jobs.push(job);
        proof {
            assert(taken@ =~= taken_before.push(path));
            assert(texts(taken@) =~= texts(taken_before).push(path@));
            assert(jobs@ =~= before.push(job));
            assert(jobs@.take(i as int) =~= before);
            assert(job_paths(jobs@) =~= job_paths(before).push(job.out_path@));
            assert(texts(taken@) =~= texts(existing@) + job_paths(jobs@));
            assert forall|k: int| 0 <= k < i implies jobs@.take(k) =~= before.take(k) by {}
        }
        i += 1;
    }
    Ok(jobs)
}

// ---------------------------------------------------------------------------
// Stems.

/// The stems of track `i`: (track, layer, volume) of each layer among the
/// first `n` that yields a stem, in layer order.
pub open spec fn layer_stems(i: int, vols: Seq<u32>, apply_mix: bool, n: nat) -> Seq<(int, int, u32)>
    decreases n,
{
    if n == 0 {
        seq![]
    } else {
        let prev = layer_stems(i, vols, apply_mix, (n - 1) as nat);
        match spec_stem_volume(vols, n - 1, apply_mix) {
            Some(v) => prev.push((i, n - 1, v)),
            None => prev,
        }
    }
}

/// The stems of the first `k` tracks, track by track.
pub open spec fn stem_entries(vols: Seq<Seq<u32>>, n_layers: nat, apply_mix: bool, k: nat) -> Seq<(int, int, u32)>
    decreases k,
{
    if k == 0 {
        seq![]
    } else {
        stem_entries(vols, n_layers, apply_mix, (k - 1) as nat) + layer_stems(k - 1, vols[k - 1], apply_mix, n_layers)
    }
}

/// Job `q` of `jobs` is the stem `entry`, at the first free name of its
/// place given the files that exist and the names of the jobs before it.
pub open spec fn stem_planned_at(
    jobs: Seq<ExportJob>,
    q: int,
    entry: (int, int, u32),
    tracks: Seq<TrackInfo>,
    cfg: ExportConfig,
    stem: Seq<char>,
    names: Seq<Seq<char>>,
    fmts: Seq<Option<(ExportFormat, u8, Option<u32>)>>,
    m: AlbumMetaView,
    existing: Seq<Seq<char>>,
) -> bool {
    let (i, li, v) = entry;
    let fmt = used_fmt(cfg.format, fmts[li]);
    &&& is_stem_job(
        jobs[q],
        tracks[i],
        m,
        stem,
        tracks.len() as u32,
        (q + 1) as u32,
        names[li],
        li,
        names.len(),
        v,
        jobs[q].out_path@,
        fmt,
    )
    &&& first_free(
        jobs[q].out_path@,
        placed_base(
            cfg.dest_dir@,
            track_place(cfg.template@, m, stem, tracks[i], tracks.len(), Some((li as nat, names[li]))),
        ),
        out_ext(cfg.format, fmt),
        existing + job_paths(jobs.take(q)),
    )
}

/// `jobs` is the stems plan: one job per stem of `stem_entries`, in order,
/// numbered from 1.
pub open spec fn planned_stems(
    jobs: Seq<ExportJob>,
    tracks: Seq<TrackInfo>,
    volumes: Seq<Seq<u32>>,
    cfg: ExportConfig,
    stem: Seq<char>,
    names: Seq<Seq<char>>,
    fmts: Seq<Option<(ExportFormat, u8, Option<u32>)>>,
    apply_mix: bool,
    m: AlbumMetaView,
    existing: Seq<Seq<char>>,
) -> bool {
    let e = stem_entries(volumes, names.len(), apply_mix, tracks.len());
    &&& jobs.len() == e.len()
    &&& forall|q: int|
        0 <= q < e.len() ==> #[trigger] stem_planned_at(jobs, q, e[q], tracks, cfg, stem, names, fmts, m, existing)
}

/// The display names of the stem layers.
pub open spec fn layer_names(layers: Seq<StemLayer>) -> Seq<Seq<char>> {
    layers.map_values(|l: StemLayer| l.name@)
}

proof fn lemma_slot(i: int, li: int, n: int, nl: int)
    by (nonlinear_arith)
    requires
        0 <= i < n,
        0 <= li < nl,
    ensures
        i * nl + li + 1 <= n * nl,
{
}

proof fn lemma_next_row(i: int, nl: int)
    by (nonlinear_arith)
    ensures
        (i + 1) * nl == i * nl + nl,
{
}

/// A stem plan keeps its entries when a job is added after them.
proof fn lemma_stems_extend(
    jobs: Seq<ExportJob>,
    job: ExportJob,
    e: Seq<(int, int, u32)>,
    tracks: Seq<TrackInfo>,
    cfg: ExportConfig,
    stem: Seq<char>,
    names: Seq<Seq<char>>,
    fmts: Seq<Option<(ExportFormat, u8, Option<u32>)>>,
    m: AlbumMetaView,
    existing: Seq<Seq<char>>,
)
    requires
        e.len() <= jobs.len(),
        forall|q: int|
            0 <= q < e.len() ==> #[trigger] stem_planned_at(jobs, q, e[q], tracks, cfg, stem, names, fmts, m, existing),
    ensures
        forall|q: int|
            0 <= q < e.len() ==> #[trigger] stem_planned_at(
                jobs.push(job),
                q,
                e[q],
                tracks,
                cfg,
                stem,
                names,
                fmts,
                m,
                existing,
            ),
{
    assert forall|q: int| 0 <= q < e.len() implies #[trigger] stem_planned_at(
        jobs.push(job),
        q,
        e[q],
        tracks,
        cfg,
        stem,
        names,
        fmts,
        m,
        existing,
    ) by {
        assert(stem_planned_at(jobs, q, e[q], tracks, cfg, stem, names, fmts, m, existing));
        assert(jobs.push(job).take(q) =~= jobs.take(q));
        assert(jobs.push(job)[q] == jobs[q]);
    }
}

/// Plan a multitrack (stems) export: one job per track and layer, each
/// rendering that layer alone with one-hot volumes. Without `apply_mix`
/// every layer is cut raw at unity; with it, a layer keeps its resolved
/// volume for the track and a fully muted layer yields no stem. Stems are
/// numbered in sequence over the whole export; templates also expand
/// `{layer}` (the layer's name) and `{ln}` (its 1-based index, two
/// digits). `layer_fmts` holds each layer's source format (used when the
/// configuration asks for `Source`).
pub fn plan_export_stems(
    tracks: &Vec<TrackInfo>,
    volumes: &Vec<Vec<u32>>,
    cfg: &ExportConfig,
    source_stem: &str,
    meta: &AlbumMeta,
    stem_layers: &Vec<StemLayer>,
    layer_fmts: &Vec<Option<(ExportFormat, u8, Option<u32>)>>,
    apply_mix: bool,
    existing: &Vec<String>,
) -> (r: Result<Vec<ExportJob>, StillError>)
    requires
        volumes@.len() == tracks@.len(),
        layer_fmts@.len() == stem_layers@.len(),
        tracks@.len() <= u32::MAX,
        tracks@.len() * stem_layers@.len() <= u32::MAX,
        numbered(tracks@),
        meta.disc_breaks@.len() < u32::MAX,
    ensures
        r is Err <==> trim(cfg.dest_dir@).len() == 0,
        r matches Err(e) ==> (e matches StillError::InvalidProject(msg) && msg@ == NO_DESTINATION@),
        r matches Ok(jobs) ==> planned_stems(
            jobs@,
            tracks@,
            volumes_view(volumes@),
            *cfg,
            source_stem@,
            layer_names(stem_layers@),
            layer_fmts@,
            apply_mix,
            meta@,
            texts(existing@),
        ),
{
    match check_destination(cfg) {
        Err(e) => {
            return Err(e);
        },
        Ok(()) => {},
    }
    let n = tracks.len();
    let nl = stem_layers.len();
    let ghost vols = volumes_view(volumes@);
    let ghost names = layer_names(stem_layers@);
    let ghost stem = source_stem@;
    let ghost m = meta@;
    let ghost fmts = layer_fmts@;
    let ghost ex = texts(existing@);
    let ghost tr = tracks@;
    let mut taken = copy_texts(existing);
    let mut jobs: Vec<ExportJob> = Vec::new();
    let mut i: usize = 0;
    while i < n
        invariant
            n == tracks@.len(),
            tr == tracks@,
            nl == stem_layers@.len(),
            nl == layer_fmts@.len(),
            n * nl <= u32::MAX,
            n <= u32::MAX,
            i <= n,
            volumes@.len() == n,
            vols == volumes_view(volumes@),
            names == layer_names(stem_layers@),
            fmts == layer_fmts@,
            ex == texts(existing@),
            numbered(tracks@),
            meta.disc_breaks@.len() < u32::MAX,
            m == meta@,
            stem == source_stem@,
            jobs@.len() == stem_entries(vols, nl as nat, apply_mix, i as nat).len(),
            jobs@.len() <= i * nl,
            texts(taken@) == ex + job_paths(jobs@),
            forall|q: int|
                0 <= q < stem_entries(vols, nl as nat, apply_mix, i as nat).len() ==> #[trigger] stem_planned_at(
                    jobs@,
                    q,
                    stem_entries(vols, nl as nat, apply_mix, i as nat)[q],
                    tr,
                    *cfg,
                    stem,
                    names,
                    fmts,
                    m,
                    ex,
                ),
        decreases n - i,
    {
        let t = &tracks[i];
        assert(t.number >= 1);
        let total = n as u32;
        let numbering = disc_numbering(meta.disc_breaks.as_slice(), t.number, total);
        let ctx = MacroContext { meta, title: t.title.as_str(), source_stem, numbering };
        let ghost e0 = stem_entries(vols, nl as nat, apply_mix, i as nat);
        let mut li: usize = 0;
        while li < nl
            invariant
                n == tracks@.len(),
                tr == tracks@,
                i < n,
                total == n,
                n <= u32::MAX,
                nl == stem_layers@.len(),
                nl == layer_fmts@.len(),
                n * nl <= u32::MAX,
                li <= nl,
                volumes@.len() == n,
                vols == volumes_view(volumes@),
                names == layer_names(stem_layers@),
                fmts == layer_fmts@,
                ex == texts(existing@),
                t == &tracks@[i as int],
                t.number >= 1,
                meta.disc_breaks@.len() < u32::MAX,
                m == meta@,
                stem == source_stem@,
                ctx.meta == meta,
                ctx.title@ == t.title@,
                ctx.source_stem@ == source_stem@,
                ctx.numbering == spec_disc_numbering(m.disc_breaks, t.number, total),
                e0 == stem_entries(vols, nl as nat, apply_mix, i as nat),
                jobs@.len() == e0.len() + layer_stems(i as int, vols[i as int], apply_mix, li as nat).len(),
                jobs@.len() <= i * nl + li,
                texts(taken@) == ex + job_paths(jobs@),
                forall|q: int|
                    0 <= q < (e0 + layer_stems(i as int, vols[i as int], apply_mix, li as nat)).len()
                        ==> #[trigger] stem_planned_at(
                        jobs@,
                        q,
                        (e0 + layer_stems(i as int, vols[i as int], apply_mix, li as nat))[q],
                        tr,
                        *cfg,
                        stem,
                        names,
                        fmts,
                        m,
                        ex,
                    ),
            decreases nl - li,
        {
            let ghost cur = e0 + layer_stems(i as int, vols[i as int], apply_mix, li as nat);
            proof {
                assert(vols[i as int] == volumes@[i as int]@);
            }
            let vol = stem_volume(&volumes[i], li, apply_mix);
            match vol {
                None => {
                    proof {
                        assert(e0 + layer_stems(i as int, vols[i as int], apply_mix, (li + 1) as nat) == cur);
                    }
                },
                Some(v) => {
                    let layer = &stem_layers[li];
                    proof {
                        assert(names[li as int] == layer.name@);
                    }
                    let fmt = match cfg.format {
                        ExportFormat::Source => layer_fmts[li],
                        _ => None,
                    };
                    let ext: &str = match fmt {
                        Some((f, _, _)) => f.extension(),
                        None => cfg.format.extension(),
                    };
                    let (base, dirs) = file_place(
                        cfg.template.as_str(),
                        &ctx,
                        t.number as usize,
                        n,
                        Some((li, layer.name.as_str())),
                    );
                    let parent = join_segments(cfg.dest_dir.as_str(), &dirs);
                    let full_base = join_text(&parent, &base);
                    let path = unique_file_name(full_base.as_str(), ext, &taken);
                    proof {
                        lemma_slot(i as int, li as int, n as int, nl as int);
                    }
                    let seq_number = (jobs.len() + 1) as u32;
                    let job = stem_job(
                        t,
                        meta,
                        source_stem,
                        total,
                        seq_number,
                        layer.name.as_str(),
                        li,
                        nl,
                        v,
                        path.clone(),
                        fmt,
                    );
                    let ghost before = jobs@;
                    let ghost taken_before = taken@;
                    taken.push(path);
                    jobs.push(job);
                    proof {
                        let next = e0 + layer_stems(i as int, vols[i as int], apply_mix, (li + 1) as nat);
                        assert(next == cur.push((i as int, li as int, v)));
                        assert(taken@ =~= taken_before.push(path));
                        assert(texts(taken@) =~= texts(taken_before).push(path@));
                        assert(jobs@ =~= before.push(job));
                        assert(job_paths(jobs@) =~= job_paths(before).push(job.out_path@));
                        lemma_stems_extend(before, job, cur, tr, *cfg, stem, names, fmts, m, ex);
                        assert(jobs@.take(before.len() as int) =~= before);
                        assert(stem_planned_at(jobs@, before.len() as int, next[before.len() as int], tr, *cfg, stem, names, fmts, m, ex));
                        assert forall|q: int| 0 <= q < next.len() implies #[trigger] stem_planned_at(
                            jobs@,
                            q,
                            next[q],
                            tr,
                            *cfg,
                            stem,
                            names,
                            fmts,
                            m,
                            ex,
                        ) by {
                            if q < cur.len() {
                                assert(next[q] == cur[q]);
                            }
                        }
                    }
                },
            }
            li += 1;
        }
        proof {
            lemma_next_row(i as int, nl as int);
            assert(e0 + layer_stems(i as int, vols[i as int], apply_mix, nl as nat) == stem_entries(
                vols,
                nl as nat,
                apply_mix,
                (i + 1) as nat,
            ));
        }
        i += 1;
    }
    Ok(jobs)
}

// ---------------------------------------------------------------------------
// What a plan guarantees.

/// A name chosen as the first free one is not among the taken names.
proof fn lemma_first_free_not_taken(name: Seq<char>, base: Seq<char>, ext: Seq<char>, taken: Seq<Seq<char>>)
    requires
        first_free(name, base, ext, taken),
    ensures
        !taken.contains(name),
{
}

/// Paths chosen one after the other, each outside `existing` and the
/// earlier ones, are pairwise distinct and none exists.
proof fn lemma_fresh_paths(paths: Seq<Seq<char>>, existing: Seq<Seq<char>>)
    requires
        forall|i: int| 0 <= i < paths.len() ==> !(existing + paths.take(i)).contains(#[trigger] paths[i]),
    ensures
        forall|i: int| 0 <= i < paths.len() ==> !existing.contains(#[trigger] paths[i]),
        forall|i: int, j: int| 0 <= i < j < paths.len() ==> #[trigger] paths[i] != #[trigger] paths[j],
{
    assert forall|i: int| 0 <= i < paths.len() implies !existing.contains(#[trigger] paths[i]) by {
        if existing.contains(paths[i]) {
            let k = choose|k: int| 0 <= k < existing.len() && existing[k] == paths[i];
            assert((existing + paths.take(i))[k] == paths[i]);
        }
    }
    assert forall|i: int, j: int| 0 <= i < j < paths.len() implies #[trigger] paths[i] != #[trigger] paths[j] by {
        let t = existing + paths.take(j);
        assert(t[existing.len() + i] == paths[i]);
    }
}

/// A mixdown plan never writes over an existing file, and no two of its
/// jobs write the same file.
pub proof fn law_mixdown_paths_fresh(
    jobs: Seq<ExportJob>,
    tracks: Seq<TrackInfo>,
    volumes: Seq<Seq<u32>>,
    cfg: ExportConfig,
    stem: Seq<char>,
    fmt: Option<(ExportFormat, u8, Option<u32>)>,
    m: AlbumMetaView,
    existing: Seq<Seq<char>>,
)
    requires
        planned_mixdown(jobs, tracks, volumes, cfg, stem, fmt, m, existing),
    ensures
        forall|i: int| 0 <= i < jobs.len() ==> !existing.contains(#[trigger] jobs[i].out_path@),
        forall|i: int, j: int| 0 <= i < j < jobs.len() ==> #[trigger] jobs[i].out_path@ != #[trigger] jobs[j].out_path@,
{
    let paths = job_paths(jobs);
    assert forall|i: int| 0 <= i < paths.len() implies !(existing + paths.take(i)).contains(#[trigger] paths[i]) by {
        assert(jobs[i].out_path@ == paths[i]);
        assert(job_paths(jobs.take(i)) =~= paths.take(i));
        lemma_first_free_not_taken(
            jobs[i].out_path@,
            placed_base(cfg.dest_dir@, track_place(cfg.template@, m, stem, tracks[i], tracks.len(), None)),
            out_ext(cfg.format, fmt),
            existing + job_paths(jobs.take(i)),
        );
    }
    lemma_fresh_paths(paths, existing);
    assert forall|i: int| 0 <= i < jobs.len() implies !existing.contains(#[trigger] jobs[i].out_path@) by {
        assert(paths[i] == jobs[i].out_path@);
    }
    assert forall|i: int, j: int| 0 <= i < j < jobs.len() implies #[trigger] jobs[i].out_path@
        != #[trigger] jobs[j].out_path@ by {
        assert(paths[i] == jobs[i].out_path@);
        assert(paths[j] == jobs[j].out_path@);
    }
}

/// A stems plan never writes over an existing file, and no two of its
/// jobs write the same file.
pub proof fn law_stem_paths_fresh(
    jobs: Seq<ExportJob>,
    tracks: Seq<TrackInfo>,
    volumes: Seq<Seq<u32>>,
    cfg: ExportConfig,
    stem: Seq<char>,
    names: Seq<Seq<char>>,
    fmts: Seq<Option<(ExportFormat, u8, Option<u32>)>>,
    apply_mix: bool,
    m: AlbumMetaView,
    existing: Seq<Seq<char>>,
)
    requires
        planned_stems(jobs, tracks, volumes, cfg, stem, names, fmts, apply_mix, m, existing),
    ensures
        forall|i: int| 0 <= i < jobs.len() ==> !existing.contains(#[trigger] jobs[i].out_path@),
        forall|i: int, j: int| 0 <= i < j < jobs.len() ==> #[trigger] jobs[i].out_path@ != #[trigger] jobs[j].out_path@,
{
    let e = stem_entries(volumes, names.len(), apply_mix, tracks.len());
    let paths = job_paths(jobs);
    assert forall|i: int| 0 <= i < paths.len() implies !(existing + paths.take(i)).contains(#[trigger] paths[i]) by {
        assert(stem_planned_at(jobs, i, e[i], tracks, cfg, stem, names, fmts, m, existing));
        let (t, li, v) = e[i];
        let fmt = used_fmt(cfg.format, fmts[li]);
        assert(jobs[i].out_path@ == paths[i]);
        assert(job_paths(jobs.take(i)) =~= paths.take(i));
        lemma_first_free_not_taken(
            jobs[i].out_path@,
            placed_base(
                cfg.dest_dir@,
                track_place(cfg.template@, m, stem, tracks[t], tracks.len(), Some((li as nat, names[li]))),
            ),
            out_ext(cfg.format, fmt),
            existing + job_paths(jobs.take(i)),
        );
    }
    lemma_fresh_paths(paths, existing);
    assert forall|i: int| 0 <= i < jobs.len() implies !existing.contains(#[trigger] jobs[i].out_path@) by {
        assert(paths[i] == jobs[i].out_path@);
    }
    assert forall|i: int, j: int| 0 <= i < j < jobs.len() implies #[trigger] jobs[i].out_path@
        != #[trigger] jobs[j].out_path@ by {
        assert(paths[i] == jobs[i].out_path@);
        assert(paths[j] == jobs[j].out_path@);
    }
}

} // verus!
