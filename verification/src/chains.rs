//! Editing the insert chains of a session: the master bus, each layer and
//! each track own one. Plugin ids are global (allocated from the
//! project's counter), so a plugin is found by id wherever it lives: the
//! master chain first, then the layers, then the tracks, in order.

use vstd::prelude::*;
use crate::tracks::{as_ints, is_order, order_by_keys, sorted_order};
use crate::project::{
    find_region, layer_index_of, layers_view, index_of_id, regions_view, ChainTarget, LayerData, MasteringPluginCfg,
    Project, ProjectState, RegionView,
};

verus! {

/// Where a chain lives: the master bus, or the layer / track at an index.
#[derive(Debug, Clone, Copy, PartialEq, Eq)]
pub enum ChainSlot {
    Master,
    Layer(usize),
    Track(usize),
}

/// The slot exists in `p`.
pub open spec fn slot_ok(p: Project, s: ChainSlot) -> bool {
    match s {
        ChainSlot::Master => true,
        ChainSlot::Layer(k) => k < p.layers@.len(),
        ChainSlot::Track(k) => k < p.regions@.len(),
    }
}

/// The chain in slot `s` of `p`.
pub open spec fn slot_chain(p: Project, s: ChainSlot) -> Seq<MasteringPluginCfg> {
    match s {
        ChainSlot::Master => p.mastering_chain@,
        ChainSlot::Layer(k) => p.layers@[k as int].inserts@,
        ChainSlot::Track(k) => p.regions@[k as int].inserts@,
    }
}

/// The slot a target names, if its layer or track exists.
pub open spec fn target_slot(p: Project, t: ChainTarget) -> Option<ChainSlot> {
    match t {
        ChainTarget::Master => Some(ChainSlot::Master),
        ChainTarget::Layer { id } => {
            let k = layer_index_of(p.layers@, id);
            if k < 0 {
                None
            } else {
                Some(ChainSlot::Layer(k as usize))
            }
        },
        ChainTarget::Track { id } => {
            let k = index_of_id(p.regions@, id);
            if k < 0 {
                None
            } else {
                Some(ChainSlot::Track(k as usize))
            }
        },
    }
}

/// `q` is `p` with the chain in slot `s` replaced by `c`; everything else,
/// the plugin id counter included, is unchanged.
pub open spec fn replaced(p: Project, q: Project, s: ChainSlot, c: Seq<MasteringPluginCfg>) -> bool {
    &&& q.version == p.version
    &&& q.snap_to_zero == p.snap_to_zero
    &&& q.export_config == p.export_config
    &&& q.album_meta@ == p.album_meta@
    &&& q.next_plugin_id == p.next_plugin_id
    &&& q.next_region_id == p.next_region_id
    &&& q.next_layer_id == p.next_layer_id
    &&& q.mastering_chain@ == (if s == ChainSlot::Master {
        c
    } else {
        p.mastering_chain@
    })
    &&& layers_view(q.layers@) == match s {
        ChainSlot::Layer(k) => layers_view(p.layers@).update(
            k as int,
            LayerData { inserts: c, ..p.layers@[k as int]@ },
        ),
        _ => layers_view(p.layers@),
    }
    &&& regions_view(q.regions@) == match s {
        ChainSlot::Track(k) => regions_view(p.regions@).update(
            k as int,
            RegionView { inserts: c, ..p.regions@[k as int]@ },
        ),
        _ => regions_view(p.regions@),
    }
}

/// The first position of plugin `id` in `c` from `i` on, or -1.
pub open spec fn plugin_from(c: Seq<MasteringPluginCfg>, id: u32, i: int) -> int
    decreases c.len() - i,
{
    if i < 0 || i >= c.len() {
        -1
    } else if c[i].id == id {
        i
    } else {
        plugin_from(c, id, i + 1)
    }
}

pub open spec fn plugin_pos(c: Seq<MasteringPluginCfg>, id: u32) -> int {
    plugin_from(c, id, 0)
}

/// The first layer from `i` on whose chain holds plugin `id`, or -1.
pub open spec fn layer_holding(p: Project, id: u32, i: int) -> int
    decreases p.layers@.len() - i,
{
    if i < 0 || i >= p.layers@.len() {
        -1
    } else if plugin_pos(p.layers@[i].inserts@, id) >= 0 {
        i
    } else {
        layer_holding(p, id, i + 1)
    }
}

/// The first track from `i` on whose chain holds plugin `id`, or -1.
pub open spec fn track_holding(p: Project, id: u32, i: int) -> int
    decreases p.regions@.len() - i,
{
    if i < 0 || i >= p.regions@.len() {
        -1
    } else if plugin_pos(p.regions@[i].inserts@, id) >= 0 {
        i
    } else {
        track_holding(p, id, i + 1)
    }
}

/// The slot whose chain holds plugin `id`: the master chain, else the
/// first layer, else the first track holding it.
pub open spec fn holder(p: Project, id: u32) -> Option<ChainSlot> {
    if plugin_pos(p.mastering_chain@, id) >= 0 {
        Some(ChainSlot::Master)
    } else if layer_holding(p, id, 0) >= 0 {
        Some(ChainSlot::Layer(layer_holding(p, id, 0) as usize))
    } else if track_holding(p, id, 0) >= 0 {
        Some(ChainSlot::Track(track_holding(p, id, 0) as usize))
    } else {
        None
    }
}

/// A chain without plugin `id`.
pub open spec fn without_plugin(c: Seq<MasteringPluginCfg>, id: u32) -> Seq<MasteringPluginCfg>
    decreases c.len(),
{
    if c.len() == 0 {
        c
    } else if c.last().id == id {
        without_plugin(c.drop_last(), id)
    } else {
        without_plugin(c.drop_last(), id).push(c.last())
    }
}

/// Where a plugin at `pos` of a chain of `len` plugins lands when moved
/// by `delta`: clamped to the chain.
pub open spec fn moved_pos(pos: int, delta: i32, len: int) -> int {
    let p = pos + delta;
    if p < 0 {
        0
    } else if p > len - 1 {
        len - 1
    } else {
        p
    }
}

/// The session state apart from the project is left alone.
pub open spec fn rest_unchanged(a: ProjectState, b: ProjectState) -> bool {
    &&& b.info == a.info
    &&& b.peaks == a.peaks
    &&& b.project_path == a.project_path
    &&& b.undo == a.undo
    &&& b.redo == a.redo
}

/// What adding a plugin to a chain that no longer exists is answered.
pub const NO_SUCH_CHAIN: &'static str = "this layer or track no longer exists";

fn plugin_index(c: &Vec<MasteringPluginCfg>, id: u32) -> (r: Option<usize>)
    ensures
        match r {
            Some(i) => i == plugin_pos(c@, id) && i < c@.len(),
            None => plugin_pos(c@, id) < 0,
        },
{
    let mut i: usize = 0;
    while i < c.len()
        invariant
            i <= c@.len(),
            plugin_from(c@, id, i as int) == plugin_pos(c@, id),
        decreases c@.len() - i,
    {
        if c[i].id == id {
            return Some(i);
        }
        i += 1;
    }
    None
}

fn filter_out(c: &Vec<MasteringPluginCfg>, id: u32) -> (r: Vec<MasteringPluginCfg>)
    ensures
        r@ == without_plugin(c@, id),
{
    let mut out: Vec<MasteringPluginCfg> = Vec::new();
    let mut i: usize = 0;
    while i < c.len()
        invariant
            i <= c@.len(),
            out@ == without_plugin(c@.take(i as int), id),
        decreases c@.len() - i,
    {
        let ghost t = c@.take(i + 1);
        assert(t.drop_last() =~= c@.take(i as int));
        if c[i].id != id {
            out.push(c[i].clone());
        }
        i += 1;
    }
    assert(c@.take(c@.len() as int) =~= c@);
    out
}

fn moved(c: &Vec<MasteringPluginCfg>, pos: usize, delta: i32) -> (r: Vec<MasteringPluginCfg>)
    requires
        pos < c@.len(),
    ensures
        r@ == c@.remove(pos as int).insert(moved_pos(pos as int, delta, c@.len() as int), c@[pos as int]),
{
    let mut out: Vec<MasteringPluginCfg> = c.clone();
    assert(out@ =~= c@);
    let last = c.len() - 1;
    let new_pos: usize = if delta >= 0 {
        let d = delta as usize;
        if d > last - pos {
            last
        } else {
            pos + d
        }
    } else {
        let d = (-(delta as i64)) as usize;
        if d > pos {
            0
        } else {
            pos - d
        }
    };
    let item = out.remove(pos);
    out.insert(new_pos, item);
    out
}

impl ProjectState {
    /// The slot a target names, if its layer or track still exists.
    pub fn slot_of(&self, target: ChainTarget) -> (r: Option<ChainSlot>)
        ensures
            r == target_slot(self.project, target),
            r matches Some(s) ==> slot_ok(self.project, s),
    {
        match target {
            ChainTarget::Master => Some(ChainSlot::Master),
            ChainTarget::Layer { id } => match self.layer_index(id) {
                Ok(k) => Some(ChainSlot::Layer(k)),
                Err(_) => None,
            },
            ChainTarget::Track { id } => match find_region(&self.project.regions, id) {
                Some(k) => Some(ChainSlot::Track(k)),
                None => None,
            },
        }
    }

    /// The slot whose chain holds plugin `plugin_id`.
    pub fn slot_holding(&self, plugin_id: u32) -> (r: Option<ChainSlot>)
        ensures
            r == holder(self.project, plugin_id),
            r matches Some(s) ==> slot_ok(self.project, s) && plugin_pos(slot_chain(self.project, s), plugin_id)
                >= 0,
    {
        let p = &self.project;
        if plugin_index(&p.mastering_chain, plugin_id).is_some() {
            return Some(ChainSlot::Master);
        }
        let mut i: usize = 0;
        while i < p.layers.len()
            invariant
                i <= p.layers@.len(),
                p == &self.project,
                plugin_pos(p.mastering_chain@, plugin_id) < 0,
                layer_holding(*p, plugin_id, i as int) == layer_holding(*p, plugin_id, 0),
            decreases p.layers@.len() - i,
        {
            if plugin_index(&p.layers[i].inserts, plugin_id).is_some() {
                return Some(ChainSlot::Layer(i));
            }
            i += 1;
        }
        let mut j: usize = 0;
        while j < p.regions.len()
            invariant
                j <= p.regions@.len(),
                p == &self.project,
                layer_holding(*p, plugin_id, 0) < 0,
                plugin_pos(p.mastering_chain@, plugin_id) < 0,
                track_holding(*p, plugin_id, j as int) == track_holding(*p, plugin_id, 0),
            decreases p.regions@.len() - j,
        {
            if plugin_index(&p.regions[j].inserts, plugin_id).is_some() {
                return Some(ChainSlot::Track(j));
            }
            j += 1;
        }
        None
    }

    /// The chain that owns plugin `plugin_id`, as a target (plugin ids are
    /// global over the master bus, the layers and the tracks).
    pub fn chain_containing(&self, plugin_id: u32) -> (r: Option<ChainTarget>)
        ensures
            r == match holder(self.project, plugin_id) {
                Some(ChainSlot::Master) => Some(ChainTarget::Master),
                Some(ChainSlot::Layer(k)) => Some(ChainTarget::Layer { id: self.project.layers@[k as int].id }),
                Some(ChainSlot::Track(k)) => Some(ChainTarget::Track { id: self.project.regions@[k as int].id }),
                None => None,
            },
    {
        match self.slot_holding(plugin_id) {
            Some(ChainSlot::Master) => Some(ChainTarget::Master),
            Some(ChainSlot::Layer(k)) => Some(ChainTarget::Layer { id: self.project.layers[k].id }),
            Some(ChainSlot::Track(k)) => Some(ChainTarget::Track { id: self.project.regions[k].id }),
            None => None,
        }
    }

    /// Replace the chain in slot `slot`.
    pub fn replace_chain(&mut self, slot: ChainSlot, chain: Vec<MasteringPluginCfg>)
        requires
            slot_ok(old(self).project, slot),
        ensures
            replaced(old(self).project, final(self).project, slot, chain@),
            rest_unchanged(*old(self), *final(self)),
    {
        match slot {
            ChainSlot::Master => {
                self.project.mastering_chain = chain;
            },
            ChainSlot::Layer(k) => {
                let mut layer = self.project.layers.remove(k);
                layer.inserts = chain;
                self.project.layers.insert(k, layer);
                proof {
                    let o = old(self).project.layers@;
                    assert(layers_view(self.project.layers@) =~= layers_view(o).update(
                        k as int,
                        LayerData { inserts: chain@, ..o[k as int]@ },
                    ));
                }
            },
            ChainSlot::Track(k) => {
                let mut region = self.project.regions.remove(k);
                region.inserts = chain;
                self.project.regions.insert(k, region);
                proof {
                    let o = old(self).project.regions@;
                    assert(regions_view(self.project.regions@) =~= regions_view(o).update(
                        k as int,
                        RegionView { inserts: chain@, ..o[k as int]@ },
                    ));
                }
            },
        }
    }

    /// Replace `target`'s chain; false (nothing changed) when its layer or
    /// track no longer exists.
    pub fn set_chain(&mut self, target: ChainTarget, chain: Vec<MasteringPluginCfg>) -> (r: bool)
        ensures
            r == (target_slot(old(self).project, target) is Some),
            match target_slot(old(self).project, target) {
                Some(s) => replaced(old(self).project, final(self).project, s, chain@),
                None => *final(self) == *old(self),
            },
            rest_unchanged(*old(self), *final(self)),
    {
        match self.slot_of(target) {
            Some(s) => {
                self.replace_chain(s, chain);
                true
            },
            None => false,
        }
    }

    /// Append a new plugin (enabled, no saved state) to `target`'s chain
    /// under the next plugin id, which is returned. The id is used up even
    /// when the layer or track no longer exists.
    pub fn add_chain_plugin(&mut self, target: ChainTarget, component: String, name: String) -> (r: Result<
        u32,
        String,
    >)
        requires
            old(self).project.next_plugin_id < u32::MAX,
        ensures
            ({
                let p = old(self).project;
                let id = p.next_plugin_id;
                let cfg = MasteringPluginCfg { id, component, name, bypass: false, state_b64: None };
                match target_slot(p, target) {
                    None => r matches Err(m) && m@ == NO_SUCH_CHAIN@ && final(self).project.next_plugin_id
                        == id + 1,
                    Some(s) => r == Ok::<u32, String>(id) && replaced(
                        Project { next_plugin_id: (id + 1) as u32, ..p },
                        final(self).project,
                        s,
                        slot_chain(p, s).push(cfg),
                    ),
                }
            }),
            rest_unchanged(*old(self), *final(self)),
    {
        let id = self.project.next_plugin_id;
        self.project.next_plugin_id = id + 1;
        let cfg = MasteringPluginCfg { id, component, name, bypass: false, state_b64: None };
        match self.slot_of(target) {
            None => Err(String::from_str(NO_SUCH_CHAIN)),
            Some(s) => {
                let mut chain = match s {
                    ChainSlot::Master => self.project.mastering_chain.clone(),
                    ChainSlot::Layer(k) => self.project.layers[k].inserts.clone(),
                    ChainSlot::Track(k) => self.project.regions[k].inserts.clone(),
                };
                assert(chain@ =~= slot_chain(self.project, s));
                chain.push(cfg);
                self.replace_chain(s, chain);
                Ok(id)
            },
        }
    }

    /// Remove plugin `plugin_id` from whichever chain holds it (nothing
    /// happens when none does).
    pub fn remove_chain_plugin(&mut self, plugin_id: u32)
        ensures
            match holder(old(self).project, plugin_id) {
                None => *final(self) == *old(self),
                Some(s) => replaced(
                    old(self).project,
                    final(self).project,
                    s,
                    without_plugin(slot_chain(old(self).project, s), plugin_id),
                ),
            },
            rest_unchanged(*old(self), *final(self)),
    {
        match self.slot_holding(plugin_id) {
            None => {},
            Some(s) => {
                let chain = match s {
                    ChainSlot::Master => filter_out(&self.project.mastering_chain, plugin_id),
                    ChainSlot::Layer(k) => filter_out(&self.project.layers[k].inserts, plugin_id),
                    ChainSlot::Track(k) => filter_out(&self.project.regions[k].inserts, plugin_id),
                };
                self.replace_chain(s, chain);
            },
        }
    }

    /// Move plugin `plugin_id` by `delta` places within its own chain,
    /// clamped to the chain's ends (nothing happens when no chain holds
    /// it).
    pub fn move_chain_plugin(&mut self, plugin_id: u32, delta: i32)
        ensures
            match holder(old(self).project, plugin_id) {
                None => *final(self) == *old(self),
                Some(s) => {
                    let c = slot_chain(old(self).project, s);
                    let pos = plugin_pos(c, plugin_id);
                    replaced(
                        old(self).project,
                        final(self).project,
                        s,
                        c.remove(pos).insert(moved_pos(pos, delta, c.len() as int), c[pos]),
                    )
                },
            },
            rest_unchanged(*old(self), *final(self)),
    {
        match self.slot_holding(plugin_id) {
            None => {},
            Some(s) => {
                let current = match s {
                    ChainSlot::Master => self.project.mastering_chain.clone(),
                    ChainSlot::Layer(k) => self.project.layers[k].inserts.clone(),
                    ChainSlot::Track(k) => self.project.regions[k].inserts.clone(),
                };
                assert(current@ =~= slot_chain(self.project, s));
                match plugin_index(&current, plugin_id) {
                    None => {},
                    Some(pos) => {
                        let chain = moved(&current, pos, delta);
                        self.replace_chain(s, chain);
                    },
                }
            },
        }
    }
}

// ---------------------------------------------------------------------------
// The insert topology the engine plays.

/// Plugin ids of a chain, in order.
pub open spec fn chain_ids(c: Seq<MasteringPluginCfg>) -> Seq<u32> {
    c.map_values(|x: MasteringPluginCfg| x.id)
}

/// Plugin ids of the first `n` layers' chains, layer by layer.
pub open spec fn layer_ids(p: Project, n: int) -> Seq<u32>
    decreases n,
{
    if n <= 0 {
        seq![]
    } else {
        layer_ids(p, n - 1) + chain_ids(p.layers@[n - 1].inserts@)
    }
}

/// Plugin ids of the first `n` tracks' chains, track by track.
pub open spec fn track_ids(p: Project, n: int) -> Seq<u32>
    decreases n,
{
    if n <= 0 {
        seq![]
    } else {
        track_ids(p, n - 1) + chain_ids(p.regions@[n - 1].inserts@)
    }
}

/// Every plugin id of the project: the master chain's, then the layers',
/// then the tracks' (the universe plugin instances are kept for).
pub open spec fn all_ids(p: Project) -> Seq<u32> {
    chain_ids(p.mastering_chain@) + layer_ids(p, p.layers@.len() as int) + track_ids(p, p.regions@.len() as int)
}

fn ids_of(c: &Vec<MasteringPluginCfg>) -> (r: Vec<u32>)
    ensures
        r@ == chain_ids(c@),
{
    let mut out: Vec<u32> = Vec::new();
    let mut i: usize = 0;
    while i < c.len()
        invariant
            i <= c@.len(),
            out@ == chain_ids(c@).take(i as int),
        decreases c@.len() - i,
    {
        out.push(c[i].id);
        i += 1;
        assert(out@ =~= chain_ids(c@).take(i as int));
    }
    assert(chain_ids(c@).take(c@.len() as int) =~= chain_ids(c@));
    out
}

fn append(dst: &mut Vec<u32>, src: &Vec<u32>)
    ensures
        final(dst)@ == old(dst)@ + src@,
{
    let mut i: usize = 0;
    while i < src.len()
        invariant
            i <= src@.len(),
            dst@ == old(dst)@ + src@.take(i as int),
        decreases src@.len() - i,
    {
        dst.push(src[i]);
        i += 1;
        assert(dst@ =~= old(dst)@ + src@.take(i as int));
    }
    assert(src@.take(src@.len() as int) =~= src@);
}

/// The tracks whose chain is not empty, among the first `n`, in order.
pub open spec fn tracks_with_inserts(p: Project, n: int) -> Seq<int>
    decreases n,
{
    if n <= 0 {
        seq![]
    } else if p.regions@[n - 1].inserts@.len() > 0 {
        tracks_with_inserts(p, n - 1).push(n - 1)
    } else {
        tracks_with_inserts(p, n - 1)
    }
}

/// Start positions of those tracks.
pub open spec fn section_starts(p: Project, t: Seq<int>) -> Seq<u64> {
    t.map_values(|k: int| p.regions@[k].start)
}

/// The master-bus sections: each track with a chain, in start order
/// (stable), gated to its span; then the mastering chain, always on.
pub open spec fn spec_sections(p: Project) -> Seq<(Option<(u64, u64)>, Seq<u32>)> {
    let t = tracks_with_inserts(p, p.regions@.len() as int);
    let order = sorted_order(section_starts(p, t), t.len() as int);
    Seq::new(
        order.len(),
        |k: int|
            {
                let r = p.regions@[t[order[k]]];
                (Some((r.start, r.end)), chain_ids(r.inserts@))
            },
    ).push((None, chain_ids(p.mastering_chain@)))
}

proof fn lemma_tracks_with_inserts(p: Project, n: int)
    requires
        0 <= n <= p.regions@.len(),
    ensures
        forall|k: int|
            0 <= k < tracks_with_inserts(p, n).len() ==> 0 <= #[trigger] tracks_with_inserts(p, n)[k] < n,
    decreases n,
{
    if n > 0 {
        lemma_tracks_with_inserts(p, n - 1);
        let prev = tracks_with_inserts(p, n - 1);
        if p.regions@[n - 1].inserts@.len() > 0 {
            assert forall|k: int| 0 <= k < prev.push(n - 1).len() implies 0 <= #[trigger] prev.push(n - 1)[k] < n by {
                if k < prev.len() {
                    assert(prev.push(n - 1)[k] == prev[k]);
                }
            }
        }
    }
}

impl ProjectState {
    /// Every plugin id of the project: master chain, layers, tracks.
    pub fn all_chain_ids(&self) -> (r: Vec<u32>)
        ensures
            r@ == all_ids(self.project),
    {
        let p = &self.project;
        let mut out = ids_of(&p.mastering_chain);
        let mut i: usize = 0;
        while i < p.layers.len()
            invariant
                i <= p.layers@.len(),
                p == &self.project,
                out@ == chain_ids(p.mastering_chain@) + layer_ids(*p, i as int),
            decreases p.layers@.len() - i,
        {
            let ids = ids_of(&p.layers[i].inserts);
            append(&mut out, &ids);
            i += 1;
            assert(out@ =~= chain_ids(p.mastering_chain@) + layer_ids(*p, i as int));
        }
        let mut j: usize = 0;
        while j < p.regions.len()
            invariant
                j <= p.regions@.len(),
                p == &self.project,
                out@ == chain_ids(p.mastering_chain@) + layer_ids(*p, p.layers@.len() as int) + track_ids(
                    *p,
                    j as int,
                ),
            decreases p.regions@.len() - j,
        {
            let ids = ids_of(&p.regions[j].inserts);
            append(&mut out, &ids);
            j += 1;
            assert(out@ =~= chain_ids(p.mastering_chain@) + layer_ids(*p, p.layers@.len() as int) + track_ids(
                *p,
                j as int,
            ));
        }
        out
    }

    /// Each layer's chain as plugin ids, in layer order.
    pub fn lane_ids(&self) -> (r: Vec<Vec<u32>>)
        ensures
            r@.len() == self.project.layers@.len(),
            forall|i: int| 0 <= i < r@.len() ==> (#[trigger] r@[i])@ == chain_ids(self.project.layers@[i].inserts@),
    {
        let mut out: Vec<Vec<u32>> = Vec::new();
        let mut i: usize = 0;
        while i < self.project.layers.len()
            invariant
                i <= self.project.layers@.len(),
                out@.len() == i,
                forall|k: int| 0 <= k < i ==> (#[trigger] out@[k])@ == chain_ids(self.project.layers@[k].inserts@),
            decreases self.project.layers@.len() - i,
        {
            out.push(ids_of(&self.project.layers[i].inserts));
            i += 1;
        }
        out
    }

    /// The master-bus sections the engine plays: each track with a chain,
    /// in start order, gated to its span, then the mastering chain,
    /// always on.
    pub fn insert_sections(&self) -> (r: Vec<(Option<(u64, u64)>, Vec<u32>)>)
        ensures
            r@.len() == spec_sections(self.project).len(),
            forall|k: int|
                0 <= k < r@.len() ==> (#[trigger] r@[k]).0 == spec_sections(self.project)[k].0 && r@[k].1@
                    == spec_sections(self.project)[k].1,
    {
        let p = &self.project;
        let ghost n = p.regions@.len() as int;
        let mut with: Vec<usize> = Vec::new();
        let mut starts: Vec<u64> = Vec::new();
        let mut i: usize = 0;
        while i < p.regions.len()
            invariant
                i <= p.regions@.len(),
                p == &self.project,
                as_ints(with@) == tracks_with_inserts(*p, i as int),
                starts@ == section_starts(*p, tracks_with_inserts(*p, i as int)),
            decreases p.regions@.len() - i,
        {
            if p.regions[i].inserts.len() > 0 {
                let ghost before = with@;
                with.push(i);
                starts.push(p.regions[i].start);
                assert(as_ints(with@) =~= as_ints(before).push(i as int));
                assert(starts@ =~= section_starts(*p, tracks_with_inserts(*p, (i + 1) as int)));
            }
            i += 1;
        }
        proof {
            lemma_tracks_with_inserts(*p, n);
        }
        let order = order_by_keys(&starts);
        let ghost t = tracks_with_inserts(*p, n);
        let ghost sorted = sorted_order(section_starts(*p, t), t.len() as int);
        let mut out: Vec<(Option<(u64, u64)>, Vec<u32>)> = Vec::new();
        let mut k: usize = 0;
        while k < order.len()
            invariant
                k <= order@.len(),
                p == &self.project,
                n == p.regions@.len(),
                t == tracks_with_inserts(*p, n),
                as_ints(with@) == t,
                sorted == sorted_order(section_starts(*p, t), t.len() as int),
                as_ints(order@) == sorted,
                is_order(as_ints(order@), section_starts(*p, t), t.len() as int),
                forall|q: int| 0 <= q < t.len() ==> 0 <= #[trigger] t[q] < n,
                out@.len() == k,
                forall|q: int|
                    0 <= q < k ==> (#[trigger] out@[q]).0 == Some(
                        (p.regions@[t[sorted[q]]].start, p.regions@[t[sorted[q]]].end),
                    ) && out@[q].1@ == chain_ids(p.regions@[t[sorted[q]]].inserts@),
            decreases order@.len() - k,
        {
            assert(as_ints(order@)[k as int] == order@[k as int] as int);
            let w = order[k];
            assert(as_ints(with@)[w as int] == with@[w as int] as int);
            let r = &p.regions[with[w]];
            out.push((Some((r.start, r.end)), ids_of(&r.inserts)));
            k += 1;
        }
        out.push((None, ids_of(&p.mastering_chain)));
        out
    }
}

// ---------------------------------------------------------------------------
// Laws.

/// After removal no plugin of the chain carries the removed id, and every
/// other plugin stays, in order.
pub proof fn law_removal_drops_only_that_plugin(c: Seq<MasteringPluginCfg>, id: u32)
    ensures
        forall|k: int| 0 <= k < without_plugin(c, id).len() ==> (#[trigger] without_plugin(c, id)[k]).id != id,
        without_plugin(c, id).len() <= c.len(),
        (forall|k: int| 0 <= k < c.len() ==> (#[trigger] c[k]).id != id) ==> without_plugin(c, id) == c,
    decreases c.len(),
{
    if c.len() > 0 {
        law_removal_drops_only_that_plugin(c.drop_last(), id);
        if (forall|k: int| 0 <= k < c.len() ==> (#[trigger] c[k]).id != id) {
            assert(forall|k: int| 0 <= k < c.drop_last().len() ==> (#[trigger] c.drop_last()[k]).id != id) by {
                assert forall|k: int| 0 <= k < c.drop_last().len() implies (#[trigger] c.drop_last()[k]).id != id by {
                    assert(c.drop_last()[k] == c[k]);
                }
            }
            assert(c.last() == c[c.len() - 1]);
            assert(c.drop_last().push(c.last()) =~= c);
        }
    }
}

/// Moving a plugin keeps the chain's plugins (as a multiset) and puts the
/// moved one at its clamped place.
pub proof fn law_move_keeps_plugins(c: Seq<MasteringPluginCfg>, pos: int, delta: i32)
    requires
        0 <= pos < c.len(),
    ensures
        ({
            let np = moved_pos(pos, delta, c.len() as int);
            let r = c.remove(pos).insert(np, c[pos]);
            &&& r.len() == c.len()
            &&& r[np] == c[pos]
            &&& r.to_multiset() == c.to_multiset()
        }),
{
    broadcast use vstd::seq_lib::to_multiset_remove, vstd::seq_lib::to_multiset_insert;
    broadcast use vstd::multiset::group_multiset_axioms;

    let np = moved_pos(pos, delta, c.len() as int);
    let r = c.remove(pos).insert(np, c[pos]);
    assert(r.to_multiset() == c.to_multiset().remove(c[pos]).insert(c[pos]));
    assert(c.to_multiset().remove(c[pos]).insert(c[pos]) =~= c.to_multiset()) by {
        c.to_multiset_ensures();
        assert(c.contains(c[pos]));
    }
}

} // verus!
