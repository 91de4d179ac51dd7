//! The VST3 plugin registry: the bundles a scan found (from the disk cache
//! or a fresh scan), the class lookup by id, and the effect listing. The
//! scan itself (walking folders, loading bundles, reading and writing the
//! cache file) is the caller's.

use vstd::prelude::*;
use crate::plugins::{PluginFormat, PluginInfo};
use crate::sorting::{char_views, lowercase, order_by_text, text_order, to_lowercase};
use crate::text::{chars_of, extend_str, string_of};
use crate::tracks::as_ints;
use crate::vst3::{id_prefix, is_effect, parse_id, spec_is_effect, spec_parse_id};

verus! {

/// One plugin class found in a bundle.
#[derive(Debug)]
pub struct ScannedClass {
    /// Class id as 32 lowercase hex digits.
    pub cid_hex: String,
    pub name: String,
    pub vendor: String,
    /// Raw subcategory string, e.g. "Fx|EQ" or "Instrument|Synth".
    pub subcategories: String,
}

/// One bundle, with the modification time of its executable at scan time.
#[derive(Debug)]
pub struct ScannedBundle {
    pub path: String,
    pub binary_mtime: u64,
    pub classes: Vec<ScannedClass>,
}

/// The registry state: where the cache lives, whether it was read, and
/// the bundles known.
#[derive(Debug)]
pub struct ScanState {
    pub cache_path: Option<String>,
    pub scanned: bool,
    pub bundles: Vec<ScannedBundle>,
}

/// The component id of a class.
pub open spec fn class_id(c: ScannedClass) -> Seq<char> {
    id_prefix() + c.cid_hex@
}

fn class_id_exec(c: &ScannedClass) -> (r: String)
    ensures
        r@ == class_id(*c),
{
    let mut v: Vec<char> = Vec::new();
    extend_str(&mut v, "vst3:");
    extend_str(&mut v, c.cid_hex.as_str());
    proof {
        reveal_strlit("vst3:");
        assert(v@ =~= class_id(*c));
    }
    string_of(v.as_slice())
}

/// The bundle of the last of the first `m` classes of `cs` whose id
/// denotes `cid`.
pub open spec fn class_match(cs: Seq<ScannedClass>, cid: Seq<u8>, m: int) -> bool
    decreases m,
{
    if m <= 0 || m > cs.len() {
        false
    } else {
        spec_parse_id(class_id(cs[m - 1])) == Some(cid) || class_match(cs, cid, m - 1)
    }
}

/// The bundle registered for a class id: that of the last class (bundles
/// and classes in order) whose id denotes it (a later registration
/// replaces an earlier one).
pub open spec fn registry_lookup(bundles: Seq<ScannedBundle>, cid: Seq<u8>, n: int) -> Option<Seq<char>>
    decreases n,
{
    if n <= 0 || n > bundles.len() {
        None
    } else if class_match(bundles[n - 1].classes@, cid, bundles[n - 1].classes@.len() as int) {
        Some(bundles[n - 1].path@)
    } else {
        registry_lookup(bundles, cid, n - 1)
    }
}

fn same_cid(a: &[u8; 16], b: &[u8; 16]) -> (r: bool)
    ensures
        r == (a@ == b@),
{
    let mut i: usize = 0;
    while i < 16
        invariant
            i <= 16,
            a@.len() == 16,
            b@.len() == 16,
            forall|k: int| 0 <= k < i ==> a@[k] == b@[k],
        decreases 16 - i,
    {
        if a[i] != b[i] {
            return false;
        }
        i += 1;
    }
    assert(a@ =~= b@);
    true
}

fn bundle_has(cs: &Vec<ScannedClass>, cid: &[u8; 16]) -> (r: bool)
    ensures
        r == class_match(cs@, cid@, cs@.len() as int),
{
    let mut m: usize = cs.len();
    while m > 0
        invariant
            m <= cs@.len(),
            class_match(cs@, cid@, cs@.len() as int) == class_match(cs@, cid@, m as int),
        decreases m,
    {
        let id = class_id_exec(&cs[m - 1]);
        match parse_id(id.as_str()) {
            Some(p) => {
                if same_cid(&p, cid) {
                    return true;
                }
            },
            None => {},
        }
        m -= 1;
    }
    false
}

/// A plugin as plain values.
pub open spec fn info_of(p: PluginInfo) -> (Seq<char>, Seq<char>, Seq<char>, PluginFormat) {
    (p.id@, p.name@, p.manufacturer@, p.format)
}

/// The listing entry of a class: its id, name and vendor ("Unknown" when
/// it names none).
pub open spec fn effect_entry(c: ScannedClass) -> (Seq<char>, Seq<char>, Seq<char>, PluginFormat) {
    (class_id(c), c.name@, if c.vendor@.len() == 0 {
        "Unknown"@
    } else {
        c.vendor@
    }, PluginFormat::Vst3)
}

/// The effect classes among the first `m` classes, in order.
pub open spec fn class_effects(cs: Seq<ScannedClass>, m: int) -> Seq<(Seq<char>, Seq<char>, Seq<char>, PluginFormat)>
    decreases m,
{
    if m <= 0 || m > cs.len() {
        seq![]
    } else if spec_is_effect(cs[m - 1].subcategories@) {
        class_effects(cs, m - 1).push(effect_entry(cs[m - 1]))
    } else {
        class_effects(cs, m - 1)
    }
}

/// The effect classes of the first `n` bundles, bundle by bundle.
pub open spec fn bundle_effects(bundles: Seq<ScannedBundle>, n: int) -> Seq<(Seq<char>, Seq<char>, Seq<char>, PluginFormat)>
    decreases n,
{
    if n <= 0 || n > bundles.len() {
        seq![]
    } else {
        bundle_effects(bundles, n - 1) + class_effects(bundles[n - 1].classes@, bundles[n - 1].classes@.len() as int)
    }
}

/// Entries with consecutive duplicates of an id removed (the first of
/// each run stays).
pub open spec fn dedup_ids(s: Seq<(Seq<char>, Seq<char>, Seq<char>, PluginFormat)>) -> Seq<
    (Seq<char>, Seq<char>, Seq<char>, PluginFormat),
>
    decreases s.len(),
{
    if s.len() <= 1 {
        s
    } else if s.last().0 == s[s.len() - 2].0 {
        dedup_ids(s.drop_last())
    } else {
        dedup_ids(s.drop_last()).push(s.last())
    }
}

/// The effect listing: every effect class, sorted by name ignoring case
/// (stable), consecutive duplicates of an id dropped.
pub open spec fn spec_effects(bundles: Seq<ScannedBundle>) -> Seq<(Seq<char>, Seq<char>, Seq<char>, PluginFormat)> {
    let e = bundle_effects(bundles, bundles.len() as int);
    let order = text_order(e.map_values(|x: (Seq<char>, Seq<char>, Seq<char>, PluginFormat)| lowercase(x.1)), e.len() as int);
    dedup_ids(Seq::new(e.len(), |i: int| e[order[i]]))
}

fn copy_info(p: &PluginInfo) -> (r: PluginInfo)
    ensures
        info_of(r) == info_of(*p),
{
    PluginInfo { id: p.id.clone(), name: p.name.clone(), manufacturer: p.manufacturer.clone(), format: p.format }
}

pub open spec fn infos(v: Seq<PluginInfo>) -> Seq<(Seq<char>, Seq<char>, Seq<char>, PluginFormat)> {
    v.map_values(|p: PluginInfo| info_of(p))
}

fn push_class_effects(out: &mut Vec<PluginInfo>, cs: &Vec<ScannedClass>)
    ensures
        infos(final(out)@) == infos(old(out)@) + class_effects(cs@, cs@.len() as int),
{
    let ghost start = infos(out@);
    let mut m: usize = 0;
    while m < cs.len()
        invariant
            m <= cs@.len(),
            infos(out@) == start + class_effects(cs@, m as int),
        decreases cs@.len() - m,
    {
        let c = &cs[m];
        if is_effect(c.subcategories.as_str()) {
            let manufacturer = if c.vendor.as_str().is_empty() {
                String::from_str("Unknown")
            } else {
                c.vendor.clone()
            };
            let ghost before = infos(out@);
            let p = PluginInfo {
                id: class_id_exec(c),
                name: c.name.clone(),
                manufacturer,
                format: PluginFormat::Vst3,
            };
            assert(info_of(p) == effect_entry(*c));
            out.push(p);
            assert(infos(out@) =~= before.push(effect_entry(*c)));
        }
        m += 1;
        assert(infos(out@) =~= start + class_effects(cs@, m as int));
    }
}

/// The last of the first `n` cached bundles at `path` (a later entry
/// replaces an earlier one), or -1.
pub open spec fn last_at(cached: Seq<ScannedBundle>, path: Seq<char>, n: int) -> int
    decreases n,
{
    if n <= 0 || n > cached.len() {
        -1
    } else if cached[n - 1].path@ == path {
        n - 1
    } else {
        last_at(cached, path, n - 1)
    }
}

proof fn lemma_last_at(cached: Seq<ScannedBundle>, path: Seq<char>, n: int)
    requires
        0 <= n <= cached.len(),
    ensures
        -1 <= last_at(cached, path, n) < n,
    decreases n,
{
    if n > 0 {
        lemma_last_at(cached, path, n - 1);
    }
}

fn find_last(cached: &Vec<ScannedBundle>, path: &String) -> (r: Option<usize>)
    ensures
        last_at(cached@, path@, cached@.len() as int) == match r {
            Some(k) => k as int,
            None => -1,
        },
{
    let mut n: usize = cached.len();
    while n > 0
        invariant
            n <= cached@.len(),
            last_at(cached@, path@, cached@.len() as int) == last_at(cached@, path@, n as int),
        decreases n,
    {
        if cached[n - 1].path == *path {
            return Some(n - 1);
        }
        n -= 1;
    }
    None
}

/// The cached scan of a bundle, when it is still valid: the cache's entry
/// for the path, if the bundle's executable has not changed since.
pub open spec fn spec_reusable(cached: Seq<ScannedBundle>, path: Seq<char>, mtime: u64) -> Option<int> {
    let k = last_at(cached, path, cached.len() as int);
    if k >= 0 && cached[k].binary_mtime == mtime {
        Some(k)
    } else {
        None
    }
}

pub fn reusable(cached: &Vec<ScannedBundle>, path: &String, mtime: u64) -> (r: Option<usize>)
    ensures
        spec_reusable(cached@, path@, mtime) == match r {
            Some(k) => Some(k as int),
            None => None::<int>,
        },
{
    proof {
        lemma_last_at(cached@, path@, cached@.len() as int);
    }
    match find_last(cached, path) {
        Some(k) => if cached[k].binary_mtime == mtime { Some(k) } else { None },
        None => None,
    }
}

/// Whether the cache misses a bundle found on disk (`found`: path and
/// executable modification time): new, or changed since it was cached.
pub open spec fn spec_cache_is_stale(cached: Seq<ScannedBundle>, found: Seq<(String, u64)>) -> bool {
    exists|i: int| 0 <= i < found.len() && #[trigger] spec_reusable(cached, found[i].0@, found[i].1) is None
}

pub fn cache_is_stale(cached: &Vec<ScannedBundle>, found: &Vec<(String, u64)>) -> (r: bool)
    ensures
        r == spec_cache_is_stale(cached@, found@),
{
    let mut i: usize = 0;
    while i < found.len()
        invariant
            i <= found@.len(),
            forall|k: int| 0 <= k < i ==> #[trigger] spec_reusable(cached@, found@[k].0@, found@[k].1) is Some,
        decreases found@.len() - i,
    {
        let (path, mtime) = (&found[i].0, found[i].1);
        if reusable(cached, path, mtime).is_none() {
            return true;
        }
        i += 1;
    }
    false
}

impl ScanState {
    /// Nothing known yet.
    pub fn new() -> (r: Self)
        ensures
            r.cache_path is None,
            !r.scanned,
            r.bundles@.len() == 0,
    {
        ScanState { cache_path: None, scanned: false, bundles: Vec::new() }
    }

    /// Where the cache lives (set once at startup).
    pub fn set_cache_path(&mut self, path: String)
        ensures
            final(self).cache_path == Some(path),
            final(self).scanned == old(self).scanned,
            final(self).bundles@ == old(self).bundles@,
    {
        self.cache_path = Some(path);
    }

    /// Whether the registry still has to be filled from the cache.
    pub fn needs_cache_load(&self) -> (r: bool)
        ensures
            r == !self.scanned,
    {
        !self.scanned
    }

    /// The registry now holds `bundles` (read from the cache, or just
    /// scanned).
    pub fn install(&mut self, bundles: Vec<ScannedBundle>)
        ensures
            final(self).bundles@ == bundles@,
            final(self).scanned,
            final(self).cache_path == old(self).cache_path,
    {
        self.bundles = bundles;
        self.scanned = true;
    }

    /// Make sure the registry reflects the cache: `cache` (the bundles the
    /// cache file holds) is installed unless the registry is already
    /// filled.
    pub fn ensure_scanned(&mut self, cache: Vec<ScannedBundle>)
        ensures
            final(self).scanned,
            final(self).cache_path == old(self).cache_path,
            final(self).bundles@ == if old(self).scanned {
                old(self).bundles@
            } else {
                cache@
            },
    {
        if !self.scanned {
            self.install(cache);
        }
    }

    /// The bundle holding a class id.
    pub fn bundle_for_cid(&self, cid: &[u8; 16]) -> (r: Option<String>)
        ensures
            registry_lookup(self.bundles@, cid@, self.bundles@.len() as int) == match r {
                Some(p) => Some(p@),
                None => None::<Seq<char>>,
            },
    {
        let mut n: usize = self.bundles.len();
        while n > 0
            invariant
                n <= self.bundles@.len(),
                registry_lookup(self.bundles@, cid@, self.bundles@.len() as int) == registry_lookup(
                    self.bundles@,
                    cid@,
                    n as int,
                ),
            decreases n,
        {
            let b = &self.bundles[n - 1];
            if bundle_has(&b.classes, cid) {
                return Some(b.path.clone());
            }
            n -= 1;
        }
        None
    }

    /// Installed VST3 effects, for the plugin picker.
    pub fn list_effects(&self) -> (r: Vec<PluginInfo>)
        ensures
            infos(r@) == spec_effects(self.bundles@),
    {
        let mut entries: Vec<PluginInfo> = Vec::new();
        let mut n: usize = 0;
        while n < self.bundles.len()
            invariant
                n <= self.bundles@.len(),
                infos(entries@) == bundle_effects(self.bundles@, n as int),
            decreases self.bundles@.len() - n,
        {
            push_class_effects(&mut entries, &self.bundles[n].classes);
            n += 1;
        }
        let ghost e = bundle_effects(self.bundles@, self.bundles@.len() as int);
        let ghost key_of = |x: (Seq<char>, Seq<char>, Seq<char>, PluginFormat)| lowercase(x.1);
        let mut keys: Vec<Vec<char>> = Vec::new();
        let mut i: usize = 0;
        while i < entries.len()
            invariant
                i <= entries@.len(),
                infos(entries@) == e,
                key_of == (|x: (Seq<char>, Seq<char>, Seq<char>, PluginFormat)| lowercase(x.1)),
                char_views(keys@) == e.map_values(key_of).take(i as int),
            decreases entries@.len() - i,
        {
            let l = to_lowercase(entries[i].name.as_str());
            let ghost before = char_views(keys@);
            let kc = chars_of(l.as_str());
            keys.push(kc);
            assert(e[i as int] == info_of(entries@[i as int]));
            assert(char_views(keys@) =~= before.push(lowercase(entries@[i as int].name@)));
            i += 1;
            assert(char_views(keys@) =~= e.map_values(key_of).take(i as int));
        }
        assert(char_views(keys@) =~= e.map_values(key_of));
        let order = order_by_text(&keys);
        let ghost sorted = Seq::new(e.len(), |k: int| e[text_order(e.map_values(key_of), e.len() as int)[k]]);
        let mut out: Vec<PluginInfo> = Vec::new();
        let mut j: usize = 0;
        while j < order.len()
            invariant
                order@.len() == entries@.len(),
                infos(entries@) == e,
                j <= order@.len(),
                as_ints(order@) == text_order(e.map_values(key_of), e.len() as int),
                forall|k: int| 0 <= k < order@.len() ==> #[trigger] order@[k] < entries@.len(),
                sorted == Seq::new(e.len(), |k: int| e[text_order(e.map_values(key_of), e.len() as int)[k]]),
                infos(out@) == dedup_ids(sorted.take(j as int)),
                j > 0 ==> out@.len() > 0 && out@.last().id@ == sorted[j - 1].0,
            decreases order@.len() - j,
        {
            let p = &entries[order[j]];
            assert(as_ints(order@)[j as int] == order@[j as int] as int);
            assert(sorted[j as int] == info_of(entries@[order@[j as int] as int]));
            let ghost t = sorted.take(j + 1);
            assert(t.drop_last() =~= sorted.take(j as int));
            let ghost before = infos(out@);
            if j > 0 && out[out.len() - 1].id == p.id {
                assert(t.last().0 == t[t.len() - 2].0);
            } else {
                out.push(copy_info(p));
                assert(infos(out@) =~= before.push(info_of(*p)));
            }
            j += 1;
        }
        assert(sorted.take(order@.len() as int) =~= sorted);
        out
    }
}

} // verus!
