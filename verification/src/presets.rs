//! Named mastering-chain presets: the declarative recipe of a chain
//! (component ids, display names, bypass flags, plugin states) without the
//! project-local plugin ids, one file per preset, listed by name.

use vstd::prelude::*;
use crate::error::StillError;
use crate::naming::{sanitize_chars, spec_sanitize};
use crate::project::MasteringPluginCfg;
use crate::sorting::{char_views, lowercase, order_by_text, text_order, to_lowercase};
use crate::text::{chars_of, extend_str, string_of, trim, trim_chars};
use crate::tracks::as_ints;

verus! {

/// One plugin of a saved chain.
#[derive(Debug)]
pub struct ChainPresetPlugin {
    /// Component id.
    pub component: String,
    pub name: String,
    pub bypass: bool,
    /// Base64 of the plugin state.
    pub state_b64: Option<String>,
}

#[derive(Debug)]
pub struct ChainPreset {
    pub name: String,
    pub plugins: Vec<ChainPresetPlugin>,
}

/// Listing entry of a preset.
#[derive(Debug)]
pub struct ChainPresetInfo {
    pub name: String,
    /// Plugin display names, in chain order.
    pub plugins: Vec<String>,
}

/// A chain plugin as it is kept in a preset.
pub open spec fn preset_plugin_of(c: MasteringPluginCfg) -> (Seq<char>, Seq<char>, bool, Option<Seq<char>>) {
    (
        c.component@,
        c.name@,
        c.bypass,
        match c.state_b64 {
            Some(s) => Some(s@),
            None => None,
        },
    )
}

pub open spec fn plugin_values(p: ChainPresetPlugin) -> (Seq<char>, Seq<char>, bool, Option<Seq<char>>) {
    (
        p.component@,
        p.name@,
        p.bypass,
        match p.state_b64 {
            Some(s) => Some(s@),
            None => None,
        },
    )
}

impl ChainPreset {
    /// The preset of a chain: every plugin in order, without its id.
    pub fn from_chain(name: &str, chain: &[MasteringPluginCfg]) -> (r: Self)
        ensures
            r.name@ == name@,
            r.plugins@.len() == chain@.len(),
            forall|i: int|
                0 <= i < chain@.len() ==> plugin_values(#[trigger] r.plugins@[i]) == preset_plugin_of(chain@[i]),
    {
        let mut plugins: Vec<ChainPresetPlugin> = Vec::new();
        let mut i: usize = 0;
        while i < chain.len()
            invariant
                i <= chain@.len(),
                plugins@.len() == i,
                forall|k: int| 0 <= k < i ==> plugin_values(#[trigger] plugins@[k]) == preset_plugin_of(chain@[k]),
            decreases chain@.len() - i,
        {
            let c = &chain[i];
            let state_b64 = match &c.state_b64 {
                Some(s) => Some(s.clone()),
                None => None,
            };
            plugins.push(
                ChainPresetPlugin { component: c.component.clone(), name: c.name.clone(), bypass: c.bypass, state_b64 },
            );
            i += 1;
        }
        ChainPreset { name: String::from_str(name), plugins }
    }
}

/// What naming a preset with a blank name is answered.
pub const EMPTY_PRESET_NAME: &'static str = "Preset name cannot be empty";

/// What saving an empty chain is answered.
pub const EMPTY_CHAIN: &'static str = "The mastering chain is empty \u{2014} add a plugin before saving a preset";

/// The file of a preset: its trimmed name, sanitized, with ".json"; a
/// blank name is refused.
pub open spec fn spec_preset_file_name(name: Seq<char>) -> Option<Seq<char>> {
    if trim(name).len() == 0 {
        None
    } else {
        Some(spec_sanitize(trim(name)) + ".json"@)
    }
}

pub fn preset_file_name(name: &str) -> (r: Result<String, StillError>)
    ensures
        match spec_preset_file_name(name@) {
            Some(f) => r matches Ok(s) && s@ == f,
            None => r matches Err(StillError::InvalidProject(d)) && d@ == EMPTY_PRESET_NAME@,
        },
{
    let n = chars_of(name);
    let t = trim_chars(n.as_slice());
    if t.len() == 0 {
        return Err(StillError::InvalidProject(String::from_str(EMPTY_PRESET_NAME)));
    }
    let mut f = sanitize_chars(t.as_slice());
    extend_str(&mut f, ".json");
    Ok(string_of(f.as_slice()))
}

/// The file a preset is saved to: an empty chain is refused first, then a
/// blank name.
pub fn save_file_name(preset: &ChainPreset) -> (r: Result<String, StillError>)
    ensures
        preset.plugins@.len() == 0 ==> (r matches Err(StillError::InvalidProject(d)) && d@ == EMPTY_CHAIN@),
        preset.plugins@.len() > 0 ==> match spec_preset_file_name(preset.name@) {
            Some(f) => r matches Ok(s) && s@ == f,
            None => r matches Err(StillError::InvalidProject(d)) && d@ == EMPTY_PRESET_NAME@,
        },
{
    if preset.plugins.len() == 0 {
        return Err(StillError::InvalidProject(String::from_str(EMPTY_CHAIN)));
    }
    preset_file_name(preset.name.as_str())
}

/// Whether a file of the presets folder holds a preset: its extension is
/// exactly "json".
pub fn is_preset_file(extension: Option<&str>) -> (r: bool)
    ensures
        r == (extension matches Some(e) && (e@ == "json"@)),
{
    match extension {
        Some(e) => {
            let c = chars_of(e);
            let j = chars_of("json");
            proof {
                reveal_strlit("json");
            }
            if c.len() != 4 {
                return false;
            }
            let same = c[0] == j[0] && c[1] == j[1] && c[2] == j[2] && c[3] == j[3];
            assert(same == (c@ =~= j@));
            same
        },
        None => false,
    }
}

/// The listing entry of a preset: its name and its plugins' names.
pub fn preset_info(preset: &ChainPreset) -> (r: ChainPresetInfo)
    ensures
        r.name@ == preset.name@,
        r.plugins@.len() == preset.plugins@.len(),
        forall|i: int| 0 <= i < r.plugins@.len() ==> (#[trigger] r.plugins@[i])@ == preset.plugins@[i].name@,
{
    let mut names: Vec<String> = Vec::new();
    let mut i: usize = 0;
    while i < preset.plugins.len()
        invariant
            i <= preset.plugins@.len(),
            names@.len() == i,
            forall|k: int| 0 <= k < i ==> (#[trigger] names@[k])@ == preset.plugins@[k].name@,
        decreases preset.plugins@.len() - i,
    {
        names.push(preset.plugins[i].name.clone());
        i += 1;
    }
    ChainPresetInfo { name: preset.name.clone(), plugins: names }
}

/// A listing entry as plain values.
pub open spec fn info_view(i: ChainPresetInfo) -> (Seq<char>, Seq<Seq<char>>) {
    (i.name@, i.plugins@.map_values(|p: String| p@))
}

fn copy_info(i: &ChainPresetInfo) -> (r: ChainPresetInfo)
    ensures
        info_view(r) == info_view(*i),
{
    let mut names: Vec<String> = Vec::new();
    let mut k: usize = 0;
    while k < i.plugins.len()
        invariant
            k <= i.plugins@.len(),
            names@.map_values(|p: String| p@) == i.plugins@.map_values(|p: String| p@).take(k as int),
        decreases i.plugins@.len() - k,
    {
        let ghost before = names@.map_values(|p: String| p@);
        let c = i.plugins[k].clone();
        names.push(c);
        assert(names@.map_values(|p: String| p@) =~= before.push(i.plugins@[k as int]@));
        k += 1;
        assert(names@.map_values(|p: String| p@) =~= i.plugins@.map_values(|p: String| p@).take(k as int));
    }
    assert(names@.map_values(|p: String| p@) =~= i.plugins@.map_values(|p: String| p@));
    ChainPresetInfo { name: i.name.clone(), plugins: names }
}

/// The sort keys of a listing: each name's lower case.
pub open spec fn name_keys(infos: Seq<ChainPresetInfo>) -> Seq<Seq<char>> {
    infos.map_values(|i: ChainPresetInfo| lowercase(i.name@))
}

/// A listing sorted by name ignoring case (stable: equal names keep their
/// order).
pub fn sort_listing(infos: &Vec<ChainPresetInfo>) -> (r: Vec<ChainPresetInfo>)
    ensures
        r@.len() == infos@.len(),
        forall|i: int|
            0 <= i < r@.len() ==> info_view(#[trigger] r@[i]) == info_view(
                infos@[text_order(name_keys(infos@), infos@.len() as int)[i]],
            ),
{
    let mut keys: Vec<Vec<char>> = Vec::new();
    let mut i: usize = 0;
    while i < infos.len()
        invariant
            i <= infos@.len(),
            char_views(keys@) == name_keys(infos@).take(i as int),
        decreases infos@.len() - i,
    {
        let l = to_lowercase(infos[i].name.as_str());
        let ghost before = char_views(keys@);
        let kc = chars_of(l.as_str());
        keys.push(kc);
        assert(char_views(keys@) =~= before.push(lowercase(infos@[i as int].name@)));
        i += 1;
        assert(char_views(keys@) =~= name_keys(infos@).take(i as int));
    }
    assert(char_views(keys@) =~= name_keys(infos@));
    let order = order_by_text(&keys);
    let mut out: Vec<ChainPresetInfo> = Vec::new();
    let mut j: usize = 0;
    while j < order.len()
        invariant
            order@.len() == infos@.len(),
            j <= order@.len(),
            as_ints(order@) == text_order(name_keys(infos@), infos@.len() as int),
            forall|k: int| 0 <= k < order@.len() ==> #[trigger] order@[k] < infos@.len(),
            out@.len() == j,
            forall|k: int| 0 <= k < j ==> info_view(#[trigger] out@[k]) == info_view(infos@[order@[k] as int]),
        decreases order@.len() - j,
    {
        out.push(copy_info(&infos[order[j]]));
        j += 1;
    }
    proof {
        assert forall|i: int| 0 <= i < out@.len() implies info_view(#[trigger] out@[i]) == info_view(
            infos@[text_order(name_keys(infos@), infos@.len() as int)[i]],
        ) by {
            assert(as_ints(order@)[i] == order@[i] as int);
        }
    }
    out
}

} // verus!
