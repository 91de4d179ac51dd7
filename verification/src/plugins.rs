//! Format-agnostic plugin surface: plugins are named by component-id
//! strings, and the format only matters through the id prefix
//! ("vst3:..." = VST3, anything else = Audio Unit).

use vstd::prelude::*;
use crate::text::chars_of;
use crate::vst3::id_prefix;

verus! {

#[derive(Debug, Clone, Copy, PartialEq, Eq)]
pub enum PluginFormat {
    Au,
    Vst3,
}

/// One installed plugin, as listed to the frontend.
#[derive(Debug, Clone)]
pub struct PluginInfo {
    /// Component id: "aufx:xxxx:yyyy" (AU) or "vst3:<32 hex>" (VST3).
    pub id: String,
    pub name: String,
    pub manufacturer: String,
    pub format: PluginFormat,
}

/// One plugin of a chain as the audio engine hosts it: its id, component,
/// bypass flag and saved state.
#[derive(Debug, Clone)]
pub struct MasterPluginSpec {
    pub id: u32,
    pub component: String,
    pub bypass: bool,
    pub state: Option<Vec<u8>>,
}

/// The format of a component id: VST3 exactly when it starts with the
/// VST3 prefix.
pub open spec fn spec_format_of(component: Seq<char>) -> PluginFormat {
    if component.len() >= id_prefix().len() && component.take(id_prefix().len() as int)
        == id_prefix() {
        PluginFormat::Vst3
    } else {
        PluginFormat::Au
    }
}

/// The format a component id belongs to, by prefix.
pub fn format_of(component: &str) -> (r: PluginFormat)
    ensures
        r == spec_format_of(component@),
{
    let s = chars_of(component);
    if s.len() >= 5 && s[0] == 'v' && s[1] == 's' && s[2] == 't' && s[3] == '3' && s[4] == ':' {
        proof {
            assert(s@.take(5) =~= id_prefix());
        }
        PluginFormat::Vst3
    } else {
        proof {
            if s@.len() >= 5 && s@.take(5) == id_prefix() {
                assert(s@.take(5)[0] == 'v');
                assert(s@.take(5)[1] == 's');
                assert(s@.take(5)[2] == 't');
                assert(s@.take(5)[3] == '3');
                assert(s@.take(5)[4] == ':');
            }
        }
        PluginFormat::Au
    }
}

/// Every installed effect plugin, all formats: Audio Units first, then
/// VST3 (each list as its host enumerated it).
pub fn list_plugins(au: Vec<PluginInfo>, vst3: Vec<PluginInfo>) -> (r: Vec<PluginInfo>)
    ensures
        r@ == au@ + vst3@,
{
    let mut out = au;
    let mut more = vst3;
    out.append(&mut more);
    out
}

} // verus!
