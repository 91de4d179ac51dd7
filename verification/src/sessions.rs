//! Growing a session with more audio: clips appended to the base layer, a
//! synchronized take (one file per layer, all starting where the timeline
//! ends), or new layers. Each returns the source groups to scan; the
//! project takes them once the scan succeeded. File types are checked
//! before (`timeline::check_extensions`).

use vstd::prelude::*;
use crate::project::{Layer, LayerData, MasteringPluginCfg, Project, SourceRef, ZERO_DB_BITS};
use crate::sorting::{char_views, order_by_text, text_order};
use crate::text::{chars_of, dec, extend_str, push_dec, string_of};
use crate::tracks::as_ints;

verus! {

broadcast use vstd::string::group_string_axioms;

/// What adding nothing is answered.
pub const NO_FILE_GIVEN: &'static str = "No audio file given.";

/// What a take with the wrong number of files is answered.
pub open spec fn take_count_message(layers: nat, files: nat) -> Seq<char> {
    "This session has "@ + dec(layers) + " layers but "@ + dec(files)
        + " file(s) were given. A take needs exactly one file per layer (in order)."@
}

/// Source references of files played one after the other.
pub open spec fn sequential(paths: Seq<String>) -> Seq<SourceRef> {
    Seq::new(paths.len(), |j: int| SourceRef { path: paths[j], start: None })
}

/// The texts of a list of strings, as character vectors' views.
pub open spec fn path_texts(paths: Seq<String>) -> Seq<Seq<char>> {
    paths.map_values(|p: String| p@)
}

/// A fresh layer playing `path`, with id `id`.
pub open spec fn new_layer(id: u32, path: String) -> LayerData {
    LayerData {
        id,
        sources: seq![SourceRef { path, start: None }],
        gain_db_bits: ZERO_DB_BITS,
        muted: false,
        solo: false,
        collapsed: false,
        inserts: seq![],
        custom_name: None,
    }
}

impl Project {
    /// The source groups with `paths` appended, in order, to the base
    /// layer's clips.
    pub fn clip_groups(&self, paths: &Vec<String>) -> (r: Result<Vec<Vec<SourceRef>>, String>)
        requires
            self.layers@.len() >= 1,
        ensures
            paths@.len() == 0 ==> (r matches Err(m) && m@ == NO_FILE_GIVEN@),
            paths@.len() > 0 ==> (r matches Ok(g) && g@.len() == self.layers@.len() && g@[0]@
                == self.layers@[0].sources@ + sequential(paths@) && forall|i: int|
                1 <= i < g@.len() ==> (#[trigger] g@[i])@ == self.layers@[i].sources@),
    {
        if paths.len() == 0 {
            return Err(String::from_str(NO_FILE_GIVEN));
        }
        let mut groups = self.source_groups();
        let mut base = groups.remove(0);
        let ghost start = base@;
        let mut j: usize = 0;
        while j < paths.len()
            invariant
                j <= paths@.len(),
                base@ == start + sequential(paths@).take(j as int),
            decreases paths@.len() - j,
        {
            base.push(SourceRef { path: paths[j].clone(), start: None });
            j += 1;
            assert(base@ =~= start + sequential(paths@).take(j as int));
        }
        assert(sequential(paths@).take(paths@.len() as int) =~= sequential(paths@));
        groups.insert(0, base);
        Ok(groups)
    }

    /// The source groups with a synchronized take added: the files, in
    /// name order, go one to each layer in layer order, all pinned at
    /// `take_start` (the timeline's end). The take must hold exactly one
    /// file per layer.
    pub fn take_groups(&self, paths: &Vec<String>, take_start: u64) -> (r: Result<Vec<Vec<SourceRef>>, String>)
        ensures
            paths@.len() == 0 ==> (r matches Err(m) && m@ == NO_FILE_GIVEN@),
            paths@.len() > 0 && paths@.len() != self.layers@.len() ==> (r matches Err(m) && m@
                == take_count_message(self.layers@.len(), paths@.len())),
            paths@.len() > 0 && paths@.len() == self.layers@.len() ==> (r matches Ok(g) && g@.len()
                == self.layers@.len() && forall|i: int|
                0 <= i < g@.len() ==> (#[trigger] g@[i])@ == self.layers@[i].sources@.push(
                    SourceRef {
                        path: paths@[text_order(path_texts(paths@), paths@.len() as int)[i]],
                        start: Some(take_start),
                    },
                )),
    {
        if paths.len() == 0 {
            return Err(String::from_str(NO_FILE_GIVEN));
        }
        if paths.len() != self.layers.len() {
            let mut m: Vec<char> = chars_of("This session has ");
            push_dec(&mut m, self.layers.len() as u64);
            extend_str(&mut m, " layers but ");
            push_dec(&mut m, paths.len() as u64);
            extend_str(
                &mut m,
                " file(s) were given. A take needs exactly one file per layer (in order).",
            );
            return Err(string_of(m.as_slice()));
        }
        let mut keys: Vec<Vec<char>> = Vec::new();
        let mut k: usize = 0;
        while k < paths.len()
            invariant
                k <= paths@.len(),
                char_views(keys@) == path_texts(paths@).take(k as int),
            decreases paths@.len() - k,
        {
            let ghost before = keys@;
            let c = chars_of(paths[k].as_str());
            keys.push(c);
            k += 1;
            assert(keys@ =~= before.push(c));
            assert(char_views(keys@) =~= char_views(before).push(c@));
            assert(path_texts(paths@).take(k as int) =~= path_texts(paths@).take(k - 1).push(paths@[k - 1]@));
            assert(char_views(keys@) =~= path_texts(paths@).take(k as int));
        }
        assert(path_texts(paths@).take(paths@.len() as int) =~= path_texts(paths@));
        let order = order_by_text(&keys);
        let groups = self.source_groups();
        let mut out: Vec<Vec<SourceRef>> = Vec::new();
        let mut i: usize = 0;
        while i < groups.len()
            invariant
                i <= groups@.len(),
                groups@.len() == self.layers@.len(),
                groups@.len() == paths@.len(),
                order@.len() == paths@.len(),
                forall|q: int| 0 <= q < order@.len() ==> #[trigger] order@[q] < paths@.len(),
                as_ints(order@) == text_order(path_texts(paths@), paths@.len() as int),
                forall|q: int| 0 <= q < groups@.len() ==> (#[trigger] groups@[q])@ == self.layers@[q].sources@,
                out@.len() == i,
                forall|q: int|
                    0 <= q < i ==> (#[trigger] out@[q])@ == self.layers@[q].sources@.push(
                        SourceRef {
                            path: paths@[text_order(path_texts(paths@), paths@.len() as int)[q]],
                            start: Some(take_start),
                        },
                    ),
            decreases groups@.len() - i,
        {
            let mut g = groups[i].clone();
            assert(g@ =~= groups@[i as int]@);
            let which = order[i];
            assert(as_ints(order@)[i as int] == which as int);
            g.push(SourceRef { path: paths[which].clone(), start: Some(take_start) });
            out.push(g);
            i += 1;
        }
        Ok(out)
    }

    /// New layers for `paths` (one each, ids from the project's counter,
    /// which moves past them), and the source groups with them appended.
    pub fn layer_groups(&mut self, paths: &Vec<String>) -> (r: Result<(Vec<Vec<SourceRef>>, Vec<Layer>), String>)
        requires
            old(self).next_layer_id + paths@.len() <= u32::MAX,
        ensures
            paths@.len() == 0 ==> (r matches Err(m) && m@ == NO_FILE_GIVEN@ && *final(self) == *old(self)),
            paths@.len() > 0 ==> (r matches Ok((g, ls)) && final(self).next_layer_id == old(self).next_layer_id
                + paths@.len() && g@.len() == old(self).layers@.len() + paths@.len() && ls@.len()
                == paths@.len() && (forall|i: int|
                0 <= i < old(self).layers@.len() ==> (#[trigger] g@[i])@ == old(self).layers@[i].sources@)
                && (forall|j: int|
                0 <= j < paths@.len() ==> (#[trigger] ls@[j])@ == new_layer(
                    (old(self).next_layer_id + j) as u32,
                    paths@[j],
                ) && g@[old(self).layers@.len() + j]@ == seq![SourceRef { path: paths@[j], start: None }])
                && final(self).layers == old(self).layers && final(self).regions == old(self).regions
                && final(self).next_plugin_id == old(self).next_plugin_id),
    {
        if paths.len() == 0 {
            return Err(String::from_str(NO_FILE_GIVEN));
        }
        let mut groups = self.source_groups();
        let n = groups.len();
        let mut layers: Vec<Layer> = Vec::new();
        let mut j: usize = 0;
        while j < paths.len()
            invariant
                j <= paths@.len(),
                n == old(self).layers@.len(),
                self.layers == old(self).layers,
                self.regions == old(self).regions,
                self.next_plugin_id == old(self).next_plugin_id,
                old(self).next_layer_id + paths@.len() <= u32::MAX,
                self.next_layer_id == old(self).next_layer_id + j,
                groups@.len() == n + j,
                layers@.len() == j,
                forall|i: int| 0 <= i < n ==> (#[trigger] groups@[i])@ == old(self).layers@[i].sources@,
                forall|q: int|
                    0 <= q < j ==> (#[trigger] layers@[q])@ == new_layer(
                        (old(self).next_layer_id + q) as u32,
                        paths@[q],
                    ) && groups@[n + q]@ == seq![SourceRef { path: paths@[q], start: None }],
            decreases paths@.len() - j,
        {
            let id = self.next_layer_id;
            self.next_layer_id = id + 1;
            let mut g: Vec<SourceRef> = Vec::new();
            g.push(SourceRef { path: paths[j].clone(), start: None });
            let mut s: Vec<SourceRef> = Vec::new();
            s.push(SourceRef { path: paths[j].clone(), start: None });
            let no_inserts: Vec<MasteringPluginCfg> = Vec::new();
            let layer = Layer {
                id,
                sources: s,
                gain_db_bits: ZERO_DB_BITS,
                muted: false,
                solo: false,
                collapsed: false,
                inserts: no_inserts,
                custom_name: None,
            };
            assert(layer@ =~= new_layer(id, paths@[j as int]));
            groups.push(g);
            layers.push(layer);
            j += 1;
        }
        Ok((groups, layers))
    }
}

} // verus!
