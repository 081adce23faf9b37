//! A set of changed files placed in the graph, and what depends on
//! them.
//!
//! No risk score: what comes out is located. These files changed,
//! these import them at this distance, these declared layers and
//! modules are involved. The report publishes how many imports it was
//! computed from and which changed files the graph predates.

use vstd::prelude::*;
use crate::graph::digest::{blake3_hex, blake3_hex_of};
use crate::graph::findings::{fan_in, file_views, import_ends, strictly_ordered, EdgeV, FileV};
use crate::graph::git::{ChangeKind, ChangedFile};
use crate::graph::impact::{is_within, lookup_last, reached_exactly, reported, spread, within, Edges, Impacted, MAX_DEPTH};
use crate::graph::layer_check::{import_views, layer_for, patterns_fault, ImportV, LayerRules};
use crate::graph::layers::{declaration_fault, layer_views, LayersFile, ModuleDecl};
use crate::graph::model::FileFacts;
use crate::sort::{distinct_sorted, holds_text, insert_distinct, stable_sort, text_key};
use crate::text::{char_views, chars_of, opt_view, pair_views, string_of_vec, views};

verus! {

/// One changed file, placed in the graph.
#[derive(Clone, Debug)]
pub struct ChangedEntry {
    pub path: String,
    pub kind: ChangeKind,
    pub renamed_from: Option<String>,
    /// False for a file the graph has never seen: its radius cannot be
    /// computed, and saying so beats reporting an empty one.
    pub in_graph: bool,
    /// The declared layer this file belongs to, when one claims it.
    pub layer: Option<String>,
    /// How many imports point at this file.
    pub imported_by: usize,
}

/// A changed entry as a value.
pub type ChangedEntryV = (Seq<char>, ChangeKind, Option<Seq<char>>, bool, Option<Seq<char>>, nat);

impl View for ChangedEntry {
    type V = ChangedEntryV;

    open spec fn view(&self) -> ChangedEntryV {
        (
            self.path@,
            self.kind,
            opt_view(self.renamed_from),
            self.in_graph,
            opt_view(self.layer),
            self.imported_by as nat,
        )
    }
}

/// How much the report should be trusted.
#[derive(Clone, Copy, Debug)]
pub struct ImpactEvidence {
    pub resolved_imports: usize,
    pub unresolved_imports: usize,
    /// Changed files the graph has no node for.
    pub changed_not_in_graph: usize,
    /// Changed files whose content differs from what was indexed.
    pub changed_since_indexed: usize,
}

/// What a set of changes reaches.
#[derive(Clone, Debug)]
pub struct ImpactReport {
    pub changed: Vec<ChangedEntry>,
    /// Files reached by following imports backwards, nearest first.
    pub impact: Vec<Impacted>,
    pub modules_touched: Vec<String>,
    pub layers_touched: Vec<String>,
    pub depth: usize,
    pub evidence: ImpactEvidence,
}

/// A changed file, with what the index and the disk say of it.
pub struct ChangeSeen {
    pub change: ChangedFile,
    /// The content hash recorded when the file was last indexed.
    pub indexed_hash: Option<String>,
    /// The file's bytes now, or nothing if it cannot be read.
    pub content: Option<Vec<u8>>,
}

/// A change seen, as a value.
pub type ChangeSeenV = ((Seq<char>, ChangeKind, Option<Seq<char>>), Option<Seq<char>>, Option<Seq<u8>>);

impl View for ChangeSeen {
    type V = ChangeSeenV;

    open spec fn view(&self) -> ChangeSeenV {
        (
            self.change@,
            opt_view(self.indexed_hash),
            match self.content {
                Some(b) => Some(b@),
                None => None,
            },
        )
    }
}

/// The views of changes seen.
pub open spec fn change_views(v: Seq<ChangeSeen>) -> Seq<ChangeSeenV> {
    v.map_values(|c: ChangeSeen| c@)
}

/// The depth asked for, kept between one and [`MAX_DEPTH`].
pub open spec fn clamped_depth(depth: nat) -> nat {
    if depth < 1 {
        1
    } else if depth > MAX_DEPTH {
        MAX_DEPTH as nat
    } else {
        depth
    }
}

/// The id of the file at `path`; the last file with that path wins.
pub open spec fn id_at(files: Seq<FileV>, path: Seq<char>) -> Option<Seq<char>> {
    lookup_last(files.map_values(|f: FileV| (f.1, f.0)), path)
}

/// The (id, path) pairs of the files.
pub open spec fn paths_of(files: Seq<FileV>) -> Edges {
    files.map_values(|f: FileV| (f.0, f.1))
}

/// Whether the content on disk is what was indexed: it can be read
/// and its hash is the one recorded.
pub open spec fn content_matches(content: Option<Seq<u8>>, indexed: Seq<char>) -> bool {
    match content {
        Some(b) => blake3_hex_of(b) == indexed,
        None => false,
    }
}

/// Whether a change in the graph was edited since it was indexed.
pub open spec fn edited_since(files: Seq<FileV>, c: ChangeSeenV) -> bool {
    id_at(files, c.0.0) is Some && match c.1 {
        Some(h) => !content_matches(c.2, h),
        None => false,
    }
}

/// The declaration, if it is there and valid.
pub open spec fn valid_declaration(declared: Option<LayersFile>) -> Option<LayersFile> {
    match declared {
        Some(f) => if declaration_fault(f) is None {
            Some(f)
        } else {
            None
        },
        None => None,
    }
}

/// The layers to classify by: those of a valid declaration declaring
/// some, whose patterns all compile.
pub open spec fn usable_layers(declared: Option<LayersFile>) -> Option<Seq<crate::graph::layers::LayerV>> {
    match valid_declaration(declared) {
        Some(f) => if f.layers@.len() > 0 && patterns_fault(layer_views(f), 0) is None {
            Some(layer_views(f))
        } else {
            None
        },
        None => None,
    }
}

/// The entry for one change.
pub open spec fn entry_of(files: Seq<FileV>, edges: Seq<EdgeV>, declared: Option<LayersFile>, c: ChangeSeenV) -> ChangedEntryV {
    let id = id_at(files, c.0.0);
    (
        c.0.0,
        c.0.1,
        c.0.2,
        id is Some,
        match usable_layers(declared) {
            Some(ls) => layer_for(ls, c.0.0),
            None => None,
        },
        match id {
            Some(i) => fan_in(edges, i),
            None => 0,
        },
    )
}

/// The ids of the changes the graph knows, in order.
pub open spec fn seeds_of(files: Seq<FileV>, cs: Seq<ChangeSeenV>) -> Seq<Seq<char>>
    decreases cs.len(),
{
    if cs.len() == 0 {
        Seq::empty()
    } else {
        let rest = seeds_of(files, cs.drop_last());
        match id_at(files, cs.last().0.0) {
            Some(i) => rest.push(i),
            None => rest,
        }
    }
}

/// How many of the changes the graph has no node for.
pub open spec fn count_missing(files: Seq<FileV>, cs: Seq<ChangeSeenV>) -> nat
    decreases cs.len(),
{
    if cs.len() == 0 {
        0
    } else {
        count_missing(files, cs.drop_last()) + if id_at(files, cs.last().0.0) is None {
            1nat
        } else {
            0nat
        }
    }
}

/// How many of the changes were edited since they were indexed.
pub open spec fn count_edited(files: Seq<FileV>, cs: Seq<ChangeSeenV>) -> nat
    decreases cs.len(),
{
    if cs.len() == 0 {
        0
    } else {
        count_edited(files, cs.drop_last()) + if edited_since(files, cs.last()) {
            1nat
        } else {
            0nat
        }
    }
}

/// Whether `p` is a changed path or one the change reaches.
pub open spec fn involved(cs: Seq<ChangeSeenV>, impact: Seq<(Seq<char>, nat)>, p: Seq<char>) -> bool {
    (exists|i: int| 0 <= i < cs.len() && #[trigger] cs[i].0.0 == p) || (exists|i: int|
        0 <= i < impact.len() && #[trigger] impact[i].0 == p)
}

/// The names of the modules some involved path lies within, in
/// declaration order.
pub open spec fn modules_hit(mods: Seq<ModuleDecl>, cs: Seq<ChangeSeenV>, impact: Seq<(Seq<char>, nat)>) -> Seq<Seq<char>>
    decreases mods.len(),
{
    if mods.len() == 0 {
        Seq::empty()
    } else {
        let rest = modules_hit(mods.drop_last(), cs, impact);
        let m = mods.last();
        if exists|p: Seq<char>| #[trigger] involved(cs, impact, p) && within(p, m.path@) {
            rest.push(m.name@)
        } else {
            rest
        }
    }
}

/// The report placing `changes`, whose impact list is `impact`.
pub open spec fn report_given_impact(
    files: Seq<FileV>,
    imports: Seq<ImportV>,
    unresolved: nat,
    cs: Seq<ChangeSeenV>,
    declared: Option<LayersFile>,
    depth: nat,
    impact: Seq<(Seq<char>, nat)>,
    r: ImpactReport,
) -> bool {
    let edges = import_ends(imports);
    &&& r.changed@.map_values(|e: ChangedEntry| e@) == cs.map_values(
        |c: ChangeSeenV| entry_of(files, edges, declared, c),
    )
    &&& r.impact@.map_values(|i: Impacted| i@) == impact
    &&& r.depth == clamped_depth(depth)
    &&& r.evidence.resolved_imports == imports.len()
    &&& r.evidence.unresolved_imports == unresolved
    &&& r.evidence.changed_not_in_graph == count_missing(files, cs)
    &&& r.evidence.changed_since_indexed == count_edited(files, cs)
    &&& views(r.modules_touched@) == match valid_declaration(declared) {
        Some(f) => modules_hit(f.modules@, cs, impact),
        None => Seq::empty(),
    }
    &&& strictly_ordered(views(r.layers_touched@))
    &&& forall|l: Seq<char>|
        #[trigger] views(r.layers_touched@).contains(l) <==> match usable_layers(declared) {
            Some(ls) => exists|p: Seq<char>| #[trigger] involved(cs, impact, p) && layer_for(ls, p) == Some(l),
            None => false,
        }
}

/// The report for the changes, whose reached files, each once at its
/// shortest distance, are `ids` at distances `ds`.
pub open spec fn impact_outcome(
    files: Seq<FileV>,
    imports: Seq<ImportV>,
    unresolved: nat,
    cs: Seq<ChangeSeenV>,
    declared: Option<LayersFile>,
    depth: nat,
    ids: Seq<Seq<char>>,
    ds: Seq<nat>,
    r: ImpactReport,
) -> bool {
    &&& reached_exactly(import_ends(imports), seeds_of(files, cs).to_set(), clamped_depth(depth), ids, ds)
    &&& report_given_impact(
        files,
        imports,
        unresolved,
        cs,
        declared,
        depth,
        stable_sort(reported(ids, ds, paths_of(files))).map_values(|e: (Seq<u64>, (Seq<char>, nat))| e.1),
        r,
    )
}

fn content_is_indexed(content: &Option<Vec<u8>>, indexed: &String) -> (r: bool)
    ensures
        r == content_matches(
            match content {
                Some(b) => Some(b@),
                None => None,
            },
            indexed@,
        ),
{
    match content {
        Some(b) => {
            let h = blake3_hex(b.as_slice());
            crate::text::str_eq(h.as_str(), indexed.as_str())
        },
        None => false,
    }
}

/// Places each changed file in the graph and follows, breadth first,
/// what imports it, up to `depth` hops (kept between one and
/// [`MAX_DEPTH`]).
///
/// `files` are the project's file nodes and `imports` its resolved
/// imports; `unresolved` counts those that did not resolve. Each
/// change carries the hash it was indexed with and its bytes now, so a
/// file edited since the index is counted as such. `declared` is the
/// project's layer declaration as read, if any: a valid one names the
/// modules involved, and its layers, when it declares some whose
/// patterns compile, classify the files.
pub fn analyse_impact(
    files: &[FileFacts],
    imports: &[(String, String, Option<i64>)],
    unresolved: usize,
    changes: &[ChangeSeen],
    declared: &Option<LayersFile>,
    depth: usize,
) -> (r: ImpactReport)
    ensures
        exists|ids: Seq<Seq<char>>, ds: Seq<nat>|
            #[trigger] impact_outcome(
                file_views(files@),
                import_views(imports@),
                unresolved as nat,
                change_views(changes@),
                *declared,
                depth as nat,
                ids,
                ds,
                r,
            ),
{
    let ghost fv = file_views(files@);
    let ghost cs = change_views(changes@);
    let ghost iv = import_views(imports@);
    let ghost edges = import_ends(iv);
    let d: usize = if depth < 1 {
        1
    } else if depth > MAX_DEPTH {
        MAX_DEPTH
    } else {
        depth
    };
    // (path, id) and (id, path) for every file
    let mut by_path: Vec<(Vec<char>, Vec<char>)> = Vec::new();
    let mut paths: Vec<(String, String)> = Vec::new();
    let mut i: usize = 0;
    while i < files.len()
        invariant
            i <= files@.len(),
            fv == file_views(files@),
            crate::text::pair_char_views(by_path@) == fv.take(i as int).map_values(|f: FileV| (f.1, f.0)),
            pair_views(paths@) == paths_of(fv.take(i as int)),
        decreases files@.len() - i,
    {
        let ghost b0 = crate::text::pair_char_views(by_path@);
        let ghost p0 = pair_views(paths@);
        by_path.push((chars_of(files[i].fqn.as_str()), chars_of(files[i].id.as_str())));
        paths.push((files[i].id.clone(), files[i].fqn.clone()));
        assert(fv[i as int] == (files@[i as int].id@, files@[i as int].fqn@, files@[i as int].lines as int));
        assert(crate::text::pair_char_views(by_path@) =~= b0.push((fv[i as int].1, fv[i as int].0)));
        assert(fv.take(i + 1).map_values(|f: FileV| (f.1, f.0)) =~= fv.take(i as int).map_values(|f: FileV| (f.1, f.0)).push((fv[i as int].1, fv[i as int].0)));
        assert(pair_views(paths@) =~= p0.push((fv[i as int].0, fv[i as int].1)));
        assert(paths_of(fv.take(i + 1)) =~= paths_of(fv.take(i as int)).push((fv[i as int].0, fv[i as int].1)));
        i = i + 1;
    }
    assert(fv.take(fv.len() as int) =~= fv);
    // (importer, imported) for every import
    let mut edge_list: Vec<(String, String)> = Vec::new();
    let mut k: usize = 0;
    while k < imports.len()
        invariant
            k <= imports@.len(),
            iv == import_views(imports@),
            edges == import_ends(iv),
            pair_views(edge_list@) == edges.take(k as int),
        decreases imports@.len() - k,
    {
        let ghost e0 = pair_views(edge_list@);
        edge_list.push((imports[k].0.clone(), imports[k].1.clone()));
        assert(pair_views(edge_list@) =~= e0.push((imports@[k as int].0@, imports@[k as int].1@)));
        assert(edges.take(k + 1) =~= edges.take(k as int).push(edges[k as int]));
        k = k + 1;
    }
    assert(edges.take(edges.len() as int) =~= edges);
    let ev = crate::text::string_pairs_chars(edge_list.as_slice());
    // the declaration, if valid, and its layers, if usable
    let valid: Option<&LayersFile> = match declared {
        Some(f) => if f.validate().is_ok() {
            Some(f)
        } else {
            None
        },
        None => None,
    };
    let rules: Option<LayerRules> = match valid {
        Some(f) => if f.layers.len() > 0 {
            match LayerRules::compile(f) {
                Ok(r) => Some(r),
                Err(_) => None,
            }
        } else {
            None
        },
        None => None,
    };
    proof {
        match usable_layers(*declared) {
            Some(ls) => {
                assert(rules matches Some(r) && r@ == ls);
            },
            None => {
                assert(rules is None);
            },
        }
    }
    // each change, placed
    let mut placed: Vec<ChangedEntry> = Vec::new();
    let mut seeds: Vec<String> = Vec::new();
    let mut not_in_graph: usize = 0;
    let mut stale: usize = 0;
    let mut c: usize = 0;
    while c < changes.len()
        invariant
            c <= changes@.len(),
            fv == file_views(files@),
            cs == change_views(changes@),
            crate::text::pair_char_views(by_path@) == fv.map_values(|f: FileV| (f.1, f.0)),
            crate::text::pair_char_views(ev@) == edges,
            match usable_layers(*declared) {
                Some(ls) => rules matches Some(r) && r@ == ls,
                None => rules is None,
            },
            placed@.map_values(|e: ChangedEntry| e@) == cs.take(c as int).map_values(
                |x: ChangeSeenV| entry_of(fv, edges, *declared, x),
            ),
            views(seeds@) == seeds_of(fv, cs.take(c as int)),
            not_in_graph == count_missing(fv, cs.take(c as int)),
            stale == count_edited(fv, cs.take(c as int)),
            not_in_graph <= c,
            stale <= c,
        decreases changes@.len() - c,
    {
        let ch = &changes[c];
        let ghost x = cs[c as int];
        assert(x == ch@);
        assert(cs.take(c + 1).drop_last() =~= cs.take(c as int));
        assert(cs.take(c + 1).last() == x);
        let path = chars_of(ch.change.path.as_str());
        let id = crate::graph::impact::lookup_path(&by_path, &path);
        let ghost idv = id_at(fv, x.0.0);
        assert(match id {
            Some(v) => idv == Some(v@),
            None => idv is None,
        });
        let in_graph = id.is_some();
        if !in_graph {
            not_in_graph = not_in_graph + 1;
        } else {
            match &ch.indexed_hash {
                Some(h) => {
                    if !content_is_indexed(&ch.content, h) {
                        stale = stale + 1;
                    }
                },
                None => {},
            }
        }
        let layer = match &rules {
            Some(r) => r.layer_of(ch.change.path.as_str()),
            None => None,
        };
        let imported_by = match &id {
            Some(v) => crate::graph::findings::count_importers(&ev, v.as_slice()),
            None => 0,
        };
        match &id {
            Some(v) => {
                let ghost s0 = views(seeds@);
                seeds.push(string_of_vec(v));
                assert(views(seeds@) =~= s0.push(v@));
            },
            None => {},
        }
        let renamed_from = match &ch.change.renamed_from {
            Some(f) => Some(f.clone()),
            None => None,
        };
        let entry = ChangedEntry {
            path: ch.change.path.clone(),
            kind: ch.change.kind,
            renamed_from,
            in_graph,
            layer,
            imported_by,
        };
        let ghost pl0 = placed@.map_values(|e: ChangedEntry| e@);
        assert(entry@ == entry_of(fv, edges, *declared, x));
        placed.push(entry);
        assert(placed@.map_values(|e: ChangedEntry| e@) =~= pl0.push(entry_of(fv, edges, *declared, x)));
        assert(cs.take(c + 1).map_values(|y: ChangeSeenV| entry_of(fv, edges, *declared, y)) =~= cs.take(c as int).map_values(
            |y: ChangeSeenV| entry_of(fv, edges, *declared, y),
        ).push(entry_of(fv, edges, *declared, x)));
        c = c + 1;
    }
    assert(cs.take(cs.len() as int) =~= cs);
    let impact = spread(seeds.as_slice(), edge_list.as_slice(), paths.as_slice(), d);
    let ghost iv_ = impact@.map_values(|i: Impacted| i@);
    // every path involved: changed, then reached
    let mut inv: Vec<Vec<char>> = Vec::new();
    let mut a: usize = 0;
    while a < changes.len()
        invariant
            a <= changes@.len(),
            cs == change_views(changes@),
            inv@.len() == a,
            forall|j: int| 0 <= j < a ==> #[trigger] inv@[j]@ == cs[j].0.0,
        decreases changes@.len() - a,
    {
        inv.push(chars_of(changes[a].change.path.as_str()));
        a = a + 1;
    }
    let mut b: usize = 0;
    while b < impact.len()
        invariant
            b <= impact@.len(),
            cs == change_views(changes@),
            iv_ == impact@.map_values(|i: Impacted| i@),
            inv@.len() == cs.len() + b,
            forall|j: int| 0 <= j < cs.len() ==> #[trigger] inv@[j]@ == cs[j].0.0,
            forall|j: int| 0 <= j < b ==> #[trigger] inv@[cs.len() + j]@ == iv_[j].0,
        decreases impact@.len() - b,
    {
        inv.push(chars_of(impact[b].path.as_str()));
        b = b + 1;
    }
    assert forall|p: Seq<char>| char_views(inv@).contains(p) <==> #[trigger] involved(cs, iv_, p) by {
        if char_views(inv@).contains(p) {
            let j = choose|j: int| 0 <= j < inv@.len() && char_views(inv@)[j] == p;
            if j < cs.len() {
                assert(cs[j].0.0 == p);
            } else {
                let jj = j - cs.len();
                assert(inv@[cs.len() + jj]@ == iv_[jj].0);
            }
        }
        if exists|i: int| 0 <= i < cs.len() && #[trigger] cs[i].0.0 == p {
            let i = choose|i: int| 0 <= i < cs.len() && #[trigger] cs[i].0.0 == p;
            assert(char_views(inv@)[i] == p);
        }
        if exists|i: int| 0 <= i < iv_.len() && #[trigger] iv_[i].0 == p {
            let i = choose|i: int| 0 <= i < iv_.len() && #[trigger] iv_[i].0 == p;
            assert(char_views(inv@)[cs.len() + i] == p);
        }
    }
    // the layers involved, each once, in order
    let mut layer_names: Vec<(Vec<u64>, Vec<char>)> = Vec::new();
    match &rules {
        Some(r) => {
            let mut q: usize = 0;
            while q < inv.len()
                invariant
                    q <= inv@.len(),
                    distinct_sorted(layer_names@),
                    forall|l: Seq<char>|
                        #[trigger] holds_text(layer_names@, l) <==> exists|j: int|
                            0 <= j < q && layer_for(r@, #[trigger] inv@[j]@) == Some(l),
                decreases inv@.len() - q,
            {
                let ghost h0 = layer_names@;
                let p = string_of_vec(&inv[q]);
                match r.layer_of(p.as_str()) {
                    Some(l) => {
                        insert_distinct(&mut layer_names, chars_of(l.as_str()));
                        assert forall|l2: Seq<char>|
                            #[trigger] holds_text(layer_names@, l2) <==> exists|j: int|
                                0 <= j < q + 1 && layer_for(r@, #[trigger] inv@[j]@) == Some(l2) by {
                            if exists|j: int| 0 <= j < q + 1 && layer_for(r@, #[trigger] inv@[j]@) == Some(l2) {
                                let j = choose|j: int| 0 <= j < q + 1 && layer_for(r@, #[trigger] inv@[j]@) == Some(l2);
                                if j < q {
                                    assert(holds_text(h0, l2));
                                }
                            }
                        }
                    },
                    None => {
                        assert forall|l2: Seq<char>|
                            #[trigger] holds_text(layer_names@, l2) <==> exists|j: int|
                                0 <= j < q + 1 && layer_for(r@, #[trigger] inv@[j]@) == Some(l2) by {
                            if exists|j: int| 0 <= j < q + 1 && layer_for(r@, #[trigger] inv@[j]@) == Some(l2) {
                                let j = choose|j: int| 0 <= j < q + 1 && layer_for(r@, #[trigger] inv@[j]@) == Some(l2);
                                assert(j < q);
                            }
                        }
                    },
                }
                q = q + 1;
            }
        },
        None => {},
    }
    let mut layers_touched: Vec<String> = Vec::new();
    let mut t: usize = 0;
    while t < layer_names.len()
        invariant
            t <= layer_names@.len(),
            layers_touched@.len() == t,
            forall|j: int| 0 <= j < t ==> #[trigger] layers_touched@[j]@ == layer_names@[j].1@,
        decreases layer_names@.len() - t,
    {
        layers_touched.push(string_of_vec(&layer_names[t].1));
        t = t + 1;
    }
    proof {
        let lv = views(layers_touched@);
        assert forall|x: int, y: int| 0 <= x < y < lv.len() implies crate::sort::key_lt(text_key(#[trigger] lv[x]), text_key(#[trigger] lv[y])) by {
            assert(lv[x] == layer_names@[x].1@ && lv[y] == layer_names@[y].1@);
            assert(layer_names@[x].0@ == text_key(layer_names@[x].1@));
            assert(layer_names@[y].0@ == text_key(layer_names@[y].1@));
            assert(crate::sort::key_lt(layer_names@[x].0@, layer_names@[y].0@));
        }
        assert forall|l: Seq<char>| #[trigger] lv.contains(l) <==> holds_text(layer_names@, l) by {
            if lv.contains(l) {
                let j = choose|j: int| 0 <= j < lv.len() && lv[j] == l;
                assert(layer_names@[j].1@ == l);
            }
            if holds_text(layer_names@, l) {
                let j = choose|j: int| 0 <= j < layer_names@.len() && #[trigger] layer_names@[j].1@ == l;
                assert(lv[j] == l);
            }
        }
        match usable_layers(*declared) {
            Some(ls) => {
                assert forall|l: Seq<char>| #[trigger] lv.contains(l) <==> exists|p: Seq<char>| #[trigger] involved(cs, iv_, p) && layer_for(ls, p) == Some(l) by {
                    if lv.contains(l) {
                        let j = choose|j: int| 0 <= j < inv@.len() && layer_for(ls, #[trigger] inv@[j]@) == Some(l);
                        assert(char_views(inv@)[j] == inv@[j]@);
                        assert(involved(cs, iv_, inv@[j]@));
                    }
                    if exists|p: Seq<char>| #[trigger] involved(cs, iv_, p) && layer_for(ls, p) == Some(l) {
                        let p = choose|p: Seq<char>| #[trigger] involved(cs, iv_, p) && layer_for(ls, p) == Some(l);
                        assert(char_views(inv@).contains(p));
                        let j = choose|j: int| 0 <= j < inv@.len() && char_views(inv@)[j] == p;
                        assert(layer_for(ls, inv@[j]@) == Some(l));
                    }
                }
            },
            None => {
                assert(layer_names@.len() == 0);
            },
        }
    }
    // the modules involved, in declaration order
    let mut modules_touched: Vec<String> = Vec::new();
    match valid {
        Some(f) => {
            let mut m: usize = 0;
            while m < f.modules.len()
                invariant
                    m <= f.modules@.len(),
                    forall|p: Seq<char>| char_views(inv@).contains(p) <==> #[trigger] involved(cs, iv_, p),
                    views(modules_touched@) == modules_hit(f.modules@.take(m as int), cs, iv_),
                decreases f.modules@.len() - m,
            {
                let md = &f.modules[m];
                assert(f.modules@.take(m + 1).drop_last() =~= f.modules@.take(m as int));
                assert(f.modules@.take(m + 1).last() == *md);
                let mut hit = false;
                let mut q: usize = 0;
                while q < inv.len() && !hit
                    invariant
                        q <= inv@.len(),
                        hit ==> exists|p: Seq<char>| char_views(inv@).contains(p) && within(p, md.path@),
                        !hit ==> forall|j: int| 0 <= j < q ==> !within(#[trigger] inv@[j]@, md.path@),
                    decreases inv@.len() - q,
                {
                    let p = string_of_vec(&inv[q]);
                    if is_within(p.as_str(), md.path.as_str()) {
                        assert(char_views(inv@)[q as int] == inv@[q as int]@);
                        hit = true;
                    }
                    q = q + 1;
                }
                proof {
                    if hit {
                        let p = choose|p: Seq<char>| char_views(inv@).contains(p) && within(p, md.path@);
                        assert(involved(cs, iv_, p));
                    } else {
                        assert forall|p: Seq<char>| #[trigger] involved(cs, iv_, p) implies !within(p, md.path@) by {
                            assert(char_views(inv@).contains(p));
                            let j = choose|j: int| 0 <= j < inv@.len() && char_views(inv@)[j] == p;
                            assert(inv@[j]@ == p);
                        }
                    }
                }
                if hit {
                    let ghost t0 = views(modules_touched@);
                    modules_touched.push(md.name.clone());
                    assert(views(modules_touched@) =~= t0.push(md.name@));
                }
                m = m + 1;
            }
            assert(f.modules@.take(f.modules@.len() as int) =~= f.modules@);
        },
        None => {},
    }
    let report = ImpactReport {
        changed: placed,
        impact,
        modules_touched,
        layers_touched,
        depth: d,
        evidence: ImpactEvidence {
            resolved_imports: imports.len(),
            unresolved_imports: unresolved,
            changed_not_in_graph: not_in_graph,
            changed_since_indexed: stale,
        },
    };
    proof {
        assert(valid_declaration(*declared) == match valid {
            Some(f) => Some(*f),
            None => None::<LayersFile>,
        });
        assert(pair_views(paths@) == paths_of(fv));
        assert(views(seeds@) == seeds_of(fv, cs));
        assert(pair_views(edge_list@) == edges);
        let (ids, ds) = choose|ids: Seq<Seq<char>>, ds: Seq<nat>|
            {
                &&& reached_exactly(pair_views(edge_list@), views(seeds@).to_set(), d as nat, ids, ds)
                &&& impact@.map_values(|i: Impacted| i@) == stable_sort(reported(ids, ds, pair_views(paths@))).map_values(
                    |e: (Seq<u64>, (Seq<char>, nat))| e.1,
                )
            };
        let imp = stable_sort(reported(ids, ds, paths_of(fv))).map_values(|e: (Seq<u64>, (Seq<char>, nat))| e.1);
        assert(reached_exactly(import_ends(iv), seeds_of(fv, cs).to_set(), clamped_depth(depth as nat), ids, ds));
        assert(report.changed@.map_values(|e: ChangedEntry| e@) == cs.map_values(|c: ChangeSeenV| entry_of(fv, edges, *declared, c)));
        assert(report.impact@.map_values(|i: Impacted| i@) == imp);
        assert(report.depth == clamped_depth(depth as nat));
        assert(report.evidence.changed_not_in_graph == count_missing(fv, cs));
        assert(report.evidence.changed_since_indexed == count_edited(fv, cs));
        assert(views(report.modules_touched@) == match valid_declaration(*declared) {
            Some(f) => modules_hit(f.modules@, cs, imp),
            None => Seq::empty(),
        });
        assert(strictly_ordered(views(report.layers_touched@)));
        assert(report_given_impact(fv, iv, unresolved as nat, cs, *declared, depth as nat, imp, report));
        assert(impact_outcome(fv, iv, unresolved as nat, cs, *declared, depth as nat, ids, ds, report));
    }
    report
}

proof fn lemma_modules_hit_names(mods: Seq<ModuleDecl>, cs: Seq<ChangeSeenV>, impact: Seq<(Seq<char>, nat)>, k: int, p: Seq<char>)
    requires
        0 <= k < mods.len(),
        involved(cs, impact, p),
        within(p, mods[k].path@),
    ensures
        modules_hit(mods, cs, impact).contains(mods[k].name@),
    decreases mods.len(),
{
    let rest = modules_hit(mods.drop_last(), cs, impact);
    if k == mods.len() - 1 {
        assert(involved(cs, impact, p) && within(p, mods.last().path@));
        assert(modules_hit(mods, cs, impact) == rest.push(mods.last().name@));
        assert(modules_hit(mods, cs, impact)[rest.len() as int] == mods[k].name@);
    } else {
        assert(mods.drop_last()[k] == mods[k]);
        lemma_modules_hit_names(mods.drop_last(), cs, impact, k, p);
        let w = choose|w: int| 0 <= w < rest.len() && rest[w] == mods[k].name@;
        let m = mods.last();
        if exists|q: Seq<char>| #[trigger] involved(cs, impact, q) && within(q, m.path@) {
            assert(modules_hit(mods, cs, impact)[w] == mods[k].name@);
        } else {
            assert(modules_hit(mods, cs, impact)[w] == mods[k].name@);
        }
    }
}

/// Every file the change reaches, as listed in the report's impact
/// list, and every changed file, names the declared modules whose
/// path holds it among the modules touched, and the layer that claims
/// it among the layers touched.
pub proof fn law_reached_files_name_their_modules_and_layers(
    files: Seq<FileV>,
    imports: Seq<ImportV>,
    unresolved: nat,
    cs: Seq<ChangeSeenV>,
    declared: Option<LayersFile>,
    depth: nat,
    ids: Seq<Seq<char>>,
    ds: Seq<nat>,
    r: ImpactReport,
)
    requires
        impact_outcome(files, imports, unresolved, cs, declared, depth, ids, ds, r),
    ensures
        forall|j: int, k: int|
            0 <= j < r.impact@.len() && valid_declaration(declared) is Some && 0 <= k
                < valid_declaration(declared)->0.modules@.len() && #[trigger] within(
                r.impact@[j].path@,
                valid_declaration(declared)->0.modules@[k].path@,
            ) ==> views(r.modules_touched@).contains(valid_declaration(declared)->0.modules@[k].name@),
        forall|j: int, k: int|
            0 <= j < r.changed@.len() && valid_declaration(declared) is Some && 0 <= k
                < valid_declaration(declared)->0.modules@.len() && #[trigger] within(
                r.changed@[j].path@,
                valid_declaration(declared)->0.modules@[k].path@,
            ) ==> views(r.modules_touched@).contains(valid_declaration(declared)->0.modules@[k].name@),
        forall|j: int|
            0 <= j < r.impact@.len() && usable_layers(declared) is Some && #[trigger] layer_for(
                usable_layers(declared)->0,
                r.impact@[j].path@,
            ) is Some ==> views(r.layers_touched@).contains(
                layer_for(usable_layers(declared)->0, r.impact@[j].path@)->0,
            ),
        forall|j: int|
            0 <= j < r.changed@.len() && usable_layers(declared) is Some && #[trigger] layer_for(
                usable_layers(declared)->0,
                r.changed@[j].path@,
            ) is Some ==> views(r.layers_touched@).contains(
                layer_for(usable_layers(declared)->0, r.changed@[j].path@)->0,
            ),
{
    let impact = stable_sort(reported(ids, ds, paths_of(files))).map_values(|e: (Seq<u64>, (Seq<char>, nat))| e.1);
    let edges = import_ends(imports);
    assert(r.impact@.map_values(|i: Impacted| i@) == impact);
    assert(r.changed@.map_values(|e: ChangedEntry| e@) == cs.map_values(|c: ChangeSeenV| entry_of(files, edges, declared, c)));
    assert forall|j: int| 0 <= j < r.impact@.len() implies #[trigger] involved(cs, impact, r.impact@[j].path@) by {
        assert(r.impact@.map_values(|i: Impacted| i@)[j] == r.impact@[j]@);
        assert(impact[j].0 == r.impact@[j].path@);
    }
    assert forall|j: int| 0 <= j < r.changed@.len() implies #[trigger] involved(cs, impact, r.changed@[j].path@) by {
        assert(r.changed@.map_values(|e: ChangedEntry| e@).len() == cs.len());
        assert(r.changed@.map_values(|e: ChangedEntry| e@)[j] == r.changed@[j]@);
        assert(cs.map_values(|c: ChangeSeenV| entry_of(files, edges, declared, c))[j] == entry_of(files, edges, declared, cs[j]));
        assert(cs[j].0.0 == r.changed@[j].path@);
    }
    assert forall|j: int, k: int|
        0 <= j < r.impact@.len() && valid_declaration(declared) is Some && 0 <= k
            < valid_declaration(declared)->0.modules@.len() && #[trigger] within(
            r.impact@[j].path@,
            valid_declaration(declared)->0.modules@[k].path@,
        ) implies views(r.modules_touched@).contains(valid_declaration(declared)->0.modules@[k].name@) by {
        assert(involved(cs, impact, r.impact@[j].path@));
        lemma_modules_hit_names(valid_declaration(declared)->0.modules@, cs, impact, k, r.impact@[j].path@);
    }
    assert forall|j: int, k: int|
        0 <= j < r.changed@.len() && valid_declaration(declared) is Some && 0 <= k
            < valid_declaration(declared)->0.modules@.len() && #[trigger] within(
            r.changed@[j].path@,
            valid_declaration(declared)->0.modules@[k].path@,
        ) implies views(r.modules_touched@).contains(valid_declaration(declared)->0.modules@[k].name@) by {
        assert(involved(cs, impact, r.changed@[j].path@));
        lemma_modules_hit_names(valid_declaration(declared)->0.modules@, cs, impact, k, r.changed@[j].path@);
    }
    assert forall|j: int|
        0 <= j < r.impact@.len() && usable_layers(declared) is Some && #[trigger] layer_for(
            usable_layers(declared)->0,
            r.impact@[j].path@,
        ) is Some implies views(r.layers_touched@).contains(
            layer_for(usable_layers(declared)->0, r.impact@[j].path@)->0,
            ) by {
        assert(involved(cs, impact, r.impact@[j].path@));
    }
    assert forall|j: int|
        0 <= j < r.changed@.len() && usable_layers(declared) is Some && #[trigger] layer_for(
            usable_layers(declared)->0,
            r.changed@[j].path@,
        ) is Some implies views(r.layers_touched@).contains(
            layer_for(usable_layers(declared)->0, r.changed@[j].path@)->0,
            ) by {
        assert(involved(cs, impact, r.changed@[j].path@));
    }
}

proof fn lemma_modules_hit_only(mods: Seq<ModuleDecl>, cs: Seq<ChangeSeenV>, impact: Seq<(Seq<char>, nat)>, n: Seq<char>)
    requires
        modules_hit(mods, cs, impact).contains(n),
    ensures
        exists|k: int, p: Seq<char>|
            0 <= k < mods.len() && mods[k].name@ == n && #[trigger] involved(cs, impact, p) && within(
                p,
                #[trigger] mods[k].path@,
            ),
    decreases mods.len(),
{
    let rest = modules_hit(mods.drop_last(), cs, impact);
    let m = mods.last();
    if exists|p: Seq<char>| #[trigger] involved(cs, impact, p) && within(p, m.path@) {
        let p = choose|p: Seq<char>| #[trigger] involved(cs, impact, p) && within(p, m.path@);
        if n == m.name@ {
            let k = mods.len() - 1;
            assert(mods[k].name@ == n && involved(cs, impact, p) && within(p, mods[k].path@));
        } else {
            assert(modules_hit(mods, cs, impact) == rest.push(m.name@));
            let w = choose|w: int| 0 <= w < modules_hit(mods, cs, impact).len() && modules_hit(mods, cs, impact)[w] == n;
            assert(rest[w] == n);
            lemma_modules_hit_only(mods.drop_last(), cs, impact, n);
            let (k, q) = choose|k: int, q: Seq<char>|
                0 <= k < mods.drop_last().len() && mods.drop_last()[k].name@ == n && #[trigger] involved(cs, impact, q)
                    && within(q, #[trigger] mods.drop_last()[k].path@);
            assert(mods[k] == mods.drop_last()[k]);
        }
    } else {
        lemma_modules_hit_only(mods.drop_last(), cs, impact, n);
        let (k, q) = choose|k: int, q: Seq<char>|
            0 <= k < mods.drop_last().len() && mods.drop_last()[k].name@ == n && #[trigger] involved(cs, impact, q)
                && within(q, #[trigger] mods.drop_last()[k].path@);
        assert(mods[k] == mods.drop_last()[k]);
    }
}

/// Whether `p` is the path of a changed file or of a file listed as
/// reached in the report.
pub open spec fn listed_in(r: ImpactReport, p: Seq<char>) -> bool {
    (exists|j: int| 0 <= j < r.changed@.len() && #[trigger] r.changed@[j].path@ == p) || (exists|j: int|
        0 <= j < r.impact@.len() && #[trigger] r.impact@[j].path@ == p)
}

/// The modules and layers a report names are only those of a changed
/// file or of a file it lists as reached: each module touched is a
/// declared one whose path holds such a file, and each layer touched
/// claims one.
pub proof fn law_touched_modules_and_layers_hold_listed_files(
    files: Seq<FileV>,
    imports: Seq<ImportV>,
    unresolved: nat,
    cs: Seq<ChangeSeenV>,
    declared: Option<LayersFile>,
    depth: nat,
    ids: Seq<Seq<char>>,
    ds: Seq<nat>,
    r: ImpactReport,
)
    requires
        impact_outcome(files, imports, unresolved, cs, declared, depth, ids, ds, r),
    ensures
        forall|n: Seq<char>|
            #[trigger] views(r.modules_touched@).contains(n) ==> valid_declaration(declared) is Some && exists|
                k: int,
                p: Seq<char>,
            |
                0 <= k < valid_declaration(declared)->0.modules@.len() && valid_declaration(declared)->0.modules@[k].name@
                    == n && #[trigger] listed_in(r, p) && within(p, #[trigger] valid_declaration(declared)->0.modules@[k].path@),
        forall|l: Seq<char>|
            #[trigger] views(r.layers_touched@).contains(l) ==> usable_layers(declared) is Some && exists|p: Seq<char>|
                #[trigger] listed_in(r, p) && layer_for(usable_layers(declared)->0, p) == Some(l),
{
    let impact = stable_sort(reported(ids, ds, paths_of(files))).map_values(|e: (Seq<u64>, (Seq<char>, nat))| e.1);
    let edges = import_ends(imports);
    assert(r.impact@.map_values(|i: Impacted| i@) == impact);
    assert(r.changed@.map_values(|e: ChangedEntry| e@) == cs.map_values(|c: ChangeSeenV| entry_of(files, edges, declared, c)));
    assert forall|p: Seq<char>| #[trigger] involved(cs, impact, p) implies listed_in(r, p) by {
        if exists|i: int| 0 <= i < cs.len() && #[trigger] cs[i].0.0 == p {
            let i = choose|i: int| 0 <= i < cs.len() && #[trigger] cs[i].0.0 == p;
            assert(r.changed@.map_values(|e: ChangedEntry| e@).len() == cs.len());
            assert(r.changed@.map_values(|e: ChangedEntry| e@)[i] == r.changed@[i]@);
            assert(cs.map_values(|c: ChangeSeenV| entry_of(files, edges, declared, c))[i] == entry_of(files, edges, declared, cs[i]));
            assert(r.changed@[i].path@ == p);
        } else {
            let i = choose|i: int| 0 <= i < impact.len() && #[trigger] impact[i].0 == p;
            assert(r.impact@.map_values(|x: Impacted| x@)[i] == r.impact@[i]@);
            assert(r.impact@[i].path@ == p);
        }
    }
    assert forall|n: Seq<char>| #[trigger] views(r.modules_touched@).contains(n) implies valid_declaration(declared) is Some && exists|
        k: int,
        p: Seq<char>,
    |
        0 <= k < valid_declaration(declared)->0.modules@.len() && valid_declaration(declared)->0.modules@[k].name@ == n
            && #[trigger] listed_in(r, p) && within(p, #[trigger] valid_declaration(declared)->0.modules@[k].path@) by {
        let mods = valid_declaration(declared)->0.modules@;
        lemma_modules_hit_only(mods, cs, impact, n);
        let (k, p) = choose|k: int, p: Seq<char>|
            0 <= k < mods.len() && mods[k].name@ == n && #[trigger] involved(cs, impact, p) && within(p, #[trigger] mods[k].path@);
        assert(listed_in(r, p));
    }
    assert forall|l: Seq<char>| #[trigger] views(r.layers_touched@).contains(l) implies usable_layers(declared) is Some && exists|
        p: Seq<char>,
    | #[trigger] listed_in(r, p) && layer_for(usable_layers(declared)->0, p) == Some(l) by {
        let p = choose|p: Seq<char>| #[trigger] involved(cs, impact, p) && layer_for(usable_layers(declared)->0, p) == Some(l);
        assert(listed_in(r, p));
    }
}

} // verus!
