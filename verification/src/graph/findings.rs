//! What is worth looking at in a project, and nothing else.
//!
//! Deliberately not a score: each finding is a specific thing at a
//! specific place that a person can go and look at. Only resolved
//! imports count as dependencies, and every report carries the size
//! of the evidence it was drawn from.

use vstd::prelude::*;
use crate::graph::extract::imports::{code_path, is_code_path};
use crate::graph::layer_check::{check, check_outcome, import_views, Coverage, LayerReport, LayerRules, Violation, ViolationV, patterns_fault};
use crate::graph::layers::{declaration_fault, layer_views, layers_message, LayersFault, LayersFile};
use crate::graph::model::FileFacts;
use crate::sort::{keyed, lemma_stable_sort_map_payload, map_payload, push_text_key, sort_by_key, stable_sort, text_key};
use crate::text::{append_chars, append_str, char_views, chars_eq, chars_of, decimal, decimal_chars, find_last, first_index, find_char_from, last_index, lowercase, slice_chars, string_of_vec, to_lowercase, views};

verus! {

/// A file past this many lines is worth a second look; reported,
/// never scored.
pub const LARGE_FILE_LINES: i64 = 600;

/// A file this many others import is one everything depends on.
pub const HUB_FAN_IN: i64 = 8;

/// How sure a finding is.
#[derive(Clone, Copy, Debug, PartialEq, Eq, Structural)]
pub enum Severity {
    /// A rule the project wrote down for itself, broken: the only
    /// severity measured rather than guessed.
    Error,
    /// Something very likely wrong.
    Warning,
    /// Worth knowing before acting, not worth fixing on its own.
    Info,
}

/// One thing worth looking at.
#[derive(Clone, Debug)]
pub struct Finding {
    pub kind: &'static str,
    pub severity: Severity,
    /// What was found, in one sentence, naming the places involved.
    pub detail: String,
    /// The nodes this is about.
    pub nodes: Vec<String>,
}

/// A finding as a value: kind, severity, detail, nodes.
pub type FindingV = (Seq<char>, Severity, Seq<char>, Seq<Seq<char>>);

impl View for Finding {
    type V = FindingV;

    open spec fn view(&self) -> FindingV {
        (self.kind@, self.severity, self.detail@, views(self.nodes@))
    }
}

/// The views of a list of findings.
pub open spec fn finding_views(v: Seq<Finding>) -> Seq<FindingV> {
    v.map_values(|f: Finding| f@)
}

/// The size of the sample a report was drawn from.
#[derive(Clone, Copy, Debug)]
pub struct Evidence {
    pub files: usize,
    /// Import edges that resolved to a node of this project: the only
    /// edges any finding is computed from.
    pub resolved_imports: usize,
    /// Import edges naming something outside the project, or nothing.
    pub unresolved_imports: usize,
}

/// A report, and what it was drawn from.
#[derive(Clone, Debug)]
pub struct Findings {
    pub findings: Vec<Finding>,
    pub evidence: Evidence,
}

/// A file as a value: id, path, line count.
pub type FileV = (Seq<char>, Seq<char>, int);

/// The views of a list of files.
pub open spec fn file_views(v: Seq<FileFacts>) -> Seq<FileV> {
    v.map_values(|f: FileFacts| (f.id@, f.fqn@, f.lines as int))
}

/// The decimal rendering of a count.
pub open spec fn count_text(n: nat) -> Seq<char> {
    decimal(n)
}

fn count_chars(n: usize) -> (r: Vec<char>)
    ensures
        r@ == count_text(n as nat),
{
    decimal_chars(n as u64)
}

fn strings_of(v: &Vec<Vec<char>>) -> (r: Vec<String>)
    ensures
        views(r@) == char_views(v@),
{
    let mut r: Vec<String> = Vec::new();
    let mut i: usize = 0;
    while i < v.len()
        invariant
            i <= v@.len(),
            views(r@) == char_views(v@).take(i as int),
        decreases v@.len() - i,
    {
        let ghost r0 = views(r@);
        r.push(string_of_vec(&v[i]));
        assert(views(r@) =~= r0.push(v@[i as int]@));
        assert(char_views(v@).take(i + 1) =~= char_views(v@).take(i as int).push(v@[i as int]@));
        i = i + 1;
    }
    assert(char_views(v@).take(v@.len() as int) =~= char_views(v@));
    r
}

/// The stems that name an entry point rather than dead code.
pub open spec fn entry_point_stems() -> Seq<Seq<char>> {
    seq!["main"@, "lib"@, "mod"@, "index"@, "__init__"@, "build"@, "setup"@]
}

/// The last segment of a path.
pub open spec fn file_name(fqn: Seq<char>) -> Seq<char> {
    match last_index(fqn, '/') {
        Some(i) => fqn.skip(i as int + 1),
        None => fqn,
    }
}

/// Whether a file's name, up to its first dot, is an entry-point stem.
pub open spec fn entry_point(fqn: Seq<char>) -> bool {
    let name = file_name(fqn);
    entry_point_stems().contains(name.take(first_index(name, '.') as int))
}

fn name_chars(fqn: &[char]) -> (r: Vec<char>)
    ensures
        r@ == file_name(fqn@),
{
    match find_last(fqn, '/') {
        Some(i) => {
            proof {
                crate::text::lemma_last_index(fqn@, '/');
                assert(i < fqn@.len());
            }
            let len = fqn.len();
            let r = slice_chars(fqn, i + 1, len);
            assert(r@ =~= fqn@.skip(i + 1));
            r
        },
        None => slice_chars(fqn, 0, fqn.len()),
    }
}

/// Whether a file is an entry point by name: `main`, `lib`, `mod`,
/// `index`, `__init__`, `build` or `setup`, whatever its extension.
pub fn is_entry_point(fqn: &str) -> (r: bool)
    ensures
        r == entry_point(fqn@),
{
    let s = chars_of(fqn);
    let name = name_chars(s.as_slice());
    assert(name@.skip(0) =~= name@);
    let k = find_char_from(name.as_slice(), '.', 0);
    let stem = slice_chars(name.as_slice(), 0, k);
    assert(first_index(name@, '.') == k);
    assert(stem@ =~= name@.take(k as int));
    assert(file_name(fqn@) == name@);
    let stems: Vec<&'static str> = vec!["main", "lib", "mod", "index", "__init__", "build", "setup"];
    assert(stems@.map_values(|s: &'static str| s@) =~= entry_point_stems());
    let mut i: usize = 0;
    while i < stems.len()
        invariant
            i <= stems@.len(),
            stems@.map_values(|s: &'static str| s@) == entry_point_stems(),
            stem@ == file_name(fqn@).take(first_index(file_name(fqn@), '.') as int),
            forall|j: int| 0 <= j < i ==> entry_point_stems()[j] != stem@,
        decreases stems@.len() - i,
    {
        let c = chars_of(stems[i]);
        if chars_eq(c.as_slice(), stem.as_slice()) {
            assert(entry_point_stems()[i as int] == stem@);
            return true;
        }
        i = i + 1;
    }
    false
}

/// The payloads of a keyed sequence, in stable key order.
pub open spec fn sorted_payloads<T>(s: Seq<(Seq<u64>, T)>) -> Seq<T> {
    stable_sort(s).map_values(|e: (Seq<u64>, T)| e.1)
}

/// The ordering key of a large file: longest first.
pub open spec fn length_key(lines: int) -> Seq<u64> {
    seq![(0x7fff_ffff_ffff_ffff - lines) as u64]
}

/// The large source files, keyed longest first, in file order.
pub open spec fn large_candidates(files: Seq<FileV>) -> Seq<(Seq<u64>, Seq<char>)>
    decreases files.len(),
{
    if files.len() == 0 {
        Seq::empty()
    } else {
        let f = files.last();
        let rest = large_candidates(files.drop_last());
        if f.2 >= LARGE_FILE_LINES && code_path(f.1) {
            rest.push((length_key(f.2), f.1))
        } else {
            rest
        }
    }
}

/// The text of the large-file finding.
pub open spec fn large_detail(n: nat) -> Seq<char> {
    count_text(n) + " source files are over 600 lines. Sometimes the right answer, often a module that grew into two."@
}

/// The large-file finding of `files`, if any.
pub open spec fn large_part(files: Seq<FileV>, r: Seq<FindingV>) -> bool {
    let c = large_candidates(files);
    if c.len() == 0 {
        r.len() == 0
    } else {
        r == seq![("large_file"@, Severity::Info, large_detail(c.len()), sorted_payloads(c))]
    }
}

/// Long source files, longest first. Nothing when there are none.
pub fn large_files(files: &[FileFacts]) -> (r: Vec<Finding>)
    ensures
        large_part(file_views(files@), finding_views(r@)),
{
    let ghost fv = file_views(files@);
    let mut entries: Vec<(Vec<u64>, Vec<char>)> = Vec::new();
    let mut i: usize = 0;
    while i < files.len()
        invariant
            i <= files@.len(),
            fv == file_views(files@),
            map_payload(keyed(entries@), |v: Vec<char>| v@) == large_candidates(fv.take(i as int)),
        decreases files@.len() - i,
    {
        let f = &files[i];
        assert(fv.take(i + 1).drop_last() =~= fv.take(i as int));
        assert(fv.take(i + 1).last() == (f.id@, f.fqn@, f.lines as int));
        if f.lines >= LARGE_FILE_LINES && is_code_path(f.fqn.as_str()) {
            let mut key: Vec<u64> = Vec::new();
            let lk: i64 = 0x7fff_ffff_ffff_ffff - f.lines;
            key.push(lk as u64);
            assert(key@ =~= length_key(f.lines as int));
            let ghost e0 = entries@;
            entries.push((key, chars_of(f.fqn.as_str())));
            assert(map_payload(keyed(entries@), |v: Vec<char>| v@) =~= map_payload(
                keyed(e0),
                |v: Vec<char>| v@,
            ).push((length_key(f.lines as int), f.fqn@)));
        }
        i = i + 1;
    }
    assert(fv.take(fv.len() as int) =~= fv);
    if entries.len() == 0 {
        return Vec::new();
    }
    let n = entries.len();
    let ghost ke = keyed(entries@);
    let sorted = sort_by_key(entries);
    proof {
        lemma_stable_sort_map_payload(ke, |v: Vec<char>| v@);
    }
    let nodes = payload_strings(sorted, Ghost(large_candidates(fv)));
    let mut detail = count_chars(n);
    append_str(&mut detail, " source files are over 600 lines. Sometimes the right answer, often a module that grew into two.");
    let f = Finding { kind: "large_file", severity: Severity::Info, detail: string_of_vec(&detail), nodes };
    let r = vec![f];
    assert(finding_views(r@) =~= seq![("large_file"@, Severity::Info, large_detail(n as nat), sorted_payloads(large_candidates(fv)))]);
    r
}

/// The payloads of a sorted keyed vector, as strings.
fn payload_strings(sorted: Vec<(Vec<u64>, Vec<char>)>, Ghost(c): Ghost<Seq<(Seq<u64>, Seq<char>)>>) -> (r: Vec<String>)
    requires
        map_payload(keyed(sorted@), |v: Vec<char>| v@) == stable_sort(c),
    ensures
        views(r@) == sorted_payloads(c),
{
    let ghost ss = stable_sort(c);
    let mut r: Vec<String> = Vec::new();
    let mut i: usize = 0;
    while i < sorted.len()
        invariant
            i <= sorted@.len(),
            ss == stable_sort(c),
            map_payload(keyed(sorted@), |v: Vec<char>| v@) == ss,
            views(r@) == ss.take(i as int).map_values(|e: (Seq<u64>, Seq<char>)| e.1),
        decreases sorted@.len() - i,
    {
        let ghost r0 = views(r@);
        assert(map_payload(keyed(sorted@), |v: Vec<char>| v@)[i as int].1 == sorted@[i as int].1@);
        r.push(string_of_vec(&sorted[i].1));
        assert(views(r@) =~= r0.push(sorted@[i as int].1@));
        assert(ss.take(i + 1).map_values(|e: (Seq<u64>, Seq<char>)| e.1) =~= ss.take(i as int).map_values(
            |e: (Seq<u64>, Seq<char>)| e.1,
        ).push(ss[i as int].1));
        i = i + 1;
    }
    assert(ss.take(ss.len() as int) =~= ss);
    r
}

/// An import as a value: importer id, imported id.
pub type EdgeV = (Seq<char>, Seq<char>);

/// How many imports point at `id`.
pub open spec fn fan_in(imports: Seq<EdgeV>, id: Seq<char>) -> nat
    decreases imports.len(),
{
    if imports.len() == 0 {
        0
    } else {
        fan_in(imports.drop_last(), id) + if imports.last().1 == id {
            1nat
        } else {
            0nat
        }
    }
}

/// The ordering key of a hub: most imported first, then by path.
pub open spec fn hub_key(count: nat, fqn: Seq<char>) -> Seq<u64> {
    seq![(0xffff_ffff_ffff_ffff - count) as u64] + text_key(fqn)
}

/// The files imported by at least [`HUB_FAN_IN`] others, keyed, in
/// file order.
pub open spec fn hub_candidates(files: Seq<FileV>, imports: Seq<EdgeV>) -> Seq<(Seq<u64>, Seq<char>)>
    decreases files.len(),
{
    if files.len() == 0 {
        Seq::empty()
    } else {
        let f = files.last();
        let rest = hub_candidates(files.drop_last(), imports);
        let n = fan_in(imports, f.0);
        if n >= HUB_FAN_IN {
            rest.push((hub_key(n, f.1), f.1))
        } else {
            rest
        }
    }
}

/// The text of the hub finding.
pub open spec fn hub_detail(n: nat) -> Seq<char> {
    count_text(n) + " files are imported by 8 or more others. Changing one of these reaches further than changing a leaf."@
}

pub(crate) fn count_importers(ev: &Vec<(Vec<char>, Vec<char>)>, id: &[char]) -> (n: usize)
    ensures
        n == fan_in(crate::text::pair_char_views(ev@), id@),
        n <= ev@.len(),
{
    let ghost es = crate::text::pair_char_views(ev@);
    let mut n: usize = 0;
    let mut k: usize = 0;
    while k < ev.len()
        invariant
            k <= ev@.len(),
            es == crate::text::pair_char_views(ev@),
            n <= k,
            n == fan_in(es.take(k as int), id@),
        decreases ev@.len() - k,
    {
        assert(es.take(k + 1).drop_last() =~= es.take(k as int));
        assert(es.take(k + 1).last() == (ev@[k as int].0@, ev@[k as int].1@));
        if chars_eq(ev[k].1.as_slice(), id) {
            n = n + 1;
        }
        k = k + 1;
    }
    assert(es.take(es.len() as int) =~= es);
    n
}

/// The hub finding, if any.
pub open spec fn hub_part(files: Seq<FileV>, imports: Seq<EdgeV>, r: Seq<FindingV>) -> bool {
    let c = hub_candidates(files, imports);
    if c.len() == 0 {
        r.len() == 0
    } else {
        r == seq![("widely_depended_on"@, Severity::Info, hub_detail(c.len()), sorted_payloads(c))]
    }
}

/// The files most of the project depends on: those imported by at
/// least [`HUB_FAN_IN`] others, most imported first, ties by path.
/// Nothing when there are none.
pub fn hubs(files: &[FileFacts], imports: &[(String, String)]) -> (r: Vec<Finding>)
    ensures
        hub_part(file_views(files@), crate::text::pair_views(imports@), finding_views(r@)),
{
    let ghost fv = file_views(files@);
    let ghost es = crate::text::pair_views(imports@);
    let ev = crate::text::string_pairs_chars(imports);
    let mut entries: Vec<(Vec<u64>, Vec<char>)> = Vec::new();
    let mut i: usize = 0;
    while i < files.len()
        invariant
            i <= files@.len(),
            fv == file_views(files@),
            crate::text::pair_char_views(ev@) == es,
            map_payload(keyed(entries@), |v: Vec<char>| v@) == hub_candidates(fv.take(i as int), es),
        decreases files@.len() - i,
    {
        let f = &files[i];
        assert(fv.take(i + 1).drop_last() =~= fv.take(i as int));
        assert(fv.take(i + 1).last() == (f.id@, f.fqn@, f.lines as int));
        let id = chars_of(f.id.as_str());
        let n = count_importers(&ev, id.as_slice());
        if n >= 8 {
            let fqn = chars_of(f.fqn.as_str());
            let mut key: Vec<u64> = Vec::new();
            let kk: u64 = 0xffff_ffff_ffff_ffff - n as u64;
            key.push(kk);
            push_text_key(&mut key, fqn.as_slice());
            assert(key@ =~= hub_key(n as nat, f.fqn@));
            let ghost e0 = entries@;
            entries.push((key, fqn));
            assert(map_payload(keyed(entries@), |v: Vec<char>| v@) =~= map_payload(
                keyed(e0),
                |v: Vec<char>| v@,
            ).push((hub_key(n as nat, f.fqn@), f.fqn@)));
        }
        i = i + 1;
    }
    assert(fv.take(fv.len() as int) =~= fv);
    if entries.len() == 0 {
        return Vec::new();
    }
    let n = entries.len();
    let ghost ke = keyed(entries@);
    let sorted = sort_by_key(entries);
    proof {
        lemma_stable_sort_map_payload(ke, |v: Vec<char>| v@);
    }
    let nodes = payload_strings(sorted, Ghost(hub_candidates(fv, es)));
    let mut detail = count_chars(n);
    append_str(&mut detail, " files are imported by 8 or more others. Changing one of these reaches further than changing a leaf.");
    let f = Finding { kind: "widely_depended_on", severity: Severity::Info, detail: string_of_vec(&detail), nodes };
    let r = vec![f];
    assert(finding_views(r@) =~= seq![("widely_depended_on"@, Severity::Info, hub_detail(n as nat), sorted_payloads(hub_candidates(fv, es)))]);
    r
}

/// Whether an import has `id` at either end.
pub open spec fn names_end(e: EdgeV, id: Seq<char>) -> bool {
    e.0 == id || e.1 == id
}

/// Whether some import has `id` at either end.
pub open spec fn touched(imports: Seq<EdgeV>, id: Seq<char>) -> bool {
    exists|k: int| 0 <= k < imports.len() && #[trigger] names_end(imports[k], id)
}

/// The source files nothing imports and which import nothing, entry
/// points aside, in file order.
pub open spec fn orphaned(files: Seq<FileV>, imports: Seq<EdgeV>) -> Seq<Seq<char>>
    decreases files.len(),
{
    if files.len() == 0 {
        Seq::empty()
    } else {
        let f = files.last();
        let rest = orphaned(files.drop_last(), imports);
        if !touched(imports, f.0) && !entry_point(f.1) && code_path(f.1) {
            rest.push(f.1)
        } else {
            rest
        }
    }
}

/// The text of the orphan finding.
pub open spec fn orphan_detail(n: nat) -> Seq<char> {
    count_text(n) + " source files neither import anything in this project nor are imported by it. Possibly dead, possibly reached another way \u{2014} worth checking, not worth assuming."@
}

fn is_touched(ev: &Vec<(Vec<char>, Vec<char>)>, id: &[char]) -> (r: bool)
    ensures
        r == touched(crate::text::pair_char_views(ev@), id@),
{
    let ghost es = crate::text::pair_char_views(ev@);
    let mut k: usize = 0;
    while k < ev.len()
        invariant
            k <= ev@.len(),
            es == crate::text::pair_char_views(ev@),
            forall|j: int| 0 <= j < k ==> !#[trigger] names_end(es[j], id@),
        decreases ev@.len() - k,
    {
        assert(es[k as int] == (ev@[k as int].0@, ev@[k as int].1@));
        if chars_eq(ev[k].0.as_slice(), id) || chars_eq(ev[k].1.as_slice(), id) {
            assert(names_end(es[k as int], id@));
            return true;
        }
        assert(!names_end(es[k as int], id@));
        k = k + 1;
    }
    false
}

/// The orphan finding, if any.
pub open spec fn orphan_part(files: Seq<FileV>, imports: Seq<EdgeV>, r: Seq<FindingV>) -> bool {
    let o = orphaned(files, imports);
    if o.len() == 0 {
        r.len() == 0
    } else {
        r == seq![("unreferenced_file"@, Severity::Info, orphan_detail(o.len()), o)]
    }
}

/// Source files nothing imports and which import nothing: possibly
/// dead, possibly an entry point, so entry-point names are left out.
/// Nothing when there are none.
pub fn orphans(files: &[FileFacts], imports: &[(String, String)]) -> (r: Vec<Finding>)
    ensures
        orphan_part(file_views(files@), crate::text::pair_views(imports@), finding_views(r@)),
{
    let ghost fv = file_views(files@);
    let ghost es = crate::text::pair_views(imports@);
    let ev = crate::text::string_pairs_chars(imports);
    let mut out: Vec<String> = Vec::new();
    let mut i: usize = 0;
    while i < files.len()
        invariant
            i <= files@.len(),
            fv == file_views(files@),
            crate::text::pair_char_views(ev@) == es,
            views(out@) == orphaned(fv.take(i as int), es),
        decreases files@.len() - i,
    {
        let f = &files[i];
        assert(fv.take(i + 1).drop_last() =~= fv.take(i as int));
        assert(fv.take(i + 1).last() == (f.id@, f.fqn@, f.lines as int));
        let id = chars_of(f.id.as_str());
        if !is_touched(&ev, id.as_slice()) && !is_entry_point(f.fqn.as_str()) && is_code_path(f.fqn.as_str()) {
            let ghost o0 = views(out@);
            out.push(f.fqn.clone());
            assert(views(out@) =~= o0.push(f.fqn@));
        }
        i = i + 1;
    }
    assert(fv.take(fv.len() as int) =~= fv);
    if out.len() == 0 {
        return Vec::new();
    }
    let mut detail = count_chars(out.len());
    append_str(&mut detail, " source files neither import anything in this project nor are imported by it. Possibly dead, possibly reached another way \u{2014} worth checking, not worth assuming.");
    let n = out.len();
    let f = Finding { kind: "unreferenced_file", severity: Severity::Info, detail: string_of_vec(&detail), nodes: out };
    let r = vec![f];
    assert(finding_views(r@) =~= seq![("unreferenced_file"@, Severity::Info, orphan_detail(n as nat), orphaned(fv, es))]);
    r
}

/// Whether a file's name, lowercased, begins with `readme`.
pub open spec fn readme_name(name: Seq<char>) -> bool {
    crate::text::starts_with(lowercase(name), "readme"@)
}

/// Whether file `f` is a README in directory `d`.
pub open spec fn readme_in(f: FileV, d: Seq<char>) -> bool {
    match last_index(f.1, '/') {
        Some(i) => f.1.take(i as int) == d && readme_name(f.1.skip(i as int + 1)),
        None => false,
    }
}

/// Whether file `f` is a source file, not a README, in directory `d`.
pub open spec fn source_in(f: FileV, d: Seq<char>) -> bool {
    match last_index(f.1, '/') {
        Some(i) => f.1.take(i as int) == d && !readme_name(f.1.skip(i as int + 1)) && code_path(f.1),
        None => false,
    }
}

/// Whether directory `d` holds source files and no README.
pub open spec fn undocumented(files: Seq<FileV>, d: Seq<char>) -> bool {
    &&& exists|k: int| 0 <= k < files.len() && #[trigger] source_in(files[k], d)
    &&& !exists|k: int| 0 <= k < files.len() && #[trigger] readme_in(files[k], d)
}

/// The text of the undocumented-directory finding.
pub open spec fn undocumented_detail(n: nat) -> Seq<char> {
    count_text(n) + " directories hold source files and no README. The cheapest thing to fix that helps the next reader most."@
}

/// Whether a list of texts is in strictly increasing key order.
pub open spec fn strictly_ordered(s: Seq<Seq<char>>) -> bool {
    forall|a: int, b: int| 0 <= a < b < s.len() ==> crate::sort::key_lt(text_key(#[trigger] s[a]), text_key(#[trigger] s[b]))
}

/// The undocumented-directory finding, if any: every such directory
/// once, in order.
pub open spec fn undocumented_part(files: Seq<FileV>, r: Seq<FindingV>) -> bool {
    &&& r.len() <= 1
    &&& r.len() == 0 <==> !exists|d: Seq<char>| #[trigger] undocumented(files, d)
    &&& r.len() == 1 ==> ({
        let f = r[0];
        &&& f.0 == "undocumented_directory"@
        &&& f.1 == Severity::Info
        &&& f.2 == undocumented_detail(f.3.len())
        &&& strictly_ordered(f.3)
        &&& forall|d: Seq<char>| #[trigger] f.3.contains(d) <==> undocumented(files, d)
    })
}

/// Directories holding source files but no README, each once, in
/// order. Nothing when there are none.
pub fn undocumented_directories(files: &[FileFacts]) -> (r: Vec<Finding>)
    ensures
        undocumented_part(file_views(files@), finding_views(r@)),
{
    let ghost fv = file_views(files@);
    // (directory, is a readme) for every file in a directory
    let mut srcs: Vec<Vec<char>> = Vec::new();
    let mut readmes: Vec<Vec<char>> = Vec::new();
    let mut i: usize = 0;
    while i < files.len()
        invariant
            i <= files@.len(),
            fv == file_views(files@),
            forall|d: Seq<char>| char_views(srcs@).contains(d) <==> exists|k: int| 0 <= k < i && #[trigger] source_in(fv[k], d),
            forall|d: Seq<char>| char_views(readmes@).contains(d) <==> exists|k: int| 0 <= k < i && #[trigger] readme_in(fv[k], d),
        decreases files@.len() - i,
    {
        let f = &files[i];
        assert(fv[i as int] == (f.id@, f.fqn@, f.lines as int));
        let s = chars_of(f.fqn.as_str());
        let ghost s0 = char_views(srcs@);
        let ghost r0 = char_views(readmes@);
        match find_last(s.as_slice(), '/') {
            Some(j) => {
                proof {
                    crate::text::lemma_last_index(s@, '/');
                }
                let len = s.len();
                let dir = slice_chars(s.as_slice(), 0, j);
                let name = slice_chars(s.as_slice(), j + 1, len);
                assert(dir@ =~= s@.take(j as int));
                assert(name@ =~= s@.skip(j + 1));
                let lower = to_lowercase(string_of_vec(&name).as_str());
                let lc = chars_of(lower.as_str());
                let readme: Vec<char> = vec!['r', 'e', 'a', 'd', 'm', 'e'];
                proof {
                    reveal_strlit("readme");
                    assert(readme@ =~= "readme"@);
                }
                if crate::text::chars_start_with(lc.as_slice(), readme.as_slice()) {
                    readmes.push(dir);
                    proof {
                        assert(readme_in(fv[i as int], s@.take(j as int)));
                        crate::text::lemma_push_contains(r0, s@.take(j as int));
                        assert(char_views(readmes@) =~= r0.push(s@.take(j as int)));
                        assert forall|d: Seq<char>| char_views(readmes@).contains(d) <==> exists|k: int| 0 <= k < i + 1 && #[trigger] readme_in(fv[k], d) by {
                            if exists|k: int| 0 <= k < i + 1 && #[trigger] readme_in(fv[k], d) {
                                let k = choose|k: int| 0 <= k < i + 1 && #[trigger] readme_in(fv[k], d);
                                if k < i {
                                    assert(r0.contains(d));
                                }
                            }
                        }
                        assert forall|d: Seq<char>| char_views(srcs@).contains(d) <==> exists|k: int| 0 <= k < i + 1 && #[trigger] source_in(fv[k], d) by {
                            if exists|k: int| 0 <= k < i + 1 && #[trigger] source_in(fv[k], d) {
                                let k = choose|k: int| 0 <= k < i + 1 && #[trigger] source_in(fv[k], d);
                                assert(k < i);
                            }
                        }
                    }
                } else if is_code_path(f.fqn.as_str()) {
                    srcs.push(dir);
                    proof {
                        assert(source_in(fv[i as int], s@.take(j as int)));
                        crate::text::lemma_push_contains(s0, s@.take(j as int));
                        assert(char_views(srcs@) =~= s0.push(s@.take(j as int)));
                        assert forall|d: Seq<char>| char_views(srcs@).contains(d) <==> exists|k: int| 0 <= k < i + 1 && #[trigger] source_in(fv[k], d) by {
                            if exists|k: int| 0 <= k < i + 1 && #[trigger] source_in(fv[k], d) {
                                let k = choose|k: int| 0 <= k < i + 1 && #[trigger] source_in(fv[k], d);
                                if k < i {
                                    assert(s0.contains(d));
                                }
                            }
                        }
                        assert forall|d: Seq<char>| char_views(readmes@).contains(d) <==> exists|k: int| 0 <= k < i + 1 && #[trigger] readme_in(fv[k], d) by {
                            if exists|k: int| 0 <= k < i + 1 && #[trigger] readme_in(fv[k], d) {
                                let k = choose|k: int| 0 <= k < i + 1 && #[trigger] readme_in(fv[k], d);
                                assert(k < i);
                            }
                        }
                    }
                } else {
                    proof {
                        assert forall|d: Seq<char>| char_views(srcs@).contains(d) <==> exists|k: int| 0 <= k < i + 1 && #[trigger] source_in(fv[k], d) by {
                            if exists|k: int| 0 <= k < i + 1 && #[trigger] source_in(fv[k], d) {
                                let k = choose|k: int| 0 <= k < i + 1 && #[trigger] source_in(fv[k], d);
                                assert(k < i);
                            }
                        }
                        assert forall|d: Seq<char>| char_views(readmes@).contains(d) <==> exists|k: int| 0 <= k < i + 1 && #[trigger] readme_in(fv[k], d) by {
                            if exists|k: int| 0 <= k < i + 1 && #[trigger] readme_in(fv[k], d) {
                                let k = choose|k: int| 0 <= k < i + 1 && #[trigger] readme_in(fv[k], d);
                                assert(k < i);
                            }
                        }
                    }
                }
            },
            None => {
                proof {
                    assert forall|d: Seq<char>| char_views(srcs@).contains(d) <==> exists|k: int| 0 <= k < i + 1 && #[trigger] source_in(fv[k], d) by {
                        if exists|k: int| 0 <= k < i + 1 && #[trigger] source_in(fv[k], d) {
                            let k = choose|k: int| 0 <= k < i + 1 && #[trigger] source_in(fv[k], d);
                            assert(k < i);
                        }
                    }
                    assert forall|d: Seq<char>| char_views(readmes@).contains(d) <==> exists|k: int| 0 <= k < i + 1 && #[trigger] readme_in(fv[k], d) by {
                        if exists|k: int| 0 <= k < i + 1 && #[trigger] readme_in(fv[k], d) {
                            let k = choose|k: int| 0 <= k < i + 1 && #[trigger] readme_in(fv[k], d);
                            assert(k < i);
                        }
                    }
                }
            },
        }
        i = i + 1;
    }
    // the source directories without a readme, each once, in order
    let mut missing: Vec<(Vec<u64>, Vec<char>)> = Vec::new();
    let mut k: usize = 0;
    while k < srcs.len()
        invariant
            k <= srcs@.len(),
            fv == file_views(files@),
            forall|d: Seq<char>| char_views(srcs@).contains(d) <==> exists|k: int| 0 <= k < fv.len() && #[trigger] source_in(fv[k], d),
            forall|d: Seq<char>| char_views(readmes@).contains(d) <==> exists|k: int| 0 <= k < fv.len() && #[trigger] readme_in(fv[k], d),
            crate::sort::distinct_sorted(missing@),
            forall|d: Seq<char>| #[trigger] crate::sort::holds_text(missing@, d) <==> (char_views(srcs@).take(k as int).contains(d) && !char_views(readmes@).contains(d)),
        decreases srcs@.len() - k,
    {
        let d = &srcs[k];
        let ghost dv = d@;
        assert(char_views(srcs@)[k as int] == dv);
        let mut documented = false;
        let mut m: usize = 0;
        while m < readmes.len()
            invariant
                m <= readmes@.len(),
                !documented ==> forall|x: int| 0 <= x < m ==> readmes@[x]@ != dv,
                documented ==> char_views(readmes@).contains(dv),
                d@ == dv,
            decreases readmes@.len() - m,
        {
            if chars_eq(readmes[m].as_slice(), d.as_slice()) {
                assert(char_views(readmes@)[m as int] == dv);
                documented = true;
            }
            m = m + 1;
        }
        assert(documented == char_views(readmes@).contains(dv)) by {
            if !documented && char_views(readmes@).contains(dv) {
                let x = choose|x: int| 0 <= x < readmes@.len() && char_views(readmes@)[x] == dv;
                assert(readmes@[x]@ == dv);
            }
        }
        let ghost m0 = missing@;
        if !documented {
            let copy = slice_chars(d.as_slice(), 0, d.len());
            assert(copy@ =~= dv);
            crate::sort::insert_distinct(&mut missing, copy);
        }
        proof {
            crate::text::lemma_push_contains(char_views(srcs@).take(k as int), dv);
            assert(char_views(srcs@).take(k + 1) =~= char_views(srcs@).take(k as int).push(dv));
        }
        k = k + 1;
    }
    assert(char_views(srcs@).take(srcs@.len() as int) =~= char_views(srcs@));
    if missing.len() == 0 {
        proof {
            assert forall|d: Seq<char>| !#[trigger] undocumented(fv, d) by {
                if undocumented(fv, d) {
                    assert(char_views(srcs@).contains(d));
                    assert(!char_views(readmes@).contains(d));
                    assert(crate::sort::holds_text(missing@, d));
                }
            }
        }
        return Vec::new();
    }
    let mut nodes_chars: Vec<Vec<char>> = Vec::new();
    let mut x: usize = 0;
    while x < missing.len()
        invariant
            x <= missing@.len(),
            nodes_chars@.len() == x,
            forall|a: int| 0 <= a < x ==> #[trigger] nodes_chars@[a]@ == missing@[a].1@,
        decreases missing@.len() - x,
    {
        let c = slice_chars(missing[x].1.as_slice(), 0, missing[x].1.len());
        assert(c@ =~= missing@[x as int].1@);
        nodes_chars.push(c);
        x = x + 1;
    }
    let nodes = strings_of(&nodes_chars);
    let n = nodes.len();
    let mut detail = count_chars(n);
    append_str(&mut detail, " directories hold source files and no README. The cheapest thing to fix that helps the next reader most.");
    let f = Finding { kind: "undocumented_directory", severity: Severity::Info, detail: string_of_vec(&detail), nodes };
    let r = vec![f];
    proof {
        let nv = r@[0]@.3;
        assert(nv == char_views(nodes_chars@));
        assert forall|a: int, b: int| 0 <= a < b < nv.len() implies crate::sort::key_lt(text_key(#[trigger] nv[a]), text_key(#[trigger] nv[b])) by {
            assert(nv[a] == missing@[a].1@ && nv[b] == missing@[b].1@);
            assert(missing@[a].0@ == text_key(missing@[a].1@));
            assert(missing@[b].0@ == text_key(missing@[b].1@));
            assert(crate::sort::key_lt(missing@[a].0@, missing@[b].0@));
        }
        assert forall|d: Seq<char>| #[trigger] nv.contains(d) <==> undocumented(fv, d) by {
            if nv.contains(d) {
                let a = choose|a: int| 0 <= a < nv.len() && nv[a] == d;
                assert(missing@[a].1@ == d);
                assert(crate::sort::holds_text(missing@, d));
            }
            if undocumented(fv, d) {
                assert(crate::sort::holds_text(missing@, d));
                let a = choose|a: int| 0 <= a < missing@.len() && #[trigger] missing@[a].1@ == d;
                assert(nv[a] == d);
            }
        }
        let d0 = nv[0];
        assert(nv.contains(d0));
        assert(undocumented(fv, d0));
    }
    r
}

/// The position of the last file with id `id`.
pub open spec fn id_position(files: Seq<FileV>, id: Seq<char>) -> Option<nat>
    decreases files.len(),
{
    if files.len() == 0 {
        None
    } else if files.last().0 == id {
        Some((files.len() - 1) as nat)
    } else {
        id_position(files.drop_last(), id)
    }
}

proof fn lemma_id_position(files: Seq<FileV>, id: Seq<char>)
    ensures
        id_position(files, id) matches Some(k) ==> k < files.len(),
    decreases files.len(),
{
    if files.len() > 0 && files.last().0 != id {
        lemma_id_position(files.drop_last(), id);
    }
}

/// The import graph over file positions: for each import between two
/// known, different files, an edge from importer to imported, in
/// import order.
pub open spec fn import_graph_of(files: Seq<FileV>, imports: Seq<EdgeV>) -> Seq<Seq<usize>>
    decreases imports.len(),
{
    if imports.len() == 0 {
        Seq::new(files.len(), |i: int| Seq::<usize>::empty())
    } else {
        let g = import_graph_of(files, imports.drop_last());
        let e = imports.last();
        match (id_position(files, e.0), id_position(files, e.1)) {
            (Some(a), Some(b)) => if a != b {
                g.update(a as int, g[a as int].push(b as usize))
            } else {
                g
            },
            _ => g,
        }
    }
}

proof fn lemma_import_graph(files: Seq<FileV>, imports: Seq<EdgeV>)
    ensures
        import_graph_of(files, imports).len() == files.len(),
        forall|v: int, k: int|
            0 <= v < files.len() && 0 <= k < import_graph_of(files, imports)[v].len() ==> (#[trigger] import_graph_of(files, imports)[v][k]) < files.len(),
    decreases imports.len(),
{
    if imports.len() > 0 {
        lemma_import_graph(files, imports.drop_last());
        lemma_id_position(files, imports.last().0);
        lemma_id_position(files, imports.last().1);
    }
}

fn position_of(fv: &Vec<Vec<char>>, id: &[char], Ghost(files): Ghost<Seq<FileV>>) -> (r: Option<usize>)
    requires
        fv@.len() == files.len(),
        forall|i: int| 0 <= i < files.len() ==> #[trigger] fv@[i]@ == files[i].0,
    ensures
        match r {
            Some(k) => id_position(files, id@) == Some(k as nat),
            None => id_position(files, id@) is None,
        },
{
    let mut k = fv.len();
    assert(files.take(k as int) =~= files);
    while k > 0
        invariant
            k <= fv@.len(),
            fv@.len() == files.len(),
            forall|i: int| 0 <= i < files.len() ==> #[trigger] fv@[i]@ == files[i].0,
            id_position(files, id@) == id_position(files.take(k as int), id@),
        decreases k,
    {
        let ghost pre = files.take(k as int);
        assert(pre.last() == files[k - 1]);
        assert(pre.drop_last() =~= files.take(k - 1));
        if chars_eq(fv[k - 1].as_slice(), id) {
            return Some(k - 1);
        }
        k = k - 1;
    }
    None
}

/// The import graph over file positions; see [`import_graph_of`].
pub fn import_graph(files: &[FileFacts], imports: &[(String, String)]) -> (g: Vec<Vec<usize>>)
    ensures
        g@.map_values(|v: Vec<usize>| v@) == import_graph_of(file_views(files@), crate::text::pair_views(imports@)),
        crate::graph::scc::edges_in_range(g@),
        g@.len() == files@.len(),
{
    let ghost fs = file_views(files@);
    let ghost es = crate::text::pair_views(imports@);
    let mut ids: Vec<Vec<char>> = Vec::new();
    let mut g: Vec<Vec<usize>> = Vec::new();
    let mut i: usize = 0;
    while i < files.len()
        invariant
            i <= files@.len(),
            fs == file_views(files@),
            ids@.len() == i,
            g@.len() == i,
            forall|j: int| 0 <= j < i ==> #[trigger] ids@[j]@ == fs[j].0,
            forall|j: int| 0 <= j < i ==> #[trigger] g@[j]@ == Seq::<usize>::empty(),
        decreases files@.len() - i,
    {
        ids.push(chars_of(files[i].id.as_str()));
        g.push(Vec::new());
        i = i + 1;
    }
    assert(g@.map_values(|v: Vec<usize>| v@) =~= import_graph_of(fs, es.take(0)));
    let mut k: usize = 0;
    while k < imports.len()
        invariant
            k <= imports@.len(),
            fs == file_views(files@),
            es == crate::text::pair_views(imports@),
            ids@.len() == fs.len(),
            forall|j: int| 0 <= j < fs.len() ==> #[trigger] ids@[j]@ == fs[j].0,
            g@.len() == fs.len(),
            g@.map_values(|v: Vec<usize>| v@) == import_graph_of(fs, es.take(k as int)),
        decreases imports@.len() - k,
    {
        assert(es.take(k + 1).drop_last() =~= es.take(k as int));
        assert(es.take(k + 1).last() == (imports@[k as int].0@, imports@[k as int].1@));
        let src = chars_of(imports[k].0.as_str());
        let dst = chars_of(imports[k].1.as_str());
        let a = position_of(&ids, src.as_slice(), Ghost(fs));
        let b = position_of(&ids, dst.as_slice(), Ghost(fs));
        proof {
            lemma_id_position(fs, src@);
            lemma_id_position(fs, dst@);
        }
        match (a, b) {
            (Some(a), Some(b)) => {
                if a != b {
                    let ghost g0 = g@.map_values(|v: Vec<usize>| v@);
                    let mut row = Vec::new();
                    std::mem::swap(&mut row, &mut g[a]);
                    assert(row@ == g0[a as int]);
                    row.push(b);
                    g.set(a, row);
                    assert(g@.map_values(|v: Vec<usize>| v@) =~= g0.update(a as int, g0[a as int].push(b)));
                }
            },
            _ => {},
        }
        k = k + 1;
    }
    assert(es.take(es.len() as int) =~= es);
    proof {
        lemma_import_graph(fs, es);
        assert forall|v: int, j: int| 0 <= v < g@.len() && 0 <= j < g@[v]@.len() implies (#[trigger] g@[v]@[j]) < g@.len() by {
            assert(g@.map_values(|v: Vec<usize>| v@)[v] == g@[v]@);
        }
    }
    g
}

/// The members of a cycle: its files' paths, in order.
pub open spec fn cycle_members(files: Seq<FileV>, c: Seq<usize>) -> Seq<Seq<char>> {
    sorted_payloads(c.map_values(|i: usize| (text_key(files[i as int].1), files[i as int].1)))
}

/// The text of an import-cycle finding.
pub open spec fn cycle_detail(members: Seq<Seq<char>>) -> Seq<char> {
    count_text(members.len()) + " files import each other in a cycle: "@ + crate::text::join(members, " \u{2192} "@)
        + ". None can be understood, tested or moved without the others."@
}

/// One finding for each component of more than one file, in order.
pub open spec fn cycle_findings_of(files: Seq<FileV>, cs: Seq<Seq<usize>>) -> Seq<FindingV>
    decreases cs.len(),
{
    if cs.len() == 0 {
        Seq::empty()
    } else {
        let rest = cycle_findings_of(files, cs.drop_last());
        let c = cs.last();
        if c.len() > 1 {
            let m = cycle_members(files, c);
            rest.push(("import_cycle"@, Severity::Warning, cycle_detail(m), m))
        } else {
            rest
        }
    }
}

/// The findings for components of the import graph: one per
/// component of more than one file, naming its files in order.
pub fn cycle_findings(files: &[FileFacts], components: &Vec<Vec<usize>>) -> (r: Vec<Finding>)
    requires
        forall|i: int, k: int|
            0 <= i < components@.len() && 0 <= k < components@[i]@.len() ==> (#[trigger] components@[i]@[k]) < files@.len(),
    ensures
        finding_views(r@) == cycle_findings_of(file_views(files@), components@.map_values(|c: Vec<usize>| c@)),
{
    let ghost fs = file_views(files@);
    let ghost cs = components@.map_values(|c: Vec<usize>| c@);
    let mut r: Vec<Finding> = Vec::new();
    let mut i: usize = 0;
    while i < components.len()
        invariant
            i <= components@.len(),
            fs == file_views(files@),
            cs == components@.map_values(|c: Vec<usize>| c@),
            forall|i: int, k: int|
                0 <= i < components@.len() && 0 <= k < components@[i]@.len() ==> (#[trigger] components@[i]@[k]) < files@.len(),
            finding_views(r@) == cycle_findings_of(fs, cs.take(i as int)),
        decreases components@.len() - i,
    {
        assert(cs.take(i + 1).drop_last() =~= cs.take(i as int));
        assert(cs.take(i + 1).last() == components@[i as int]@);
        let c = &components[i];
        if c.len() > 1 {
            let ghost entries_v = c@.map_values(|x: usize| (text_key(fs[x as int].1), fs[x as int].1));
            let mut entries: Vec<(Vec<u64>, Vec<char>)> = Vec::new();
            let mut j: usize = 0;
            while j < c.len()
                invariant
                    j <= c@.len(),
                    fs == file_views(files@),
                    forall|k: int| 0 <= k < c@.len() ==> (#[trigger] c@[k]) < files@.len(),
                    entries_v == c@.map_values(|x: usize| (text_key(fs[x as int].1), fs[x as int].1)),
                    map_payload(keyed(entries@), |v: Vec<char>| v@) == entries_v.take(j as int),
                decreases c@.len() - j,
            {
                let x = c[j];
                let fqn = chars_of(files[x].fqn.as_str());
                let key = crate::sort::text_key_of(fqn.as_slice());
                let ghost e0 = entries@;
                assert(fs[x as int].1 == files@[x as int].fqn@);
                assert(entries_v[j as int] == (text_key(fs[x as int].1), fs[x as int].1));
                entries.push((key, fqn));
                assert(map_payload(keyed(entries@), |v: Vec<char>| v@) =~= map_payload(keyed(e0), |v: Vec<char>| v@).push(entries_v[j as int]));
                assert(entries_v.take(j + 1) =~= entries_v.take(j as int).push(entries_v[j as int]));
                j = j + 1;
            }
            assert(entries_v.take(entries_v.len() as int) =~= entries_v);
            let ghost ke = keyed(entries@);
            let sorted = sort_by_key(entries);
            proof {
                lemma_stable_sort_map_payload(ke, |v: Vec<char>| v@);
            }
            let members = payload_strings(sorted, Ghost(entries_v));
            let mut mc: Vec<Vec<char>> = Vec::new();
            let mut q: usize = 0;
            while q < members.len()
                invariant
                    q <= members@.len(),
                    char_views(mc@) == views(members@).take(q as int),
                decreases members@.len() - q,
            {
                let ghost m0 = char_views(mc@);
                mc.push(chars_of(members[q].as_str()));
                assert(char_views(mc@) =~= m0.push(members@[q as int]@));
                assert(views(members@).take(q + 1) =~= views(members@).take(q as int).push(members@[q as int]@));
                q = q + 1;
            }
            assert(views(members@).take(members@.len() as int) =~= views(members@));
            let arrow: Vec<char> = chars_of(" \u{2192} ");
            let joined = crate::text::join_chars(&mc, arrow.as_slice());
            let mut detail = count_chars(members.len());
            append_str(&mut detail, " files import each other in a cycle: ");
            append_chars(&mut detail, joined.as_slice());
            append_str(&mut detail, ". None can be understood, tested or moved without the others.");
            let ghost m = cycle_members(fs, c@);
            assert(views(members@) == m);
            assert(detail@ =~= cycle_detail(m));
            let ghost r0 = finding_views(r@);
            r.push(Finding { kind: "import_cycle", severity: Severity::Warning, detail: string_of_vec(&detail), nodes: members });
            assert(finding_views(r@) =~= r0.push(("import_cycle"@, Severity::Warning, cycle_detail(m), m)));
        }
        i = i + 1;
    }
    assert(cs.take(cs.len() as int) =~= cs);
    r
}

/// The cycle findings over a listing of exactly the strongly connected
/// components of the import graph, sinks first: a cycle comes after
/// every cycle it imports from.
pub open spec fn cycle_part(files: Seq<FileV>, imports: Seq<EdgeV>, r: Seq<FindingV>) -> bool {
    exists|cs: Seq<Seq<usize>>|
        crate::graph::reach::exact_sccs(import_graph_of(files, imports), cs)
            && crate::graph::reach::sinks_first(import_graph_of(files, imports), cs) && r == cycle_findings_of(files, cs)
}

/// Import cycles: files that need each other, directly or through a
/// chain. One finding per strongly connected component of more than
/// one file of the import graph (see [`import_graph`]), found with
/// [`crate::graph::scc::strongly_connected`].
pub fn import_cycles(files: &[FileFacts], imports: &[(String, String)]) -> (r: Vec<Finding>)
    ensures
        cycle_part(file_views(files@), crate::text::pair_views(imports@), finding_views(r@)),
{
    let g = import_graph(files, imports);
    let comps = crate::graph::scc::strongly_connected(g.as_slice());
    let ghost cs = comps@.map_values(|c: Vec<usize>| c@);
    assert forall|i: int, k: int|
        0 <= i < comps@.len() && 0 <= k < comps@[i]@.len() implies (#[trigger] comps@[i]@[k]) < files@.len() by {
        assert(cs[i] == comps@[i]@);
        assert(cs[i][k] < g@.len());
    }
    let r = cycle_findings(files, &comps);
    assert(crate::graph::reach::graph_of(g@) == import_graph_of(file_views(files@), crate::text::pair_views(imports@)));
    assert(crate::graph::reach::exact_sccs(import_graph_of(file_views(files@), crate::text::pair_views(imports@)), cs));
    assert(crate::graph::reach::sinks_first(import_graph_of(file_views(files@), crate::text::pair_views(imports@)), cs));
    r
}

/// The declaration a project's layer findings are drawn from.
pub enum Declaration {
    /// The project has none.
    Absent,
    /// Reading it failed when the project was indexed; why.
    Unreadable(String),
    /// It is stored, but is no longer valid TOML.
    Unparsable,
    /// It reads as these declarations, not yet validated.
    Parsed(LayersFile),
}

/// The finding for a declaration that could not be read.
pub open spec fn unreadable_finding(reason: Seq<char>) -> FindingV {
    (
        "layers_file_unreadable"@,
        Severity::Warning,
        "atlas.layers.toml could not be read, so no layer rule was checked: "@ + reason,
        seq!["atlas.layers.toml"@],
    )
}

/// The finding for a stored declaration that no longer parses.
pub open spec fn stale_finding() -> FindingV {
    (
        "layers_file_unreadable"@,
        Severity::Warning,
        "atlas.layers.toml no longer parses; reindex the project"@,
        seq!["atlas.layers.toml"@],
    )
}

/// The finding for a declaration whose pattern cannot be used.
pub open spec fn unusable_finding(e: LayersFault) -> FindingV {
    (
        "layers_file_unreadable"@,
        Severity::Warning,
        "atlas.layers.toml declares a pattern that cannot be used: "@ + layers_message(e),
        seq!["atlas.layers.toml"@],
    )
}

/// The decimal rendering of a signed number.
pub open spec fn signed_text(x: int) -> Seq<char> {
    if x < 0 {
        seq!['-'] + decimal((-x) as nat)
    } else {
        decimal(x as nat)
    }
}

/// One violation, as the finding names it.
pub open spec fn violation_text(v: ViolationV) -> Seq<char> {
    v.0 + match v.4 {
        Some(l) => seq![':'] + signed_text(l as int),
        None => Seq::empty(),
    } + " ("@ + v.1 + ") imports "@ + v.2 + " ("@ + v.3 + ")"@
}

/// The text of the layer-violation finding: how many, and the first
/// three.
pub open spec fn violation_detail(vs: Seq<ViolationV>) -> Seq<char> {
    let shown = if vs.len() > 3 { vs.take(3) } else { vs };
    count_text(vs.len()) + " imports cross a boundary atlas.layers.toml declares closed: "@
        + crate::text::join(shown.map_values(|v: ViolationV| violation_text(v)), "; "@) + (if vs.len() > 3 {
        ", \u{2026}"@
    } else {
        Seq::empty()
    }) + ". This is measured against the project's own declaration, not inferred."@
}

/// `s` with each run of equal neighbours kept once, as `Vec::dedup`.
pub open spec fn dedup_runs(s: Seq<Seq<char>>) -> Seq<Seq<char>>
    decreases s.len(),
{
    if s.len() == 0 {
        s
    } else {
        let d = dedup_runs(s.drop_last());
        if d.len() > 0 && d.last() == s.last() {
            d
        } else {
            d.push(s.last())
        }
    }
}

/// The names of the layers no file matched, in order.
pub open spec fn empty_layers(fpl: Seq<(Seq<char>, nat)>) -> Seq<Seq<char>>
    decreases fpl.len(),
{
    if fpl.len() == 0 {
        Seq::empty()
    } else {
        let rest = empty_layers(fpl.drop_last());
        if fpl.last().1 == 0 {
            rest.push(fpl.last().0)
        } else {
            rest
        }
    }
}

/// The per-layer counts of a report, as values.
pub open spec fn layer_counts_of(r: LayerReport) -> Seq<(Seq<char>, nat)> {
    r.files_per_layer@.map_values(|e: (String, usize)| (e.0@, e.1 as nat))
}

/// The text of the incomplete-coverage notice.
pub open spec fn coverage_detail(c: Coverage, empty: Seq<Seq<char>>) -> Seq<char> {
    "The layer check saw "@ + count_text(c.files_classified as nat) + " of "@ + count_text(
        (c.files_classified + c.files_unclassified) as nat,
    ) + " code files and "@ + count_text(c.imports_checked as nat) + " imports; "@ + count_text(
        c.files_unclassified as nat,
    ) + " files belong to no declared layer and "@ + count_text(c.imports_unclassified as nat)
        + " imports point at one of them, so they were not checked in either direction. An absence of violations is not proof of compliance."@
        + if empty.len() == 0 {
        Seq::empty()
    } else {
        " Layers matching no file at all: "@ + crate::text::join(empty, ", "@) + "."@
    }
}

/// The notice a report needs, if its check did not see everything.
pub open spec fn coverage_notice_of(r: LayerReport) -> Option<FindingV> {
    if r.coverage.files_unclassified == 0 && r.coverage.imports_unclassified == 0 {
        None
    } else {
        Some(
            (
                "layer_check_incomplete"@,
                Severity::Info,
                coverage_detail(r.coverage, empty_layers(layer_counts_of(r))),
                Seq::empty(),
            ),
        )
    }
}

fn push_count(v: &mut Vec<char>, n: usize)
    ensures
        final(v)@ == old(v)@ + count_text(n as nat),
{
    let c = count_chars(n);
    append_chars(v, c.as_slice());
}

/// Says how much of the project the layer check could see, when it
/// did not see everything: an empty result from a check that saw half
/// the project is not a clean bill of health. Layers matching no file
/// are named.
pub fn coverage_notice(report: &LayerReport) -> (r: Option<Finding>)
    requires
        report.coverage.files_classified + report.coverage.files_unclassified <= usize::MAX,
    ensures
        match r {
            Some(f) => coverage_notice_of(*report) == Some(f@),
            None => coverage_notice_of(*report) is None,
        },
{
    if report.coverage.is_complete() {
        return None;
    }
    let ghost fpl = layer_counts_of(*report);
    let mut empty: Vec<Vec<char>> = Vec::new();
    let mut i: usize = 0;
    while i < report.files_per_layer.len()
        invariant
            i <= report.files_per_layer@.len(),
            fpl == layer_counts_of(*report),
            char_views(empty@) == empty_layers(fpl.take(i as int)),
        decreases report.files_per_layer@.len() - i,
    {
        assert(fpl.take(i + 1).drop_last() =~= fpl.take(i as int));
        assert(fpl.take(i + 1).last() == (report.files_per_layer@[i as int].0@, report.files_per_layer@[i as int].1 as nat));
        if report.files_per_layer[i].1 == 0 {
            let ghost e0 = char_views(empty@);
            empty.push(chars_of(report.files_per_layer[i].0.as_str()));
            assert(char_views(empty@) =~= e0.push(report.files_per_layer@[i as int].0@));
        }
        i = i + 1;
    }
    assert(fpl.take(fpl.len() as int) =~= fpl);
    let c = report.coverage;
    let mut d: Vec<char> = Vec::new();
    append_str(&mut d, "The layer check saw ");
    push_count(&mut d, c.files_classified);
    append_str(&mut d, " of ");
    push_count(&mut d, c.files_classified + c.files_unclassified);
    append_str(&mut d, " code files and ");
    push_count(&mut d, c.imports_checked);
    append_str(&mut d, " imports; ");
    push_count(&mut d, c.files_unclassified);
    append_str(&mut d, " files belong to no declared layer and ");
    push_count(&mut d, c.imports_unclassified);
    append_str(&mut d, " imports point at one of them, so they were not checked in either direction. An absence of violations is not proof of compliance.");
    if empty.len() > 0 {
        append_str(&mut d, " Layers matching no file at all: ");
        let sep = chars_of(", ");
        let joined = crate::text::join_chars(&empty, sep.as_slice());
        append_chars(&mut d, joined.as_slice());
        append_str(&mut d, ".");
    }
    assert(d@ =~= coverage_detail(c, empty_layers(fpl)));
    let f = Finding { kind: "layer_check_incomplete", severity: Severity::Info, detail: string_of_vec(&d), nodes: Vec::new() };
    assert(views(f.nodes@) =~= Seq::<Seq<char>>::empty());
    Some(f)
}

fn push_signed(v: &mut Vec<char>, x: i64)
    ensures
        final(v)@ == old(v)@ + signed_text(x as int),
{
    if x < 0 {
        v.push('-');
        let m: u64 = (-(x as i128)) as u64;
        let c = decimal_chars(m);
        append_chars(v, c.as_slice());
    } else {
        let c = decimal_chars(x as u64);
        append_chars(v, c.as_slice());
    }
}

fn violation_chars(v: &Violation) -> (r: Vec<char>)
    ensures
        r@ == violation_text(v@),
{
    let mut r = chars_of(v.from_file.as_str());
    match v.line {
        Some(l) => {
            r.push(':');
            push_signed(&mut r, l);
        },
        None => {},
    }
    append_str(&mut r, " (");
    append_str(&mut r, v.from_layer.as_str());
    append_str(&mut r, ") imports ");
    append_str(&mut r, v.to_file.as_str());
    append_str(&mut r, " (");
    append_str(&mut r, v.to_layer.as_str());
    append_str(&mut r, ")");
    assert(r@ =~= violation_text(v@));
    r
}

/// The finding a report's violations make, if there are any.
pub open spec fn violation_finding_of(vs: Seq<ViolationV>) -> FindingV {
    (
        "layer_violation"@,
        Severity::Error,
        violation_detail(vs),
        dedup_runs(vs.map_values(|v: ViolationV| v.0)),
    )
}

fn violation_finding(vs: &Vec<Violation>) -> (f: Finding)
    requires
        vs@.len() > 0,
    ensures
        f@ == violation_finding_of(vs@.map_values(|v: Violation| v@)),
{
    let ghost vv = vs@.map_values(|v: Violation| v@);
    // the importing files, each run once
    let mut nodes: Vec<String> = Vec::new();
    let mut last: Vec<char> = Vec::new();
    let mut i: usize = 0;
    while i < vs.len()
        invariant
            i <= vs@.len(),
            vv == vs@.map_values(|v: Violation| v@),
            views(nodes@) == dedup_runs(vv.take(i as int).map_values(|v: ViolationV| v.0)),
            nodes@.len() > 0 ==> last@ == views(nodes@).last(),
        decreases vs@.len() - i,
    {
        let ghost pre = vv.take(i + 1).map_values(|v: ViolationV| v.0);
        assert(pre.drop_last() =~= vv.take(i as int).map_values(|v: ViolationV| v.0));
        assert(pre.last() == vs@[i as int].from_file@);
        let cur = chars_of(vs[i].from_file.as_str());
        let ghost n0 = views(nodes@);
        if nodes.len() > 0 && chars_eq(last.as_slice(), cur.as_slice()) {
        } else {
            nodes.push(vs[i].from_file.clone());
            assert(views(nodes@) =~= n0.push(cur@));
            last = cur;
        }
        i = i + 1;
    }
    assert(vv.take(vv.len() as int) =~= vv);
    // the first three, named
    let shown: usize = if vs.len() > 3 { 3 } else { vs.len() };
    let mut texts: Vec<Vec<char>> = Vec::new();
    let mut k: usize = 0;
    while k < shown
        invariant
            k <= shown <= vs@.len(),
            vv == vs@.map_values(|v: Violation| v@),
            char_views(texts@) == vv.take(k as int).map_values(|v: ViolationV| violation_text(v)),
        decreases shown - k,
    {
        let ghost t0 = char_views(texts@);
        texts.push(violation_chars(&vs[k]));
        assert(char_views(texts@) =~= t0.push(violation_text(vv[k as int])));
        assert(vv.take(k + 1).map_values(|v: ViolationV| violation_text(v)) =~= vv.take(k as int).map_values(
            |v: ViolationV| violation_text(v),
        ).push(violation_text(vv[k as int])));
        k = k + 1;
    }
    let sep = chars_of("; ");
    let worst = crate::text::join_chars(&texts, sep.as_slice());
    let mut d = count_chars(vs.len());
    append_str(&mut d, " imports cross a boundary atlas.layers.toml declares closed: ");
    append_chars(&mut d, worst.as_slice());
    if vs.len() > 3 {
        append_str(&mut d, ", \u{2026}");
    }
    append_str(&mut d, ". This is measured against the project's own declaration, not inferred.");
    proof {
        let shown_v = if vv.len() > 3 { vv.take(3) } else { vv };
        assert(shown_v =~= vv.take(shown as int));
        assert(d@ =~= violation_detail(vv));
    }
    Finding { kind: "layer_violation", severity: Severity::Error, detail: string_of_vec(&d), nodes }
}

/// What a report is worth saying: its violations, if any, as one
/// finding, then the coverage notice, if the check was incomplete.
pub open spec fn report_findings_of(r: LayerReport) -> Seq<FindingV> {
    let vs = r.violations@.map_values(|v: Violation| v@);
    (if vs.len() > 0 {
        seq![violation_finding_of(vs)]
    } else {
        Seq::empty()
    }) + match coverage_notice_of(r) {
        Some(f) => seq![f],
        None => Seq::empty(),
    }
}

/// The findings of one layer report; see [`report_findings_of`].
pub fn report_findings(report: &LayerReport) -> (r: Vec<Finding>)
    requires
        report.coverage.files_classified + report.coverage.files_unclassified <= usize::MAX,
    ensures
        finding_views(r@) == report_findings_of(*report),
{
    let mut r: Vec<Finding> = Vec::new();
    if report.violations.len() > 0 {
        r.push(violation_finding(&report.violations));
    }
    let ghost r0 = finding_views(r@);
    match coverage_notice(report) {
        Some(f) => {
            r.push(f);
        },
        None => {},
    }
    assert(finding_views(r@) =~= report_findings_of(*report));
    r
}

/// The (id, path) pairs of the source files, in order.
pub open spec fn code_files(files: Seq<FileV>) -> Seq<(Seq<char>, Seq<char>)>
    decreases files.len(),
{
    if files.len() == 0 {
        Seq::empty()
    } else {
        let rest = code_files(files.drop_last());
        let f = files.last();
        if code_path(f.1) {
            rest.push((f.0, f.1))
        } else {
            rest
        }
    }
}

fn one_finding(kind: &'static str, severity: Severity, detail: Vec<char>) -> (r: Vec<Finding>)
    ensures
        finding_views(r@) == seq![(kind@, severity, detail@, seq!["atlas.layers.toml"@])],
{
    let mut nodes: Vec<String> = Vec::new();
    nodes.push(string_of_vec(&chars_of("atlas.layers.toml")));
    assert(views(nodes@) =~= seq!["atlas.layers.toml"@]);
    let r = vec![Finding { kind, severity, detail: string_of_vec(&detail), nodes }];
    assert(finding_views(r@) =~= seq![(kind@, severity, detail@, seq!["atlas.layers.toml"@])]);
    r
}

/// The layer findings for a declaration.
pub open spec fn layer_part(files: Seq<FileV>, imports: Seq<crate::graph::layer_check::ImportV>, declared: Declaration, r: Seq<FindingV>) -> bool {
    match declared {
        Declaration::Absent => r.len() == 0,
        Declaration::Unreadable(reason) => r == seq![unreadable_finding(reason@)],
        Declaration::Unparsable => r == seq![stale_finding()],
        Declaration::Parsed(file) => if declaration_fault(file) is Some {
            r == seq![stale_finding()]
        } else if file.layers@.len() == 0 {
            r.len() == 0
        } else {
            match patterns_fault(layer_views(file), 0) {
                Some(e) => r == seq![unusable_finding(e)],
                None => exists|rep: LayerReport|
                    check_outcome(layer_views(file), code_files(files), imports, rep) && r == report_findings_of(rep),
            }
        },
    }
}

/// Findings from the project's own declared architecture; nothing is
/// inferred. No declaration, or one declaring no layer, gives nothing.
/// One that cannot be read, no longer parses or validates, or holds a
/// pattern that does not compile is itself the finding. Otherwise the
/// source files are checked against it, and the report's violations
/// and coverage are what is said.
pub fn layer_findings(
    files: &[FileFacts],
    imports: &[(String, String, Option<i64>)],
    declared: &Declaration,
) -> (r: Vec<Finding>)
    ensures
        layer_part(file_views(files@), import_views(imports@), *declared, finding_views(r@)),
{
    match declared {
        Declaration::Absent => Vec::new(),
        Declaration::Unreadable(reason) => {
            let mut d: Vec<char> = Vec::new();
            append_str(&mut d, "atlas.layers.toml could not be read, so no layer rule was checked: ");
            append_str(&mut d, reason.as_str());
            one_finding("layers_file_unreadable", Severity::Warning, d)
        },
        Declaration::Unparsable => one_finding(
            "layers_file_unreadable",
            Severity::Warning,
            chars_of("atlas.layers.toml no longer parses; reindex the project"),
        ),
        Declaration::Parsed(file) => {
            match file.validate() {
                Err(_) => {
                    return one_finding(
                        "layers_file_unreadable",
                        Severity::Warning,
                        chars_of("atlas.layers.toml no longer parses; reindex the project"),
                    );
                },
                Ok(()) => {},
            }
            if file.layers.len() == 0 {
                return Vec::new();
            }
            let rules = match LayerRules::compile(file) {
                Ok(rules) => rules,
                Err(e) => {
                    let mut d: Vec<char> = Vec::new();
                    append_str(&mut d, "atlas.layers.toml declares a pattern that cannot be used: ");
                    append_str(&mut d, e.message().as_str());
                    return one_finding("layers_file_unreadable", Severity::Warning, d);
                },
            };
            let ghost fv = file_views(files@);
            let mut paths: Vec<(String, String)> = Vec::new();
            let mut i: usize = 0;
            while i < files.len()
                invariant
                    i <= files@.len(),
                    fv == file_views(files@),
                    crate::text::pair_views(paths@) == code_files(fv.take(i as int)),
                    paths@.len() <= i,
                decreases files@.len() - i,
            {
                assert(fv.take(i + 1).drop_last() =~= fv.take(i as int));
                assert(fv.take(i + 1).last() == (files@[i as int].id@, files@[i as int].fqn@, files@[i as int].lines as int));
                if is_code_path(files[i].fqn.as_str()) {
                    let ghost p0 = crate::text::pair_views(paths@);
                    paths.push((files[i].id.clone(), files[i].fqn.clone()));
                    assert(crate::text::pair_views(paths@) =~= p0.push((files@[i as int].id@, files@[i as int].fqn@)));
                }
                i = i + 1;
            }
            assert(fv.take(fv.len() as int) =~= fv);
            let report = check(&rules, paths.as_slice(), imports);
            assert(report.coverage.files_classified + report.coverage.files_unclassified == paths@.len());
            let r = report_findings(&report);
            r
        },
    }
}

/// Where a severity sorts: most severe first.
pub open spec fn severity_rank(s: Severity) -> u64 {
    match s {
        Severity::Error => 0,
        Severity::Warning => 1,
        Severity::Info => 2,
    }
}

/// Findings in order of severity, most severe first, keeping the order
/// among equals.
pub open spec fn by_severity(fs: Seq<FindingV>) -> Seq<FindingV> {
    sorted_payloads(fs.map_values(|f: FindingV| (seq![severity_rank(f.1)], f)))
}

/// The importer and imported ends of imports with lines.
pub open spec fn import_ends(imports: Seq<crate::graph::layer_check::ImportV>) -> Seq<EdgeV> {
    imports.map_values(|i: crate::graph::layer_check::ImportV| (i.0, i.1))
}

fn copy_finding(f: &Finding) -> (r: Finding)
    ensures
        r@ == f@,
{
    let mut nodes: Vec<String> = Vec::new();
    let mut i: usize = 0;
    while i < f.nodes.len()
        invariant
            i <= f.nodes@.len(),
            views(nodes@) == views(f.nodes@).take(i as int),
        decreases f.nodes@.len() - i,
    {
        let ghost n0 = views(nodes@);
        nodes.push(f.nodes[i].clone());
        assert(views(nodes@) =~= n0.push(f.nodes@[i as int]@));
        assert(views(f.nodes@).take(i + 1) =~= views(f.nodes@).take(i as int).push(f.nodes@[i as int]@));
        i = i + 1;
    }
    assert(views(f.nodes@).take(f.nodes@.len() as int) =~= views(f.nodes@));
    Finding { kind: f.kind, severity: f.severity, detail: f.detail.clone(), nodes }
}

fn rank_of(s: Severity) -> (r: u64)
    ensures
        r == severity_rank(s),
{
    match s {
        Severity::Error => 0,
        Severity::Warning => 1,
        Severity::Info => 2,
    }
}

fn push_ranked(entries: &mut Vec<(Vec<u64>, Finding)>, v: &Vec<Finding>)
    ensures
        map_payload(keyed(final(entries)@), |x: Finding| x@) == map_payload(keyed(old(entries)@), |x: Finding| x@)
            + finding_views(v@).map_values(|x: FindingV| (seq![severity_rank(x.1)], x)),
{
    let ghost e0 = map_payload(keyed(entries@), |x: Finding| x@);
    let ghost ranked = finding_views(v@).map_values(|x: FindingV| (seq![severity_rank(x.1)], x));
    let mut i: usize = 0;
    while i < v.len()
        invariant
            i <= v@.len(),
            ranked == finding_views(v@).map_values(|x: FindingV| (seq![severity_rank(x.1)], x)),
            map_payload(keyed(entries@), |x: Finding| x@) == e0 + ranked.take(i as int),
        decreases v@.len() - i,
    {
        let ghost m0 = map_payload(keyed(entries@), |x: Finding| x@);
        let f = copy_finding(&v[i]);
        let key: Vec<u64> = vec![rank_of(f.severity)];
        assert(key@ =~= seq![severity_rank(v@[i as int]@.1)]);
        entries.push((key, f));
        assert(map_payload(keyed(entries@), |x: Finding| x@) =~= m0.push(ranked[i as int]));
        assert(ranked.take(i + 1) =~= ranked.take(i as int).push(ranked[i as int]));
        i = i + 1;
    }
    assert(ranked.take(v@.len() as int) =~= ranked);
}

/// Everything worth looking at in one project, drawn from its files,
/// its resolved imports (with lines), how many imports did not
/// resolve, and its layer declaration: the layer findings, import
/// cycles, unreferenced files, hubs, large files and undocumented
/// directories, most severe first.
pub fn analyse(
    files: &[FileFacts],
    imports: &[(String, String, Option<i64>)],
    unresolved: usize,
    declared: &Declaration,
) -> (r: Findings)
    ensures
        r.evidence.files == files@.len(),
        r.evidence.resolved_imports == imports@.len(),
        r.evidence.unresolved_imports == unresolved,
        ({
            let fv = file_views(files@);
            let iv = import_views(imports@);
            let ev = import_ends(iv);
            exists|a: Seq<FindingV>, b: Seq<FindingV>, c: Seq<FindingV>, d: Seq<FindingV>, e: Seq<FindingV>, f: Seq<FindingV>|
                #![trigger layer_part(fv, iv, *declared, a), cycle_part(fv, ev, b), orphan_part(fv, ev, c), hub_part(fv, ev, d), large_part(fv, e), undocumented_part(fv, f)]
                layer_part(fv, iv, *declared, a) && cycle_part(fv, ev, b) && orphan_part(fv, ev, c) && hub_part(fv, ev, d)
                    && large_part(fv, e) && undocumented_part(fv, f) && finding_views(r.findings@) == by_severity(
                    a + b + c + d + e + f,
                )
        }),
{
    let ghost iv = import_views(imports@);
    let mut pairs: Vec<(String, String)> = Vec::new();
    let mut i: usize = 0;
    while i < imports.len()
        invariant
            i <= imports@.len(),
            iv == import_views(imports@),
            crate::text::pair_views(pairs@) == import_ends(iv).take(i as int),
        decreases imports@.len() - i,
    {
        let ghost p0 = crate::text::pair_views(pairs@);
        pairs.push((imports[i].0.clone(), imports[i].1.clone()));
        assert(crate::text::pair_views(pairs@) =~= p0.push((imports@[i as int].0@, imports@[i as int].1@)));
        assert(import_ends(iv).take(i + 1) =~= import_ends(iv).take(i as int).push((imports@[i as int].0@, imports@[i as int].1@)));
        i = i + 1;
    }
    assert(import_ends(iv).take(imports@.len() as int) =~= import_ends(iv));
    let evidence = Evidence { files: files.len(), resolved_imports: imports.len(), unresolved_imports: unresolved };
    let a = layer_findings(files, imports, declared);
    let b = import_cycles(files, pairs.as_slice());
    let c = orphans(files, pairs.as_slice());
    let d = hubs(files, pairs.as_slice());
    let e = large_files(files);
    let f = undocumented_directories(files);
    let ghost all = finding_views(a@) + finding_views(b@) + finding_views(c@) + finding_views(d@) + finding_views(e@)
        + finding_views(f@);
    let mut entries: Vec<(Vec<u64>, Finding)> = Vec::new();
    push_ranked(&mut entries, &a);
    push_ranked(&mut entries, &b);
    push_ranked(&mut entries, &c);
    push_ranked(&mut entries, &d);
    push_ranked(&mut entries, &e);
    push_ranked(&mut entries, &f);
    let ghost ranked_all = all.map_values(|x: FindingV| (seq![severity_rank(x.1)], x));
    assert(map_payload(keyed(entries@), |x: Finding| x@) =~= ranked_all);
    let ghost ke = keyed(entries@);
    let sorted = sort_by_key(entries);
    proof {
        lemma_stable_sort_map_payload(ke, |x: Finding| x@);
    }
    let ghost ss = stable_sort(ranked_all);
    assert(map_payload(keyed(sorted@), |x: Finding| x@) == ss);
    let mut findings: Vec<Finding> = Vec::new();
    let mut k: usize = 0;
    while k < sorted.len()
        invariant
            k <= sorted@.len(),
            map_payload(keyed(sorted@), |x: Finding| x@) == ss,
            finding_views(findings@) == ss.take(k as int).map_values(|e: (Seq<u64>, FindingV)| e.1),
        decreases sorted@.len() - k,
    {
        let ghost f0 = finding_views(findings@);
        assert(map_payload(keyed(sorted@), |x: Finding| x@)[k as int].1 == sorted@[k as int].1@);
        findings.push(copy_finding(&sorted[k].1));
        assert(finding_views(findings@) =~= f0.push(ss[k as int].1));
        assert(ss.take(k + 1).map_values(|e: (Seq<u64>, FindingV)| e.1) =~= ss.take(k as int).map_values(
            |e: (Seq<u64>, FindingV)| e.1,
        ).push(ss[k as int].1));
        k = k + 1;
    }
    assert(ss.take(ss.len() as int) =~= ss);
    proof {
        let fv = file_views(files@);
        let ev = import_ends(iv);
        assert(crate::text::pair_views(pairs@) == ev);
        assert(layer_part(fv, iv, *declared, finding_views(a@)));
        assert(cycle_part(fv, ev, finding_views(b@)));
        assert(orphan_part(fv, ev, finding_views(c@)));
        assert(hub_part(fv, ev, finding_views(d@)));
        assert(large_part(fv, finding_views(e@)));
        assert(undocumented_part(fv, finding_views(f@)));
        assert(finding_views(findings@) == by_severity(all));
    }
    Findings { findings, evidence }
}

} // verus!
