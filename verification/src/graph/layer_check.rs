//! Checking a project against the architecture it declared.
//!
//! The only finding reported at error severity: a layer violation is
//! measured against a rule the project wrote down. A file no layer
//! claims is left unclassified and never reported, and the report
//! carries its own coverage so that silence is not read as compliance.

use vstd::prelude::*;
use crate::graph::globs::{glob_compile_error, glob_refusal, glob_set_error, glob_set_is_match, glob_set_matches, glob_set_refusal};
use crate::graph::impact::lookup_last;
use crate::graph::layers::{LayerDecl, LayerV, LayersError, LayersFault, LayersFile, layer_views, string_views};
use crate::sort::{key_lt, keyed, lemma_stable_sort_map_payload, key_less, map_payload, push_text_key, sort_by_key, stable_sort, text_key, text_key_of};
use crate::text::{chars_eq, chars_of, char_views, join, join_chars, opt_view, pair_char_views, pair_views, slice_chars, string_of_vec, string_pairs_chars, views};

verus! {

/// How much of the project the layer check could see.
#[derive(Clone, Copy, Debug)]
pub struct Coverage {
    pub files_classified: usize,
    pub files_unclassified: usize,
    /// Imports between two classified files: the only ones a violation
    /// can be found in.
    pub imports_checked: usize,
    /// Imports touching a file no layer claims.
    pub imports_unclassified: usize,
}

impl Coverage {
    /// Whether the check saw everything, so that an empty result means
    /// compliance.
    pub fn is_complete(&self) -> (r: bool)
        ensures
            r == (self.files_unclassified == 0 && self.imports_unclassified == 0),
    {
        self.files_unclassified == 0 && self.imports_unclassified == 0
    }
}

/// One import crossing a boundary the project declared closed.
#[derive(Clone, Debug)]
pub struct Violation {
    pub from_file: String,
    pub from_layer: String,
    pub to_file: String,
    pub to_layer: String,
    pub line: Option<i64>,
}

/// A violation as a value.
pub type ViolationV = (Seq<char>, Seq<char>, Seq<char>, Seq<char>, Option<i64>);

impl View for Violation {
    type V = ViolationV;

    open spec fn view(&self) -> ViolationV {
        (self.from_file@, self.from_layer@, self.to_file@, self.to_layer@, self.line)
    }
}

/// The outcome of checking one project.
#[derive(Clone, Debug)]
pub struct LayerReport {
    pub violations: Vec<Violation>,
    pub coverage: Coverage,
    /// Files per declared layer, by layer name in order, every declared
    /// layer present, so a layer matching nothing is visible.
    pub files_per_layer: Vec<(String, usize)>,
}

/// A declaration whose patterns all compile, ready to classify files.
pub struct LayerRules {
    layers: Vec<LayerDecl>,
}

/// Whether every pattern of every layer parses, and each layer's
/// patterns build into a set.
pub open spec fn patterns_compile(ls: Seq<LayerV>) -> bool {
    &&& forall|j: int, k: int|
        0 <= j < ls.len() && 0 <= k < ls[j].1.len() ==> (#[trigger] glob_refusal(ls[j].1[k])) is None
    &&& forall|j: int| 0 <= j < ls.len() ==> (#[trigger] glob_set_refusal(ls[j].1)) is None
}

impl View for LayerRules {
    type V = Seq<LayerV>;

    closed spec fn view(&self) -> Seq<LayerV> {
        self.layers@.map_values(|l: LayerDecl| l@)
    }
}

impl LayerRules {
    #[verifier::type_invariant]
    closed spec fn compiled(self) -> bool {
        patterns_compile(self.layers@.map_values(|l: LayerDecl| l@))
    }
}

/// The first pattern of one layer, from index `k` on, that does not
/// compile.
pub open spec fn pattern_fault(name: Seq<char>, pats: Seq<Seq<char>>, k: nat) -> Option<LayersFault>
    decreases pats.len() - k,
{
    if k >= pats.len() {
        None
    } else {
        match glob_refusal(pats[k as int]) {
            Some(reason) => Some(LayersFault::InvalidPattern(name, pats[k as int], reason)),
            None => pattern_fault(name, pats, k + 1),
        }
    }
}

/// The first layer, from index `j` on, whose patterns do not compile:
/// its first pattern that does not parse, or else, when its patterns
/// do not build into a set, all of them.
pub open spec fn patterns_fault(ls: Seq<LayerV>, j: nat) -> Option<LayersFault>
    decreases ls.len() - j,
{
    if j >= ls.len() {
        None
    } else {
        match pattern_fault(ls[j as int].0, ls[j as int].1, 0) {
            Some(f) => Some(f),
            None => match glob_set_refusal(ls[j as int].1) {
                Some(reason) => Some(LayersFault::InvalidPattern(ls[j as int].0, join(ls[j as int].1, ", "@), reason)),
                None => patterns_fault(ls, j + 1),
            },
        }
    }
}

proof fn lemma_no_pattern_fault(ls: Seq<LayerV>, j: nat, k: nat)
    requires
        j < ls.len(),
        pattern_fault(ls[j as int].0, ls[j as int].1, k) is None,
    ensures
        forall|m: int| k <= m < ls[j as int].1.len() ==> (#[trigger] glob_refusal(ls[j as int].1[m])) is None,
    decreases ls[j as int].1.len() - k,
{
    if k < ls[j as int].1.len() {
        lemma_no_pattern_fault(ls, j, k + 1);
    }
}

/// Whether a layer claims a path: the set of its patterns matches it.
pub open spec fn layer_matches(l: LayerV, path: Seq<char>) -> bool {
    glob_set_matches(l.1, path)
}

/// The first layer from index `i` on claiming `path`.
pub open spec fn first_layer(ls: Seq<LayerV>, path: Seq<char>, i: nat) -> Option<Seq<char>>
    decreases ls.len() - i,
{
    if i >= ls.len() {
        None
    } else if layer_matches(ls[i as int], path) {
        Some(ls[i as int].0)
    } else {
        first_layer(ls, path, i + 1)
    }
}

/// The layer a file belongs to: the first declared layer claiming it.
pub open spec fn layer_for(ls: Seq<LayerV>, path: Seq<char>) -> Option<Seq<char>> {
    first_layer(ls, path, 0)
}

/// What a layer may import from: the dependencies of the last layer
/// declared under that name.
pub open spec fn allowed_for(ls: Seq<LayerV>, name: Seq<char>) -> Option<Seq<Seq<char>>>
    decreases ls.len(),
{
    if ls.len() == 0 {
        None
    } else if ls.last().0 == name {
        Some(ls.last().2)
    } else {
        allowed_for(ls.drop_last(), name)
    }
}

/// A layer may always import from itself, and from what it declares.
pub open spec fn layer_permits(ls: Seq<LayerV>, from: Seq<char>, to: Seq<char>) -> bool {
    from == to || match allowed_for(ls, from) {
        Some(deps) => deps.contains(to),
        None => false,
    }
}

fn copy_strings(v: &Vec<String>) -> (r: Vec<String>)
    ensures
        string_views(r@) == string_views(v@),
{
    let mut r: Vec<String> = Vec::new();
    let mut i: usize = 0;
    while i < v.len()
        invariant
            i <= v@.len(),
            r@.len() == i,
            forall|j: int| 0 <= j < i ==> #[trigger] r@[j]@ == v@[j]@,
        decreases v@.len() - i,
    {
        r.push(v[i].clone());
        i = i + 1;
    }
    assert(string_views(r@) =~= string_views(v@));
    r
}

impl LayerRules {
    /// Compiles the patterns of a declaration.
    ///
    /// Refuses the first pattern that does not compile, naming its
    /// layer: a dropped pattern would let files silently leave their
    /// layer.
    pub fn compile(file: &LayersFile) -> (r: Result<LayerRules, LayersError>)
        ensures
            match r {
                Ok(rules) => patterns_fault(layer_views(*file), 0) is None && rules@ == layer_views(
                    *file,
                ),
                Err(e) => patterns_fault(layer_views(*file), 0) == Some(e@),
            },
    {
        let ghost ls = layer_views(*file);
        let mut layers: Vec<LayerDecl> = Vec::new();
        let mut j: usize = 0;
        while j < file.layers.len()
            invariant
                ls == layer_views(*file),
                j <= file.layers@.len(),
                layers@.len() == j,
                forall|m: int| 0 <= m < j ==> #[trigger] layers@[m]@ == ls[m],
                patterns_fault(ls, 0) == patterns_fault(ls, j as nat),
                forall|a: int, k: int|
                    0 <= a < j && 0 <= k < ls[a].1.len() ==> (#[trigger] glob_refusal(ls[a].1[k])) is None,
                forall|a: int| 0 <= a < j ==> (#[trigger] glob_set_refusal(ls[a].1)) is None,
            decreases file.layers@.len() - j,
        {
            let layer = &file.layers[j];
            assert(ls[j as int] == layer@);
            let mut k: usize = 0;
            while k < layer.paths.len()
                invariant
                    ls == layer_views(*file),
                    j < file.layers@.len(),
                    layer == file.layers@[j as int],
                    ls[j as int] == layer@,
                    k <= layer.paths@.len(),
                    patterns_fault(ls, 0) == patterns_fault(ls, j as nat),
                    pattern_fault(ls[j as int].0, ls[j as int].1, 0) == pattern_fault(
                        ls[j as int].0,
                        ls[j as int].1,
                        k as nat,
                    ),
                decreases layer.paths@.len() - k,
            {
                assert(ls[j as int].1[k as int] == layer.paths@[k as int]@);
                match glob_compile_error(layer.paths[k].as_str()) {
                    Some(reason) => {
                        return Err(
                            LayersError::InvalidPattern {
                                layer: layer.name.clone(),
                                pattern: layer.paths[k].clone(),
                                reason,
                            },
                        );
                    },
                    None => {},
                }
                k = k + 1;
            }
            proof {
                lemma_no_pattern_fault(ls, j as nat, 0);
                assert(views(layer.paths@) == ls[j as int].1);
                assert forall|k: int| 0 <= k < layer.paths@.len() implies (#[trigger] glob_refusal(layer.paths@[k]@)) is None by {
                    assert(ls[j as int].1[k] == layer.paths@[k]@);
                }
            }
            match glob_set_error(&layer.paths) {
                Some(reason) => {
                    let mut segs: Vec<Vec<char>> = Vec::new();
                    let mut q: usize = 0;
                    while q < layer.paths.len()
                        invariant
                            q <= layer.paths@.len(),
                            char_views(segs@) == views(layer.paths@).take(q as int),
                        decreases layer.paths@.len() - q,
                    {
                        let ghost s0 = char_views(segs@);
                        segs.push(chars_of(layer.paths[q].as_str()));
                        assert(char_views(segs@) =~= s0.push(layer.paths@[q as int]@));
                        assert(views(layer.paths@).take(q + 1) =~= views(layer.paths@).take(q as int).push(
                            layer.paths@[q as int]@,
                        ));
                        q = q + 1;
                    }
                    assert(views(layer.paths@).take(layer.paths@.len() as int) =~= views(layer.paths@));
                    let joined = join_chars(&segs, chars_of(", ").as_slice());
                    return Err(
                        LayersError::InvalidPattern {
                            layer: layer.name.clone(),
                            pattern: string_of_vec(&joined),
                            reason,
                        },
                    );
                },
                None => {},
            }
            layers.push(
                LayerDecl {
                    name: layer.name.clone(),
                    paths: copy_strings(&layer.paths),
                    depends_on: copy_strings(&layer.depends_on),
                },
            );
            j = j + 1;
        }
        let rules = LayerRules { layers };
        assert(rules@ =~= ls);
        Ok(rules)
    }

    /// The layer a file belongs to, or `None` if none claims it. The
    /// first declaration wins an overlap.
    pub fn layer_of(&self, path: &str) -> (r: Option<String>)
        ensures
            opt_view(r) == layer_for(self@, path@),
    {
        proof {
            use_type_invariant(self);
        }
        let ghost ls = self@;
        let mut i: usize = 0;
        while i < self.layers.len()
            invariant
                ls == self@,
                patterns_compile(ls),
                i <= self.layers@.len(),
                first_layer(ls, path@, 0) == first_layer(ls, path@, i as nat),
            decreases self.layers@.len() - i,
        {
            let layer = &self.layers[i];
            assert(ls[i as int] == layer@);
            assert(views(layer.paths@) == ls[i as int].1);
            assert forall|k: int| 0 <= k < layer.paths@.len() implies (#[trigger] glob_refusal(layer.paths@[k]@)) is None by {
                assert(ls[i as int].1[k] == layer.paths@[k]@);
            }
            if glob_set_is_match(&layer.paths, path) {
                assert(first_layer(ls, path@, i as nat) == Some(ls[i as int].0));
                let n = layer.name.clone();
                assert(n@ == ls[i as int].0);
                return Some(n);
            }
            assert(!layer_matches(ls[i as int], path@));
            i = i + 1;
        }
        None
    }

    /// Whether `from` may import from `to`.
    pub fn permits(&self, from: &str, to: &str) -> (r: bool)
        ensures
            r == layer_permits(self@, from@, to@),
    {
        let f = chars_of(from);
        let t = chars_of(to);
        if chars_eq(f.as_slice(), t.as_slice()) {
            return true;
        }
        let ghost ls = self@;
        let mut i = self.layers.len();
        assert(ls.take(ls.len() as int) =~= ls);
        while i > 0
            invariant
                ls == self@,
                f@ == from@,
                t@ == to@,
                from@ != to@,
                i <= self.layers@.len(),
                allowed_for(ls, from@) == allowed_for(ls.take(i as int), from@),
            decreases i,
        {
            let layer = &self.layers[i - 1];
            let ghost pre = ls.take(i as int);
            assert(pre.last() == layer@);
            assert(pre.drop_last() =~= ls.take(i - 1));
            let name = chars_of(layer.name.as_str());
            if chars_eq(name.as_slice(), f.as_slice()) {
                assert(allowed_for(pre, from@) == Some(string_views(layer.depends_on@)));
                assert(allowed_for(self@, from@) == Some(string_views(layer.depends_on@)));
                let mut k: usize = 0;
                while k < layer.depends_on.len()
                    invariant
                        t@ == to@,
                        allowed_for(self@, from@) == Some(string_views(layer.depends_on@)),
                        k <= layer.depends_on@.len(),
                        forall|m: int| 0 <= m < k ==> layer.depends_on@[m]@ != to@,
                    decreases layer.depends_on@.len() - k,
                {
                    let d = chars_of(layer.depends_on[k].as_str());
                    if chars_eq(d.as_slice(), t.as_slice()) {
                        assert(string_views(layer.depends_on@)[k as int] == to@);
                        return true;
                    }
                    k = k + 1;
                }
                assert(!string_views(layer.depends_on@).contains(to@)) by {
                    if string_views(layer.depends_on@).contains(to@) {
                        let m = choose|m: int| 0 <= m < layer.depends_on@.len() && string_views(layer.depends_on@)[m] == to@;
                        assert(layer.depends_on@[m]@ == to@);
                    }
                }
                return false;
            }
            assert(pre.last().0 != from@);
            i = i - 1;
        }
        assert(ls.take(0) =~= Seq::<LayerV>::empty());
        false
    }
}

} // verus!

verus! {

/// An import as a value: importer id, imported id, line.
pub type ImportV = (Seq<char>, Seq<char>, Option<i64>);

/// The views of imports.
pub open spec fn import_views(v: Seq<(String, String, Option<i64>)>) -> Seq<ImportV> {
    v.map_values(|i: (String, String, Option<i64>)| (i.0@, i.1@, i.2))
}

/// The layer of a file id: that of the last entry for the id whose
/// path a layer claims.
pub open spec fn id_layer(ls: Seq<LayerV>, files: Seq<(Seq<char>, Seq<char>)>, id: Seq<char>) -> Option<Seq<char>>
    decreases files.len(),
{
    if files.len() == 0 {
        None
    } else if files.last().0 == id && layer_for(ls, files.last().1) is Some {
        layer_for(ls, files.last().1)
    } else {
        id_layer(ls, files.drop_last(), id)
    }
}

/// The path recorded for an id, or nothing.
pub open spec fn path_or_empty(files: Seq<(Seq<char>, Seq<char>)>, id: Seq<char>) -> Seq<char> {
    match lookup_last(files, id) {
        Some(p) => p,
        None => Seq::empty(),
    }
}

/// The order of a line number: none first, then by value.
pub open spec fn line_key(line: Option<i64>) -> Seq<u64> {
    match line {
        None => seq![0u64],
        Some(x) => seq![1u64, (x as int + 0x8000_0000_0000_0000) as u64],
    }
}

/// Violations are ordered by importing file, line, then imported file.
pub open spec fn violation_key(v: ViolationV) -> Seq<u64> {
    text_key(v.0) + line_key(v.4) + text_key(v.2)
}

/// Whether both ends of an import are classified.
pub open spec fn import_classified(ls: Seq<LayerV>, files: Seq<(Seq<char>, Seq<char>)>, imp: ImportV) -> bool {
    id_layer(ls, files, imp.0) is Some && id_layer(ls, files, imp.1) is Some
}

/// The violations among `imports`, keyed, in import order.
pub open spec fn violations_found(ls: Seq<LayerV>, files: Seq<(Seq<char>, Seq<char>)>, imports: Seq<ImportV>) -> Seq<(Seq<u64>, ViolationV)>
    decreases imports.len(),
{
    if imports.len() == 0 {
        Seq::empty()
    } else {
        let rest = violations_found(ls, files, imports.drop_last());
        let imp = imports.last();
        if import_classified(ls, files, imp) {
            let f = id_layer(ls, files, imp.0).unwrap();
            let t = id_layer(ls, files, imp.1).unwrap();
            if layer_permits(ls, f, t) {
                rest
            } else {
                let v = (path_or_empty(files, imp.0), f, path_or_empty(files, imp.1), t, imp.2);
                rest.push((violation_key(v), v))
            }
        } else {
            rest
        }
    }
}

/// How many imports have both ends classified.
pub open spec fn imports_checked(ls: Seq<LayerV>, files: Seq<(Seq<char>, Seq<char>)>, imports: Seq<ImportV>) -> nat
    decreases imports.len(),
{
    if imports.len() == 0 {
        0
    } else {
        imports_checked(ls, files, imports.drop_last()) + if import_classified(
            ls,
            files,
            imports.last(),
        ) {
            1nat
        } else {
            0nat
        }
    }
}

/// How many file entries some layer claims.
pub open spec fn files_classified(ls: Seq<LayerV>, files: Seq<(Seq<char>, Seq<char>)>) -> nat
    decreases files.len(),
{
    if files.len() == 0 {
        0
    } else {
        files_classified(ls, files.drop_last()) + if layer_for(ls, files.last().1) is Some {
            1nat
        } else {
            0nat
        }
    }
}

/// How many file entries the layer `name` claims.
pub open spec fn files_in_layer(ls: Seq<LayerV>, files: Seq<(Seq<char>, Seq<char>)>, name: Seq<char>) -> nat
    decreases files.len(),
{
    if files.len() == 0 {
        0
    } else {
        files_in_layer(ls, files.drop_last(), name) + if layer_for(ls, files.last().1) == Some(
            name,
        ) {
            1nat
        } else {
            0nat
        }
    }
}

/// The declared layer names, in declaration order.
pub open spec fn layer_names(ls: Seq<LayerV>) -> Seq<Seq<char>> {
    ls.map_values(|l: LayerV| l.0)
}

/// The report's per-layer counts: every declared layer name once, in
/// name order, with the number of file entries it claims.
pub open spec fn per_layer_counts(ls: Seq<LayerV>, files: Seq<(Seq<char>, Seq<char>)>, fpl: Seq<(Seq<char>, nat)>) -> bool {
    &&& forall|a: int, b: int| 0 <= a < b < fpl.len() ==> key_lt(text_key(#[trigger] fpl[a].0), text_key(#[trigger] fpl[b].0))
    &&& forall|n: Seq<char>|
        #![trigger layer_names(ls).contains(n)]
        (exists|k: int| 0 <= k < fpl.len() && #[trigger] fpl[k].0 == n) <==> layer_names(ls).contains(n)
    &&& forall|k: int| 0 <= k < fpl.len() ==> #[trigger] fpl[k].1 == files_in_layer(ls, files, fpl[k].0)
}

fn last_layer_of_id(cls: &Vec<Option<String>>, fv: &Vec<(Vec<char>, Vec<char>)>, id: &Vec<char>, ls: Ghost<Seq<LayerV>>) -> (r: Option<String>)
    requires
        cls@.len() == fv@.len(),
        forall|i: int| 0 <= i < cls@.len() ==> opt_view(#[trigger] cls@[i]) == layer_for(ls@, pair_char_views(fv@)[i].1),
    ensures
        opt_view(r) == id_layer(ls@, pair_char_views(fv@), id@),
{
    let ghost files = pair_char_views(fv@);
    let mut i = fv.len();
    assert(files.take(files.len() as int) =~= files);
    while i > 0
        invariant
            i <= fv@.len(),
            cls@.len() == fv@.len(),
            files == pair_char_views(fv@),
            forall|j: int| 0 <= j < cls@.len() ==> opt_view(#[trigger] cls@[j]) == layer_for(ls@, files[j].1),
            id_layer(ls@, files, id@) == id_layer(ls@, files.take(i as int), id@),
        decreases i,
    {
        let ghost pre = files.take(i as int);
        assert(pre.last() == files[i - 1]);
        assert(pre.drop_last() =~= files.take(i - 1));
        assert(opt_view(cls@[i - 1]) == layer_for(ls@, files[i - 1].1));
        if chars_eq(fv[i - 1].0.as_slice(), id.as_slice()) {
            match &cls[i - 1] {
                Some(l) => {
                    return Some(l.clone());
                },
                None => {},
            }
        }
        i = i - 1;
    }
    assert(files.take(0) =~= Seq::<(Seq<char>, Seq<char>)>::empty());
    None
}

fn path_of_id(fv: &Vec<(Vec<char>, Vec<char>)>, id: &Vec<char>) -> (r: Vec<char>)
    ensures
        r@ == path_or_empty(pair_char_views(fv@), id@),
{
    let ghost files = pair_char_views(fv@);
    let mut i = fv.len();
    assert(files.take(files.len() as int) =~= files);
    while i > 0
        invariant
            i <= fv@.len(),
            files == pair_char_views(fv@),
            lookup_last(files, id@) == lookup_last(files.take(i as int), id@),
        decreases i,
    {
        let ghost pre = files.take(i as int);
        assert(pre.last() == files[i - 1]);
        assert(pre.drop_last() =~= files.take(i - 1));
        if chars_eq(fv[i - 1].0.as_slice(), id.as_slice()) {
            return slice_chars(fv[i - 1].1.as_slice(), 0, fv[i - 1].1.len());
        }
        i = i - 1;
    }
    assert(files.take(0) =~= Seq::<(Seq<char>, Seq<char>)>::empty());
    Vec::new()
}

fn line_key_of(line: Option<i64>) -> (k: Vec<u64>)
    ensures
        k@ == line_key(line),
{
    let mut k: Vec<u64> = Vec::new();
    match line {
        None => {
            k.push(0);
        },
        Some(x) => {
            k.push(1);
            let shifted: i128 = x as i128 + 0x8000_0000_0000_0000i128;
            k.push(shifted as u64);
        },
    }
    assert(k@ =~= line_key(line));
    k
}

/// The report of checking the files `fs` and imports `is` against the
/// layers `ls`: the violations in key order, the coverage counts, and
/// the per-layer counts.
pub open spec fn check_outcome(ls: Seq<LayerV>, fs: Seq<(Seq<char>, Seq<char>)>, is: Seq<ImportV>, r: LayerReport) -> bool {
    &&& r.violations@.map_values(|v: Violation| v@) == stable_sort(violations_found(ls, fs, is)).map_values(
        |e: (Seq<u64>, ViolationV)| e.1,
    )
    &&& r.coverage.files_classified == files_classified(ls, fs)
    &&& r.coverage.files_unclassified == fs.len() - files_classified(ls, fs)
    &&& r.coverage.imports_checked == imports_checked(ls, fs, is)
    &&& r.coverage.imports_unclassified == is.len() - imports_checked(ls, fs, is)
    &&& per_layer_counts(ls, fs, r.files_per_layer@.map_values(|e: (String, usize)| (e.0@, e.1 as nat)))
}

/// Checks resolved imports against a compiled declaration.
///
/// `files` holds (file id, path) pairs; `imports` (importer id,
/// imported id, line). An import between two classified files that
/// the importer's layer does not permit is a violation; one touching an
/// unclassified file is counted as unchecked. Violations come ordered
/// by file, line, then imported file, so the same input always gives
/// the same report.
pub fn check(
    rules: &LayerRules,
    files: &[(String, String)],
    imports: &[(String, String, Option<i64>)],
) -> (r: LayerReport)
    ensures
        check_outcome(rules@, pair_views(files@), import_views(imports@), r),
{
    let ghost ls = rules@;
    let ghost fs = pair_views(files@);
    let ghost is = import_views(imports@);
    let fv = string_pairs_chars(files);
    // classify every file entry
    let mut cls: Vec<Option<String>> = Vec::new();
    let mut classified: usize = 0;
    let mut i: usize = 0;
    while i < fv.len()
        invariant
            ls == rules@,
            fs == pair_views(files@),
            pair_char_views(fv@) == fs,
            i <= fv@.len(),
            cls@.len() == i,
            classified <= i,
            forall|j: int| 0 <= j < i ==> opt_view(#[trigger] cls@[j]) == layer_for(ls, fs[j].1),
            classified == files_classified(ls, fs.take(i as int)),
        decreases fv@.len() - i,
    {
        assert(fs[i as int].1 == fv@[i as int].1@);
        let path = string_of_vec(&fv[i].1);
        let l = rules.layer_of(path.as_str());
        if l.is_some() {
            classified = classified + 1;
        }
        cls.push(l);
        assert(fs.take(i + 1).drop_last() =~= fs.take(i as int));
        i = i + 1;
    }
    assert(fs.take(fs.len() as int) =~= fs);
    // check every import
    let mut entries: Vec<(Vec<u64>, Violation)> = Vec::new();
    let mut checked: usize = 0;
    let mut k: usize = 0;
    while k < imports.len()
        invariant
            ls == rules@,
            fs == pair_views(files@),
            is == import_views(imports@),
            pair_char_views(fv@) == fs,
            cls@.len() == fv@.len(),
            forall|j: int| 0 <= j < cls@.len() ==> opt_view(#[trigger] cls@[j]) == layer_for(ls, fs[j].1),
            k <= imports@.len(),
            checked <= k,
            checked == imports_checked(ls, fs, is.take(k as int)),
            map_payload(keyed(entries@), |v: Violation| v@) == violations_found(ls, fs, is.take(k as int)),
        decreases imports@.len() - k,
    {
        let ghost imp = is[k as int];
        assert(is.take(k + 1).drop_last() =~= is.take(k as int));
        assert(is.take(k + 1).last() == imp);
        let src = chars_of(imports[k].0.as_str());
        let dst = chars_of(imports[k].1.as_str());
        assert(imp == (src@, dst@, imports@[k as int].2));
        let from = last_layer_of_id(&cls, &fv, &src, Ghost(ls));
        let to = last_layer_of_id(&cls, &fv, &dst, Ghost(ls));
        match (from, to) {
            (Some(f), Some(t)) => {
                checked = checked + 1;
                if !rules.permits(f.as_str(), t.as_str()) {
                    let ff = path_of_id(&fv, &src);
                    let tf = path_of_id(&fv, &dst);
                    let line = imports[k].2;
                    let mut key = text_key_of(ff.as_slice());
                    let lk = line_key_of(line);
                    let mut x: usize = 0;
                    while x < lk.len()
                        invariant
                            x <= lk@.len(),
                            key@ == text_key(ff@) + lk@.take(x as int),
                        decreases lk@.len() - x,
                    {
                        key.push(lk[x]);
                        x = x + 1;
                        assert(key@ =~= text_key(ff@) + lk@.take(x as int));
                    }
                    assert(lk@.take(lk@.len() as int) =~= lk@);
                    push_text_key(&mut key, tf.as_slice());
                    let v = Violation {
                        from_file: string_of_vec(&ff),
                        from_layer: f,
                        to_file: string_of_vec(&tf),
                        to_layer: t,
                        line,
                    };
                    assert(key@ =~= violation_key(v@));
                    let ghost e0 = entries@;
                    entries.push((key, v));
                    assert(map_payload(keyed(entries@), |v: Violation| v@) =~= map_payload(
                        keyed(e0),
                        |v: Violation| v@,
                    ).push((violation_key(v@), v@)));
                }
            },
            _ => {},
        }
        k = k + 1;
    }
    assert(is.take(is.len() as int) =~= is);
    let sorted = sort_by_key(entries);
    proof {
        lemma_stable_sort_map_payload(keyed(entries@), |v: Violation| v@);
    }
    let ghost ss = stable_sort(violations_found(ls, fs, is));
    assert(map_payload(keyed(sorted@), |v: Violation| v@) == ss);
    let mut violations: Vec<Violation> = Vec::new();
    let mut m: usize = 0;
    while m < sorted.len()
        invariant
            m <= sorted@.len(),
            violations@.len() == m,
            forall|j: int| 0 <= j < m ==> #[trigger] violations@[j]@ == sorted@[j].1@,
        decreases sorted@.len() - m,
    {
        let s = &sorted[m].1;
        violations.push(
            Violation {
                from_file: s.from_file.clone(),
                from_layer: s.from_layer.clone(),
                to_file: s.to_file.clone(),
                to_layer: s.to_layer.clone(),
                line: s.line,
            },
        );
        m = m + 1;
    }
    assert forall|j: int| 0 <= j < violations@.len() implies #[trigger] violations@[j]@ == ss[j].1 by {
        assert(map_payload(keyed(sorted@), |v: Violation| v@)[j] == ss[j]);
    }
    assert(violations@.map_values(|v: Violation| v@) =~= ss.map_values(|e: (Seq<u64>, ViolationV)| e.1));
    let files_per_layer = layer_counts(rules, &cls, Ghost(fs));
    LayerReport {
        violations,
        coverage: Coverage {
            files_classified: classified,
            files_unclassified: fv.len() - classified,
            imports_checked: checked,
            imports_unclassified: imports.len() - checked,
        },
        files_per_layer,
    }
}

fn count_in_layer(cls: &Vec<Option<String>>, name: &Vec<char>, ls: Ghost<Seq<LayerV>>, fs: Ghost<Seq<(Seq<char>, Seq<char>)>>) -> (n: usize)
    requires
        cls@.len() == fs@.len(),
        forall|j: int| 0 <= j < cls@.len() ==> opt_view(#[trigger] cls@[j]) == layer_for(ls@, fs@[j].1),
    ensures
        n == files_in_layer(ls@, fs@, name@),
{
    let mut n: usize = 0;
    let mut i: usize = 0;
    while i < cls.len()
        invariant
            cls@.len() == fs@.len(),
            forall|j: int| 0 <= j < cls@.len() ==> opt_view(#[trigger] cls@[j]) == layer_for(ls@, fs@[j].1),
            i <= cls@.len(),
            n <= i,
            n == files_in_layer(ls@, fs@.take(i as int), name@),
        decreases cls@.len() - i,
    {
        assert(fs@.take(i + 1).drop_last() =~= fs@.take(i as int));
        assert(opt_view(cls@[i as int]) == layer_for(ls@, fs@[i as int].1));
        match &cls[i] {
            Some(l) => {
                let lc = chars_of(l.as_str());
                if chars_eq(lc.as_slice(), name.as_slice()) {
                    n = n + 1;
                }
            },
            None => {},
        }
        i = i + 1;
    }
    assert(fs@.take(fs@.len() as int) =~= fs@);
    n
}

fn layer_counts(rules: &LayerRules, cls: &Vec<Option<String>>, fs: Ghost<Seq<(Seq<char>, Seq<char>)>>) -> (r: Vec<(String, usize)>)
    requires
        cls@.len() == fs@.len(),
        forall|j: int| 0 <= j < cls@.len() ==> opt_view(#[trigger] cls@[j]) == layer_for(rules@, fs@[j].1),
    ensures
        per_layer_counts(rules@, fs@, r@.map_values(|e: (String, usize)| (e.0@, e.1 as nat))),
{
    let ghost ls = rules@;
    let ghost all_names = layer_names(ls);
    // distinct names, kept in key order
    let mut names: Vec<(Vec<u64>, Vec<char>)> = Vec::new();
    let mut j: usize = 0;
    while j < rules.layers.len()
        invariant
            ls == rules@,
            all_names == layer_names(ls),
            j <= rules.layers@.len(),
            forall|a: int| 0 <= a < names@.len() ==> #[trigger] names@[a].0@ == text_key(names@[a].1@),
            forall|a: int, b: int| 0 <= a < b < names@.len() ==> key_lt(#[trigger] names@[a].0@, #[trigger] names@[b].0@),
            forall|n: Seq<char>|
                #![trigger all_names.take(j as int).contains(n)]
                (exists|a: int| 0 <= a < names@.len() && #[trigger] names@[a].1@ == n) <==> all_names.take(j as int).contains(n),
        decreases rules.layers@.len() - j,
    {
        let name = chars_of(rules.layers[j].name.as_str());
        assert(all_names[j as int] == name@);
        let key = text_key_of(name.as_slice());
        let mut pos: usize = 0;
        while pos < names.len() && key_less(&names[pos].0, &key)
            invariant
                pos <= names@.len(),
                forall|a: int| 0 <= a < pos ==> key_lt(#[trigger] names@[a].0@, key@),
            decreases names@.len() - pos,
        {
            pos = pos + 1;
        }
        let ghost before = names@;
        proof {
            crate::text::lemma_push_contains(all_names.take(j as int), name@);
            assert(all_names.take(j + 1) =~= all_names.take(j as int).push(name@));
        }
        if pos < names.len() && chars_eq(names[pos].1.as_slice(), name.as_slice()) {
            assert(names@[pos as int].1@ == name@);
        } else {
            proof {
                if pos < names@.len() {
                    crate::sort::lemma_key_lt_total(names@[pos as int].0@, key@);
                    if names@[pos as int].0@ == key@ {
                        crate::sort::lemma_text_key_injective(names@[pos as int].1@, name@);
                    }
                }
            }
            names.insert(pos, (key, name));
            proof {
                assert forall|a: int, b: int| 0 <= a < b < names@.len() implies key_lt(#[trigger] names@[a].0@, #[trigger] names@[b].0@) by {
                    if b < pos {
                        assert(names@[a] == before[a] && names@[b] == before[b]);
                    } else if b == pos {
                        assert(names@[a] == before[a]);
                    } else if a < pos {
                        assert(names@[a] == before[a] && names@[b] == before[b - 1]);
                        assert(key_lt(before[a].0@, key@));
                        assert(key_lt(key@, before[pos as int].0@));
                        if b - 1 > pos {
                            crate::sort::lemma_key_lt_transitive(key@, before[pos as int].0@, before[b - 1].0@);
                        }
                        crate::sort::lemma_key_lt_transitive(before[a].0@, key@, before[b - 1].0@);
                    } else if a == pos {
                        assert(names@[b] == before[b - 1]);
                        assert(key_lt(key@, before[pos as int].0@));
                        if b - 1 > pos {
                            crate::sort::lemma_key_lt_transitive(key@, before[pos as int].0@, before[b - 1].0@);
                        }
                    } else {
                        assert(names@[a] == before[a - 1] && names@[b] == before[b - 1]);
                    }
                }
                assert forall|n: Seq<char>|
                    #![trigger all_names.take(j + 1).contains(n)]
                    (exists|a: int| 0 <= a < names@.len() && #[trigger] names@[a].1@ == n) <==> all_names.take(j + 1).contains(n) by {
                    if exists|a: int| 0 <= a < names@.len() && #[trigger] names@[a].1@ == n {
                        let a = choose|a: int| 0 <= a < names@.len() && #[trigger] names@[a].1@ == n;
                        if a < pos {
                            assert(before[a].1@ == n);
                        } else if a > pos {
                            assert(before[a - 1].1@ == n);
                        }
                    }
                    if all_names.take(j + 1).contains(n) {
                        if n == name@ {
                            assert(names@[pos as int].1@ == n);
                        } else {
                            let a = choose|a: int| 0 <= a < before.len() && #[trigger] before[a].1@ == n;
                            if a < pos {
                                assert(names@[a].1@ == n);
                            } else {
                                assert(names@[a + 1].1@ == n);
                            }
                        }
                    }
                }
            }
        }
        j = j + 1;
    }
    assert(all_names.take(all_names.len() as int) =~= all_names);
    let mut r: Vec<(String, usize)> = Vec::new();
    let mut k: usize = 0;
    while k < names.len()
        invariant
            ls == rules@,
            cls@.len() == fs@.len(),
            forall|j: int| 0 <= j < cls@.len() ==> opt_view(#[trigger] cls@[j]) == layer_for(ls, fs@[j].1),
            k <= names@.len(),
            r@.len() == k,
            forall|a: int| 0 <= a < k ==> #[trigger] r@[a].0@ == names@[a].1@ && r@[a].1 == files_in_layer(ls, fs@, names@[a].1@),
        decreases names@.len() - k,
    {
        let n = count_in_layer(cls, &names[k].1, Ghost(ls), fs);
        r.push((string_of_vec(&names[k].1), n));
        k = k + 1;
    }
    proof {
        let rv = r@.map_values(|e: (String, usize)| (e.0@, e.1 as nat));
        assert forall|a: int, b: int| 0 <= a < b < rv.len() implies key_lt(text_key(#[trigger] rv[a].0), text_key(#[trigger] rv[b].0)) by {
            assert(rv[a].0 == names@[a].1@ && rv[b].0 == names@[b].1@);
            assert(key_lt(names@[a].0@, names@[b].0@));
        }
        assert forall|n: Seq<char>| (exists|a: int| 0 <= a < rv.len() && #[trigger] rv[a].0 == n) <==> all_names.contains(n) by {
            if exists|a: int| 0 <= a < rv.len() && #[trigger] rv[a].0 == n {
                let a = choose|a: int| 0 <= a < rv.len() && #[trigger] rv[a].0 == n;
                assert(names@[a].1@ == n);
            }
            if all_names.contains(n) {
                let a = choose|a: int| 0 <= a < names@.len() && #[trigger] names@[a].1@ == n;
                assert(rv[a].0 == n);
            }
        }
        assert forall|a: int| 0 <= a < rv.len() implies #[trigger] rv[a].1 == files_in_layer(ls, fs@, rv[a].0) by {
            assert(rv[a].0 == names@[a].1@);
        }
    }
    r
}

/// Every reported violation joins two classified files, in two
/// different layers, where the importer's layer does not permit the
/// other: a file that matches no layer is never reported, and a layer
/// may always import from itself.
pub proof fn law_violations_join_two_layers_that_forbid(
    ls: Seq<LayerV>,
    files: Seq<(Seq<char>, Seq<char>)>,
    imports: Seq<ImportV>,
)
    ensures
        forall|k: int|
            0 <= k < violations_found(ls, files, imports).len() ==> exists|j: int|
                0 <= j < imports.len() && import_classified(ls, files, imports[j]) && (
                #[trigger] violations_found(ls, files, imports)[k]).1.1 == id_layer(ls, files, imports[j].0)->0
                    && violations_found(ls, files, imports)[k].1.3 == id_layer(ls, files, imports[j].1)->0
                    && violations_found(ls, files, imports)[k].1.1 != violations_found(ls, files, imports)[k].1.3
                    && !layer_permits(ls, violations_found(ls, files, imports)[k].1.1, violations_found(ls, files, imports)[k].1.3),
    decreases imports.len(),
{
    if imports.len() > 0 {
        let front = imports.drop_last();
        law_violations_join_two_layers_that_forbid(ls, files, front);
        let found = violations_found(ls, files, imports);
        let rest = violations_found(ls, files, front);
        assert forall|k: int| 0 <= k < found.len() implies exists|j: int|
            0 <= j < imports.len() && import_classified(ls, files, imports[j]) && (#[trigger] found[k]).1.1 == id_layer(
                ls,
                files,
                imports[j].0,
            )->0 && found[k].1.3 == id_layer(ls, files, imports[j].1)->0 && found[k].1.1 != found[k].1.3
                && !layer_permits(ls, found[k].1.1, found[k].1.3) by {
            if k < rest.len() {
                assert(found[k] == rest[k]);
                let j = choose|j: int|
                    0 <= j < front.len() && import_classified(ls, files, front[j]) && (#[trigger] rest[k]).1.1 == id_layer(
                        ls,
                        files,
                        front[j].0,
                    )->0 && rest[k].1.3 == id_layer(ls, files, front[j].1)->0 && rest[k].1.1 != rest[k].1.3
                        && !layer_permits(ls, rest[k].1.1, rest[k].1.3);
                assert(front[j] == imports[j]);
            } else {
                let j = imports.len() - 1;
                assert(imports[j] == imports.last());
            }
        }
    }
}

} // verus!
