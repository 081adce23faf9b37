//! How a project declares its own subdivisions and its architecture,
//! in `atlas.layers.toml` at its root, and the rules such a
//! declaration must obey before anything is checked against it.
//!
//! A layer with no `depends_on` may depend on nothing: the strictest
//! reading is what you get for not writing anything.

use vstd::prelude::*;
use crate::text::{append_str, chars_eq, chars_of, chars_trim, debug_quote, debug_text, string_of_vec, trim};

verus! {

/// The name a project's declaration file must have, at its root.
pub const LAYERS_FILE: &'static str = "atlas.layers.toml";

/// A curated subdivision of a project.
#[derive(Clone, Debug, PartialEq, Eq)]
pub struct ModuleDecl {
    pub name: String,
    /// Relative to the project root.
    pub path: String,
    pub description: Option<String>,
}

/// One architectural layer and the layers it may import from.
#[derive(Clone, Debug, PartialEq, Eq)]
pub struct LayerDecl {
    pub name: String,
    /// Glob patterns, relative to the project root.
    pub paths: Vec<String>,
    /// Layers this one may import from; omitted means none.
    pub depends_on: Vec<String>,
}

/// A declaration file's contents.
#[derive(Clone, Debug, PartialEq, Eq)]
pub struct LayersFile {
    pub modules: Vec<ModuleDecl>,
    pub layers: Vec<LayerDecl>,
}

/// Why a declaration was rejected; every variant names what is at fault.
#[derive(Clone, Debug, PartialEq, Eq)]
pub enum LayersError {
    /// Not valid TOML; the parser's message.
    Malformed(String),
    DuplicateLayer(String),
    DuplicateModule(String),
    LayerWithoutPaths(String),
    UnknownDependency { layer: String, missing: String },
    SelfDependency(String),
    EmptyName,
    InvalidPattern { layer: String, pattern: String, reason: String },
}

/// [`LayersError`] as a value.
pub enum LayersFault {
    Malformed(Seq<char>),
    DuplicateLayer(Seq<char>),
    DuplicateModule(Seq<char>),
    LayerWithoutPaths(Seq<char>),
    UnknownDependency(Seq<char>, Seq<char>),
    SelfDependency(Seq<char>),
    EmptyName,
    InvalidPattern(Seq<char>, Seq<char>, Seq<char>),
}

impl View for LayersError {
    type V = LayersFault;

    open spec fn view(&self) -> LayersFault {
        match self {
            LayersError::Malformed(m) => LayersFault::Malformed(m@),
            LayersError::DuplicateLayer(n) => LayersFault::DuplicateLayer(n@),
            LayersError::DuplicateModule(n) => LayersFault::DuplicateModule(n@),
            LayersError::LayerWithoutPaths(n) => LayersFault::LayerWithoutPaths(n@),
            LayersError::UnknownDependency { layer, missing } => LayersFault::UnknownDependency(
                layer@,
                missing@,
            ),
            LayersError::SelfDependency(n) => LayersFault::SelfDependency(n@),
            LayersError::EmptyName => LayersFault::EmptyName,
            LayersError::InvalidPattern { layer, pattern, reason } => LayersFault::InvalidPattern(
                layer@,
                pattern@,
                reason@,
            ),
        }
    }
}

/// A layer as a value: name, patterns, dependencies.
pub type LayerV = (Seq<char>, Seq<Seq<char>>, Seq<Seq<char>>);

/// The views of a list of strings.
pub open spec fn string_views(v: Seq<String>) -> Seq<Seq<char>> {
    v.map_values(|s: String| s@)
}

impl View for LayerDecl {
    type V = LayerV;

    open spec fn view(&self) -> LayerV {
        (self.name@, string_views(self.paths@), string_views(self.depends_on@))
    }
}

/// The module names of a declaration, in order.
pub open spec fn module_names(f: LayersFile) -> Seq<Seq<char>> {
    f.modules@.map_values(|m: ModuleDecl| m.name@)
}

/// The layers of a declaration, in order.
pub open spec fn layer_views(f: LayersFile) -> Seq<LayerV> {
    f.layers@.map_values(|l: LayerDecl| l@)
}

/// The first fault among module names from index `i` on: a blank
/// name, or one already used earlier in the file.
pub open spec fn module_fault(names: Seq<Seq<char>>, i: nat) -> Option<LayersFault>
    decreases names.len() - i,
{
    if i >= names.len() {
        None
    } else if trim(names[i as int]).len() == 0 {
        Some(LayersFault::EmptyName)
    } else if names.take(i as int).contains(names[i as int]) {
        Some(LayersFault::DuplicateModule(names[i as int]))
    } else {
        module_fault(names, i + 1)
    }
}

/// The first fault among layers from index `j` on: a blank name, a
/// name used earlier, or no patterns.
pub open spec fn layer_fault(ls: Seq<LayerV>, j: nat) -> Option<LayersFault>
    decreases ls.len() - j,
{
    if j >= ls.len() {
        None
    } else if trim(ls[j as int].0).len() == 0 {
        Some(LayersFault::EmptyName)
    } else if ls.take(j as int).map_values(|l: LayerV| l.0).contains(ls[j as int].0) {
        Some(LayersFault::DuplicateLayer(ls[j as int].0))
    } else if ls[j as int].1.len() == 0 {
        Some(LayersFault::LayerWithoutPaths(ls[j as int].0))
    } else {
        layer_fault(ls, j + 1)
    }
}

/// The first fault among the dependencies of one layer from index `k`
/// on: depending on itself, or on a layer never declared.
pub open spec fn dependency_fault(name: Seq<char>, deps: Seq<Seq<char>>, declared: Seq<Seq<char>>, k: nat) -> Option<LayersFault>
    decreases deps.len() - k,
{
    if k >= deps.len() {
        None
    } else if deps[k as int] == name {
        Some(LayersFault::SelfDependency(name))
    } else if !declared.contains(deps[k as int]) {
        Some(LayersFault::UnknownDependency(name, deps[k as int]))
    } else {
        dependency_fault(name, deps, declared, k + 1)
    }
}

/// The first dependency fault of any layer from index `j` on. Checked
/// against every declared name, so a dependency declared later in the
/// file still resolves.
pub open spec fn dependencies_fault(ls: Seq<LayerV>, j: nat) -> Option<LayersFault>
    decreases ls.len() - j,
{
    if j >= ls.len() {
        None
    } else {
        match dependency_fault(ls[j as int].0, ls[j as int].2, ls.map_values(|l: LayerV| l.0), 0) {
            Some(f) => Some(f),
            None => dependencies_fault(ls, j + 1),
        }
    }
}

/// The first fault of a declaration, in the order it is checked:
/// modules, then layers, then dependencies.
pub open spec fn declaration_fault(f: LayersFile) -> Option<LayersFault> {
    match module_fault(module_names(f), 0) {
        Some(e) => Some(e),
        None => match layer_fault(layer_views(f), 0) {
            Some(e) => Some(e),
            None => dependencies_fault(layer_views(f), 0),
        },
    }
}

/// Whether `x` occurs among the first `n` names.
fn occurs_before(names: &Vec<Vec<char>>, n: usize, x: &Vec<char>) -> (r: bool)
    requires
        n <= names@.len(),
    ensures
        r == names@.take(n as int).map_values(|v: Vec<char>| v@).contains(x@),
{
    let ghost pre = names@.take(n as int).map_values(|v: Vec<char>| v@);
    let mut i: usize = 0;
    while i < n
        invariant
            n <= names@.len(),
            i <= n,
            pre == names@.take(n as int).map_values(|v: Vec<char>| v@),
            forall|j: int| 0 <= j < i ==> names@[j]@ != x@,
        decreases n - i,
    {
        if chars_eq(names[i].as_slice(), x.as_slice()) {
            assert(pre[i as int] == x@);
            return true;
        }
        i = i + 1;
    }
    assert forall|j: int| 0 <= j < pre.len() implies #[trigger] pre[j] != x@ by {
        assert(pre[j] == names@[j]@);
    }
    false
}

fn names_chars(v: &Vec<String>) -> (r: Vec<Vec<char>>)
    ensures
        r@.map_values(|x: Vec<char>| x@) == string_views(v@),
{
    let mut r: Vec<Vec<char>> = Vec::new();
    let mut i: usize = 0;
    while i < v.len()
        invariant
            i <= v@.len(),
            r@.len() == i,
            forall|j: int| 0 <= j < i ==> #[trigger] r@[j]@ == v@[j]@,
        decreases v@.len() - i,
    {
        r.push(chars_of(v[i].as_str()));
        i = i + 1;
    }
    assert(r@.map_values(|x: Vec<char>| x@) =~= string_views(v@));
    r
}

impl LayersFile {
    /// A declaration of nothing.
    pub fn empty() -> (r: Self)
        ensures
            r.modules@.len() == 0,
            r.layers@.len() == 0,
    {
        LayersFile { modules: Vec::new(), layers: Vec::new() }
    }

    /// Whether this declares anything worth analysing.
    pub fn is_empty(&self) -> (r: bool)
        ensures
            r == (self.modules@.len() == 0 && self.layers@.len() == 0),
    {
        self.modules.len() == 0 && self.layers.len() == 0
    }

    /// Checks a parsed declaration, reporting the first declaration at
    /// fault: a blank or repeated module name; a blank or repeated
    /// layer name, or a layer with no patterns; a layer depending on
    /// itself or on a layer nowhere declared.
    pub fn validate(&self) -> (r: Result<(), LayersError>)
        ensures
            match r {
                Ok(()) => declaration_fault(*self) is None,
                Err(e) => declaration_fault(*self) == Some(e@),
            },
    {
        let mut mnames: Vec<Vec<char>> = Vec::new();
        let mut i: usize = 0;
        while i < self.modules.len()
            invariant
                i <= self.modules@.len(),
                mnames@.len() == i,
                forall|j: int| 0 <= j < i ==> #[trigger] mnames@[j]@ == module_names(*self)[j],
                module_fault(module_names(*self), 0) == module_fault(module_names(*self), i as nat),
            decreases self.modules@.len() - i,
        {
            let name = chars_of(self.modules[i].name.as_str());
            let ghost names = module_names(*self);
            assert(names[i as int] == name@);
            let t = chars_trim(name.as_slice());
            if t.len() == 0 {
                return Err(LayersError::EmptyName);
            }
            let dup = occurs_before(&mnames, i, &name);
            assert(mnames@.take(i as int).map_values(|v: Vec<char>| v@) =~= names.take(i as int));
            if dup {
                return Err(LayersError::DuplicateModule(self.modules[i].name.clone()));
            }
            mnames.push(name);
            i = i + 1;
        }
        let mut lnames: Vec<Vec<char>> = Vec::new();
        let mut j: usize = 0;
        let ghost ls = layer_views(*self);
        while j < self.layers.len()
            invariant
                ls == layer_views(*self),
                j <= self.layers@.len(),
                lnames@.len() == j,
                forall|k: int| 0 <= k < j ==> #[trigger] lnames@[k]@ == ls[k].0,
                module_fault(module_names(*self), 0) is None,
                layer_fault(ls, 0) == layer_fault(ls, j as nat),
            decreases self.layers@.len() - j,
        {
            let name = chars_of(self.layers[j].name.as_str());
            assert(ls[j as int].0 == name@);
            let t = chars_trim(name.as_slice());
            if t.len() == 0 {
                return Err(LayersError::EmptyName);
            }
            let dup = occurs_before(&lnames, j, &name);
            assert(lnames@.take(j as int).map_values(|v: Vec<char>| v@) =~= ls.take(
                j as int,
            ).map_values(|l: LayerV| l.0));
            if dup {
                return Err(LayersError::DuplicateLayer(self.layers[j].name.clone()));
            }
            if self.layers[j].paths.len() == 0 {
                return Err(LayersError::LayerWithoutPaths(self.layers[j].name.clone()));
            }
            lnames.push(name);
            j = j + 1;
        }
        assert(lnames@.map_values(|v: Vec<char>| v@) =~= ls.map_values(|l: LayerV| l.0));
        let mut j: usize = 0;
        while j < self.layers.len()
            invariant
                ls == layer_views(*self),
                j <= self.layers@.len(),
                lnames@.len() == self.layers@.len(),
                lnames@.map_values(|v: Vec<char>| v@) == ls.map_values(|l: LayerV| l.0),
                module_fault(module_names(*self), 0) is None,
                layer_fault(ls, 0) is None,
                dependencies_fault(ls, 0) == dependencies_fault(ls, j as nat),
            decreases self.layers@.len() - j,
        {
            let layer = &self.layers[j];
            let name = chars_of(layer.name.as_str());
            let deps = names_chars(&layer.depends_on);
            assert(ls[j as int] == layer@);
            let mut k: usize = 0;
            while k < deps.len()
                invariant
                    ls == layer_views(*self),
                    j < self.layers@.len(),
                    layer == self.layers@[j as int],
                    ls[j as int] == layer@,
                    name@ == layer.name@,
                    deps@.map_values(|x: Vec<char>| x@) == string_views(layer.depends_on@),
                    lnames@.len() == self.layers@.len(),
                    lnames@.map_values(|v: Vec<char>| v@) == ls.map_values(|l: LayerV| l.0),
                    k <= deps@.len(),
                    module_fault(module_names(*self), 0) is None,
                    layer_fault(ls, 0) is None,
                    dependencies_fault(ls, 0) == dependencies_fault(ls, j as nat),
                    dependency_fault(name@, ls[j as int].2, ls.map_values(|l: LayerV| l.0), 0)
                        == dependency_fault(
                        name@,
                        ls[j as int].2,
                        ls.map_values(|l: LayerV| l.0),
                        k as nat,
                    ),
                decreases deps@.len() - k,
            {
                assert(ls[j as int].2[k as int] == deps@[k as int]@) by {
                    assert(deps@.map_values(|x: Vec<char>| x@)[k as int] == deps@[k as int]@);
                }
                if chars_eq(deps[k].as_slice(), name.as_slice()) {
                    return Err(LayersError::SelfDependency(layer.name.clone()));
                }
                let known = occurs_before(&lnames, lnames.len(), &deps[k]);
                assert(lnames@.take(lnames@.len() as int) =~= lnames@);
                if !known {
                    return Err(
                        LayersError::UnknownDependency {
                            layer: layer.name.clone(),
                            missing: layer.depends_on[k].clone(),
                        },
                    );
                }
                k = k + 1;
            }
            assert(dependency_fault(name@, ls[j as int].2, ls.map_values(|l: LayerV| l.0), k as nat)
                is None);
            j = j + 1;
        }
        Ok(())
    }
}

/// The message of a rejected declaration.
pub open spec fn layers_message(e: LayersFault) -> Seq<char> {
    match e {
        LayersFault::Malformed(m) => "atlas.layers.toml is not valid TOML: "@ + m,
        LayersFault::DuplicateLayer(n) => "layer "@ + debug_text(n) + " is declared more than once"@,
        LayersFault::DuplicateModule(n) => "module "@ + debug_text(n) + " is declared more than once"@,
        LayersFault::LayerWithoutPaths(n) => "layer "@ + debug_text(n)
            + " declares no paths, so nothing can ever be in it"@,
        LayersFault::UnknownDependency(l, m) => "layer "@ + debug_text(l) + " may depend on "@
            + debug_text(m) + ", which is not a declared layer"@,
        LayersFault::SelfDependency(n) => "layer "@ + debug_text(n)
            + " declares itself as one of its own dependencies"@,
        LayersFault::EmptyName => "a layer or module was declared with an empty name"@,
        LayersFault::InvalidPattern(l, p, r) => "layer "@ + debug_text(l) + " has the invalid path pattern "@
            + debug_text(p) + ": "@ + r,
    }
}

impl LayersError {
    /// What went wrong, in one sentence naming the declaration at
    /// fault.
    pub fn message(&self) -> (r: String)
        ensures
            r@ == layers_message(self@),
    {
        let mut m: Vec<char> = Vec::new();
        match self {
            LayersError::Malformed(x) => {
                append_str(&mut m, "atlas.layers.toml is not valid TOML: ");
                append_str(&mut m, x.as_str());
            },
            LayersError::DuplicateLayer(n) => {
                append_str(&mut m, "layer ");
                append_str(&mut m, debug_quote(n.as_str()).as_str());
                append_str(&mut m, " is declared more than once");
            },
            LayersError::DuplicateModule(n) => {
                append_str(&mut m, "module ");
                append_str(&mut m, debug_quote(n.as_str()).as_str());
                append_str(&mut m, " is declared more than once");
            },
            LayersError::LayerWithoutPaths(n) => {
                append_str(&mut m, "layer ");
                append_str(&mut m, debug_quote(n.as_str()).as_str());
                append_str(&mut m, " declares no paths, so nothing can ever be in it");
            },
            LayersError::UnknownDependency { layer, missing } => {
                append_str(&mut m, "layer ");
                append_str(&mut m, debug_quote(layer.as_str()).as_str());
                append_str(&mut m, " may depend on ");
                append_str(&mut m, debug_quote(missing.as_str()).as_str());
                append_str(&mut m, ", which is not a declared layer");
            },
            LayersError::SelfDependency(n) => {
                append_str(&mut m, "layer ");
                append_str(&mut m, debug_quote(n.as_str()).as_str());
                append_str(&mut m, " declares itself as one of its own dependencies");
            },
            LayersError::EmptyName => {
                append_str(&mut m, "a layer or module was declared with an empty name");
            },
            LayersError::InvalidPattern { layer, pattern, reason } => {
                append_str(&mut m, "layer ");
                append_str(&mut m, debug_quote(layer.as_str()).as_str());
                append_str(&mut m, " has the invalid path pattern ");
                append_str(&mut m, debug_quote(pattern.as_str()).as_str());
                append_str(&mut m, ": ");
                append_str(&mut m, reason.as_str());
            },
        }
        let r = string_of_vec(&m);
        proof {
            assert(r@ =~= layers_message(self@));
        }
        r
    }
}

} // verus!
