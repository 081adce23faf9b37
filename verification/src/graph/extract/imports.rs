//! Import statements, matched by patterns that hold across languages,
//! and the rules that turn what an import names into a project path.
//!
//! An import that does not resolve to a real file in the project is
//! dropped rather than stored pointing at a guess.

use vstd::prelude::*;
use crate::graph::extract::markdown::count_i64;
use crate::graph::model::{edge_views, EdgePredicate, ExtractedEdge, ExtractedEdgeV, FileExtraction};
use crate::text::{opt_view, append_str, char_views, chars_eq, chars_of, find_last, first_index, fields, join, join_chars, last_index, pieces, slice_chars, split_fields, split_pieces, string_of_vec};

verus! {

/// Extensions to try when an import omits one, most likely first.
pub open spec fn candidate_extension_names() -> Seq<Seq<char>> {
    seq![
        "rs"@, "ts"@, "tsx"@, "js"@, "jsx"@, "mjs"@, "py"@, "go"@, "rb"@, "java"@, "kt"@, "c"@,
        "h"@, "cpp"@, "hpp"@, "php"@, "vue"@, "svelte"@,
    ]
}

/// Files tried when an import names a directory.
pub open spec fn index_file_names() -> Seq<Seq<char>> {
    seq!["index.ts"@, "index.tsx"@, "index.js"@, "mod.rs"@, "__init__.py"@]
}

fn candidate_extensions() -> (r: Vec<&'static str>)
    ensures
        r@.map_values(|s: &'static str| s@) == candidate_extension_names(),
{
    let r: Vec<&'static str> = vec![
        "rs", "ts", "tsx", "js", "jsx", "mjs", "py", "go", "rb", "java", "kt", "c", "h", "cpp",
        "hpp", "php", "vue", "svelte",
    ];
    assert(r@.map_values(|s: &'static str| s@) =~= candidate_extension_names());
    r
}

fn index_files() -> (r: Vec<&'static str>)
    ensures
        r@.map_values(|s: &'static str| s@) == index_file_names(),
{
    let r: Vec<&'static str> = vec!["index.ts", "index.tsx", "index.js", "mod.rs", "__init__.py"];
    assert(r@.map_values(|s: &'static str| s@) =~= index_file_names());
    r
}

/// Whether a path ends in one of the extensions the import patterns
/// read: what a finding may call a source file.
pub open spec fn code_path(fqn: Seq<char>) -> bool {
    match last_index(fqn, '.') {
        Some(i) => candidate_extension_names().contains(fqn.skip(i as int + 1)),
        None => false,
    }
}

/// A path whose last dot is followed by a listed extension is a code
/// path.
proof fn lemma_code_path_with(stem: Seq<char>, ext: Seq<char>)
    requires
        forall|j: int| 0 <= j < ext.len() ==> ext[j] != '.',
        candidate_extension_names().contains(ext),
    ensures
        code_path(stem + seq!['.'] + ext),
{
    let s = stem + seq!['.'] + ext;
    crate::text::lemma_last_index(s, '.');
    assert(s[stem.len() as int] == '.');
    match last_index(s, '.') {
        Some(i) => {
            if i > stem.len() {
                assert(s[i as int] == ext[i - stem.len() - 1]);
            }
            assert(i == stem.len());
            assert(s.skip(i as int + 1) =~= ext);
        },
        None => {},
    }
}

/// A path whose last dot is followed by an unlisted extension is not a
/// code path.
proof fn lemma_not_code_path_with(stem: Seq<char>, ext: Seq<char>)
    requires
        forall|j: int| 0 <= j < ext.len() ==> ext[j] != '.',
        !candidate_extension_names().contains(ext),
    ensures
        !code_path(stem + seq!['.'] + ext),
{
    let s = stem + seq!['.'] + ext;
    crate::text::lemma_last_index(s, '.');
    assert(s[stem.len() as int] == '.');
    match last_index(s, '.') {
        Some(i) => {
            if i > stem.len() {
                assert(s[i as int] == ext[i - stem.len() - 1]);
            }
            assert(i == stem.len());
            assert(s.skip(i as int + 1) =~= ext);
        },
        None => {},
    }
}

/// Every source extension the import patterns read makes a code path,
/// whatever comes before its dot: `a/b.py` is source, as are `.rs`,
/// `.ts`, `.tsx`, `.js`, `.jsx`, `.mjs`, `.go`, `.rb`, `.java`, `.kt`,
/// `.c`, `.h`, `.cpp`, `.hpp`, `.php`, `.vue` and `.svelte` files;
/// a markdown file is not, nor is a path with no dot.
pub proof fn law_source_extensions_are_code_paths(stem: Seq<char>)
    ensures
        !code_path(stem + seq!['.'] + "md"@),
        (forall|j: int| 0 <= j < stem.len() ==> stem[j] != '.') ==> !code_path(stem),
        code_path(stem + seq!['.'] + "rs"@),
        code_path(stem + seq!['.'] + "ts"@),
        code_path(stem + seq!['.'] + "tsx"@),
        code_path(stem + seq!['.'] + "js"@),
        code_path(stem + seq!['.'] + "jsx"@),
        code_path(stem + seq!['.'] + "mjs"@),
        code_path(stem + seq!['.'] + "py"@),
        code_path(stem + seq!['.'] + "go"@),
        code_path(stem + seq!['.'] + "rb"@),
        code_path(stem + seq!['.'] + "java"@),
        code_path(stem + seq!['.'] + "kt"@),
        code_path(stem + seq!['.'] + "c"@),
        code_path(stem + seq!['.'] + "h"@),
        code_path(stem + seq!['.'] + "cpp"@),
        code_path(stem + seq!['.'] + "hpp"@),
        code_path(stem + seq!['.'] + "php"@),
        code_path(stem + seq!['.'] + "vue"@),
        code_path(stem + seq!['.'] + "svelte"@),
{
    reveal_strlit("md");
    reveal_strlit("rs");
    reveal_strlit("ts");
    reveal_strlit("tsx");
    reveal_strlit("js");
    reveal_strlit("jsx");
    reveal_strlit("mjs");
    reveal_strlit("py");
    reveal_strlit("go");
    reveal_strlit("rb");
    reveal_strlit("java");
    reveal_strlit("kt");
    reveal_strlit("c");
    reveal_strlit("h");
    reveal_strlit("cpp");
    reveal_strlit("hpp");
    reveal_strlit("php");
    reveal_strlit("vue");
    reveal_strlit("svelte");
    let names = candidate_extension_names();
    assert forall|k: int| 0 <= k < names.len() implies names[k] != "md"@ by {
        if names[k].len() == 2 {
            assert(names[k][0] != 'm' || names[k][1] != 'd');
        }
    }
    lemma_not_code_path_with(stem, "md"@);
    crate::text::lemma_last_index(stem, '.');
    reveal_strlit("rs");
    assert(candidate_extension_names()[0] == "rs"@);
    lemma_code_path_with(stem, "rs"@);
    reveal_strlit("ts");
    assert(candidate_extension_names()[1] == "ts"@);
    lemma_code_path_with(stem, "ts"@);
    reveal_strlit("tsx");
    assert(candidate_extension_names()[2] == "tsx"@);
    lemma_code_path_with(stem, "tsx"@);
    reveal_strlit("js");
    assert(candidate_extension_names()[3] == "js"@);
    lemma_code_path_with(stem, "js"@);
    reveal_strlit("jsx");
    assert(candidate_extension_names()[4] == "jsx"@);
    lemma_code_path_with(stem, "jsx"@);
    reveal_strlit("mjs");
    assert(candidate_extension_names()[5] == "mjs"@);
    lemma_code_path_with(stem, "mjs"@);
    reveal_strlit("py");
    assert(candidate_extension_names()[6] == "py"@);
    lemma_code_path_with(stem, "py"@);
    reveal_strlit("go");
    assert(candidate_extension_names()[7] == "go"@);
    lemma_code_path_with(stem, "go"@);
    reveal_strlit("rb");
    assert(candidate_extension_names()[8] == "rb"@);
    lemma_code_path_with(stem, "rb"@);
    reveal_strlit("java");
    assert(candidate_extension_names()[9] == "java"@);
    lemma_code_path_with(stem, "java"@);
    reveal_strlit("kt");
    assert(candidate_extension_names()[10] == "kt"@);
    lemma_code_path_with(stem, "kt"@);
    reveal_strlit("c");
    assert(candidate_extension_names()[11] == "c"@);
    lemma_code_path_with(stem, "c"@);
    reveal_strlit("h");
    assert(candidate_extension_names()[12] == "h"@);
    lemma_code_path_with(stem, "h"@);
    reveal_strlit("cpp");
    assert(candidate_extension_names()[13] == "cpp"@);
    lemma_code_path_with(stem, "cpp"@);
    reveal_strlit("hpp");
    assert(candidate_extension_names()[14] == "hpp"@);
    lemma_code_path_with(stem, "hpp"@);
    reveal_strlit("php");
    assert(candidate_extension_names()[15] == "php"@);
    lemma_code_path_with(stem, "php"@);
    reveal_strlit("vue");
    assert(candidate_extension_names()[16] == "vue"@);
    lemma_code_path_with(stem, "vue"@);
    reveal_strlit("svelte");
    assert(candidate_extension_names()[17] == "svelte"@);
    lemma_code_path_with(stem, "svelte"@);
}

/// Whether `ext` is one of `names`.
fn listed(names: &Vec<&'static str>, ext: &[char]) -> (r: bool)
    ensures
        r == names@.map_values(|s: &'static str| s@).contains(ext@),
{
    let ghost views = names@.map_values(|s: &'static str| s@);
    let mut i: usize = 0;
    while i < names.len()
        invariant
            i <= names@.len(),
            views == names@.map_values(|s: &'static str| s@),
            forall|j: int| 0 <= j < i ==> views[j] != ext@,
        decreases names@.len() - i,
    {
        let c = chars_of(names[i]);
        if chars_eq(c.as_slice(), ext) {
            assert(views[i as int] == ext@);
            return true;
        }
        i = i + 1;
    }
    false
}

/// Whether this is a file the import extractor reads.
pub fn is_code_path(fqn: &str) -> (r: bool)
    ensures
        r == code_path(fqn@),
{
    let s = chars_of(fqn);
    match find_last(s.as_slice(), '.') {
        Some(i) => {
            proof {
                crate::text::lemma_last_index(s@, '.');
                assert(i < s@.len());
            }
            let len = s.len();
            let ext = slice_chars(s.as_slice(), i + 1, len);
            assert(ext@ =~= s@.skip(i as int + 1));
            listed(&candidate_extensions(), ext.as_slice())
        },
        None => false,
    }
}

/// `s` with every `::` replaced by `/`, left to right.
pub open spec fn without_double_colons(s: Seq<char>) -> Seq<char>
    decreases s.len(),
{
    if s.len() == 0 {
        s
    } else if s.len() >= 2 && s[0] == ':' && s[1] == ':' {
        seq!['/'] + without_double_colons(s.skip(2))
    } else {
        seq![s[0]] + without_double_colons(s.skip(1))
    }
}

/// A module path in the shape of a file path: `::` and `.` become `/`.
pub open spec fn dotted_as_path(raw: Seq<char>) -> Seq<char> {
    without_double_colons(raw).map_values(|c: char| if c == '.' { '/' } else { c })
}

/// One step of a relative import: `.` and empty stay, `..` climbs,
/// anything else descends.
pub open spec fn walk_step(stack: Seq<Seq<char>>, part: Seq<char>) -> Seq<Seq<char>> {
    if part.len() == 0 || part == seq!['.'] {
        stack
    } else if part == seq!['.', '.'] {
        if stack.len() > 0 {
            stack.drop_last()
        } else {
            stack
        }
    } else {
        stack.push(part)
    }
}

/// The directory stack after walking `parts` from `stack`.
pub open spec fn walk_parts(stack: Seq<Seq<char>>, parts: Seq<Seq<char>>) -> Seq<Seq<char>>
    decreases parts.len(),
{
    if parts.len() == 0 {
        stack
    } else {
        walk_step(walk_parts(stack, parts.drop_last()), parts.last())
    }
}

/// What an import written in `from_file` as `raw` names, in the shape
/// of a project path, or nothing.
///
/// A relative import (`./x`, `../x`) is resolved against the importing
/// file's directory. Any other is a module path whose separators
/// become `/`; one of a single segment names a dependency rather than
/// a file here, and gives nothing.
pub open spec fn import_target(from_file: Seq<char>, raw: Seq<char>) -> Option<Seq<char>> {
    if !(raw.len() > 0 && raw[0] == '.') {
        let m = dotted_as_path(raw);
        if fields(m, '/').len() >= 2 {
            Some(m)
        } else {
            None
        }
    } else {
        let joined = walked(from_file, raw);
        if joined.len() > 0 {
            Some(joined)
        } else {
            None
        }
    }
}

proof fn lemma_pieces_nonempty(s: Seq<char>, sep: char)
    ensures
        pieces(s, sep).len() >= 1,
    decreases s.len(),
{
    crate::text::lemma_first_index(s, sep);
    let k = first_index(s, sep);
    if k < s.len() {
        lemma_pieces_nonempty(s.skip(k as int + 1), sep);
    }
}

fn dotted_as_path_of(raw: &[char]) -> (r: Vec<char>)
    ensures
        r@ == dotted_as_path(raw@),
{
    let mut r: Vec<char> = Vec::new();
    let mut i: usize = 0;
    assert(raw@.skip(0) =~= raw@);
    assert(r@ + dotted_as_path(raw@) =~= dotted_as_path(raw@));
    while i < raw.len()
        invariant
            i <= raw@.len(),
            r@ + dotted_as_path(raw@.skip(i as int)) == dotted_as_path(raw@),
        decreases raw@.len() - i,
    {
        let ghost rest = raw@.skip(i as int);
        if i + 1 < raw.len() && raw[i] == ':' && raw[i + 1] == ':' {
            r.push('/');
            assert(rest.skip(2) =~= raw@.skip(i + 2));
            assert(dotted_as_path(rest) =~= seq!['/'] + dotted_as_path(raw@.skip(i + 2)));
            i = i + 2;
        } else {
            let c = raw[i];
            r.push(if c == '.' { '/' } else { c });
            assert(rest.skip(1) =~= raw@.skip(i + 1));
            assert(rest[0] == c);
            assert(dotted_as_path(rest) =~= seq![if c == '.' { '/' } else { c }] + dotted_as_path(raw@.skip(i + 1)));
            i = i + 1;
        }
        assert(r@ + dotted_as_path(raw@.skip(i as int)) =~= dotted_as_path(raw@));
    }
    assert(raw@.skip(raw@.len() as int) =~= Seq::<char>::empty());
    assert(r@ + Seq::<char>::empty() =~= r@);
    r
}

/// The path reached by walking `path`'s segments from the directory
/// of `from`, joined with `/`.
pub open spec fn walked(from: Seq<char>, path: Seq<char>) -> Seq<char> {
    let base = pieces(from, '/');
    join(walk_parts(base.take(base.len() - 1), pieces(path, '/')), seq!['/'])
}

/// [`walked`], built.
pub fn walk_from(from: &[char], path: &[char]) -> (r: Vec<char>)
    ensures
        r@ == walked(from@, path@),
{
    let base = split_pieces(from, '/');
    proof {
        lemma_pieces_nonempty(from@, '/');
    }
    let mut stack: Vec<Vec<char>> = Vec::new();
    let mut i: usize = 0;
    let last = base.len() - 1;
    while i < last
        invariant
            base@.len() >= 1,
            last == base@.len() - 1,
            i <= last,
            char_views(stack@) == char_views(base@).take(i as int),
        decreases base@.len() - i,
    {
        let piece = slice_chars(base[i].as_slice(), 0, base[i].len());
        assert(piece@ =~= base@[i as int]@);
        let ghost st0 = char_views(stack@);
        stack.push(piece);
        assert(char_views(stack@) =~= st0.push(piece@));
        assert(char_views(base@).take(i + 1) =~= char_views(base@).take(i as int).push(base@[i as int]@));
        i = i + 1;
    }
    let parts = split_pieces(path, '/');
    let ghost dirs = char_views(base@).take(char_views(base@).len() - 1);
    assert(char_views(stack@) =~= dirs);
    let mut k: usize = 0;
    while k < parts.len()
        invariant
            k <= parts@.len(),
            char_views(stack@) == walk_parts(dirs, char_views(parts@).take(k as int)),
        decreases parts@.len() - k,
    {
        let ghost pre = char_views(parts@).take(k + 1);
        assert(pre.drop_last() =~= char_views(parts@).take(k as int));
        assert(pre.last() == parts@[k as int]@);
        let part = &parts[k];
        let ghost st0 = char_views(stack@);
        if part.len() == 0 || (part.len() == 1 && part[0] == '.') {
            assert(part@.len() == 1 ==> part@ =~= seq!['.']);
        } else if part.len() == 2 && part[0] == '.' && part[1] == '.' {
            assert(part@ =~= seq!['.', '.']);
            if stack.len() > 0 {
                stack.pop();
                assert(char_views(stack@) =~= st0.drop_last());
            }
        } else {
            assert(part@ != seq!['.']) by {
                if part@.len() == 1 {
                    assert(part@[0] != '.');
                }
            }
            assert(part@ != seq!['.', '.']) by {
                if part@.len() == 2 {
                    assert(part@[0] != '.' || part@[1] != '.');
                }
            }
            let piece = slice_chars(part.as_slice(), 0, part.len());
            assert(piece@ =~= part@);
            stack.push(piece);
            assert(char_views(stack@) =~= st0.push(part@));
        }
        k = k + 1;
    }
    assert(char_views(parts@).take(parts@.len() as int) =~= char_views(parts@));
    let sep: Vec<char> = vec!['/'];
    let joined = join_chars(&stack, sep.as_slice());
    assert(sep@ =~= seq!['/']);
    joined
}

/// Normalises what an import names into a project path, or nothing;
/// see [`import_target`].
pub fn resolve(from_file: &str, raw: &str) -> (r: Option<String>)
    ensures
        opt_view(r) == import_target(from_file@, raw@),
{
    let rc = chars_of(raw);
    if !(rc.len() > 0 && rc[0] == '.') {
        let m = dotted_as_path_of(rc.as_slice());
        let segs = split_fields(m.as_slice(), '/');
        if segs.len() >= 2 {
            return Some(string_of_vec(&m));
        }
        return None;
    }
    let fc = chars_of(from_file);
    let joined = walk_from(fc.as_slice(), rc.as_slice());
    if joined.len() > 0 {
        Some(string_of_vec(&joined))
    } else {
        None
    }
}

/// Every path an import might have meant, in the order tried: the
/// path itself, then with each extension, then each index file
/// inside it.
pub open spec fn candidate_paths(resolved: Seq<char>) -> Seq<Seq<char>> {
    seq![resolved] + candidate_extension_names().map_values(|e: Seq<char>| resolved + seq!['.'] + e)
        + index_file_names().map_values(|f: Seq<char>| resolved + seq!['/'] + f)
}

/// Every path an import might have meant; see [`candidate_paths`].
pub fn candidates(resolved: &str) -> (r: Vec<String>)
    ensures
        crate::text::views(r@) == candidate_paths(resolved@),
{
    let base = chars_of(resolved);
    let mut out: Vec<String> = Vec::new();
    out.push(string_of_vec(&base));
    let exts = candidate_extensions();
    let ghost ev = exts@.map_values(|s: &'static str| s@);
    let mut i: usize = 0;
    while i < exts.len()
        invariant
            i <= exts@.len(),
            base@ == resolved@,
            ev == exts@.map_values(|s: &'static str| s@),
            ev == candidate_extension_names(),
            crate::text::views(out@) == seq![resolved@] + ev.take(i as int).map_values(
                |e: Seq<char>| resolved@ + seq!['.'] + e,
            ),
        decreases exts@.len() - i,
    {
        let mut p = slice_chars(base.as_slice(), 0, base.len());
        p.push('.');
        append_str(&mut p, exts[i]);
        let ghost o0 = crate::text::views(out@);
        out.push(string_of_vec(&p));
        assert(p@ =~= resolved@ + seq!['.'] + ev[i as int]);
        assert(ev.take(i + 1).map_values(|e: Seq<char>| resolved@ + seq!['.'] + e) =~= ev.take(
            i as int,
        ).map_values(|e: Seq<char>| resolved@ + seq!['.'] + e).push(resolved@ + seq!['.'] + ev[i as int]));
        assert(crate::text::views(out@) =~= o0.push(p@));
        i = i + 1;
    }
    assert(ev.take(ev.len() as int) =~= ev);
    let ghost mid = crate::text::views(out@);
    let idx = index_files();
    let ghost iv = idx@.map_values(|s: &'static str| s@);
    let mut j: usize = 0;
    while j < idx.len()
        invariant
            j <= idx@.len(),
            base@ == resolved@,
            iv == idx@.map_values(|s: &'static str| s@),
            iv == index_file_names(),
            crate::text::views(out@) == mid + iv.take(j as int).map_values(
                |f: Seq<char>| resolved@ + seq!['/'] + f,
            ),
        decreases idx@.len() - j,
    {
        let mut p = slice_chars(base.as_slice(), 0, base.len());
        p.push('/');
        append_str(&mut p, idx[j]);
        let ghost o0 = crate::text::views(out@);
        out.push(string_of_vec(&p));
        assert(p@ =~= resolved@ + seq!['/'] + iv[j as int]);
        assert(iv.take(j + 1).map_values(|f: Seq<char>| resolved@ + seq!['/'] + f) =~= iv.take(
            j as int,
        ).map_values(|f: Seq<char>| resolved@ + seq!['/'] + f).push(resolved@ + seq!['/'] + iv[j as int]));
        assert(crate::text::views(out@) =~= o0.push(p@));
        j = j + 1;
    }
    assert(iv.take(iv.len() as int) =~= iv);
    out
}

/// An import of a path is looked for first as the path itself, then
/// with each source extension (`x.py`, `x.rs`, `x.ts`, ...), then as a
/// directory holding `index.ts`, `index.tsx`, `index.js`, `mod.rs` or
/// `__init__.py`.
pub proof fn law_candidates_cover_extensions_and_index_files(resolved: Seq<char>)
    ensures
        candidate_paths(resolved) == seq![
            resolved,
            resolved + seq!['.'] + "rs"@,
            resolved + seq!['.'] + "ts"@,
            resolved + seq!['.'] + "tsx"@,
            resolved + seq!['.'] + "js"@,
            resolved + seq!['.'] + "jsx"@,
            resolved + seq!['.'] + "mjs"@,
            resolved + seq!['.'] + "py"@,
            resolved + seq!['.'] + "go"@,
            resolved + seq!['.'] + "rb"@,
            resolved + seq!['.'] + "java"@,
            resolved + seq!['.'] + "kt"@,
            resolved + seq!['.'] + "c"@,
            resolved + seq!['.'] + "h"@,
            resolved + seq!['.'] + "cpp"@,
            resolved + seq!['.'] + "hpp"@,
            resolved + seq!['.'] + "php"@,
            resolved + seq!['.'] + "vue"@,
            resolved + seq!['.'] + "svelte"@,
            resolved + seq!['/'] + "index.ts"@,
            resolved + seq!['/'] + "index.tsx"@,
            resolved + seq!['/'] + "index.js"@,
            resolved + seq!['/'] + "mod.rs"@,
            resolved + seq!['/'] + "__init__.py"@,
        ],
{
    let c = candidate_paths(resolved);
    let l = seq![
        resolved,
        resolved + seq!['.'] + "rs"@,
        resolved + seq!['.'] + "ts"@,
        resolved + seq!['.'] + "tsx"@,
        resolved + seq!['.'] + "js"@,
        resolved + seq!['.'] + "jsx"@,
        resolved + seq!['.'] + "mjs"@,
        resolved + seq!['.'] + "py"@,
        resolved + seq!['.'] + "go"@,
        resolved + seq!['.'] + "rb"@,
        resolved + seq!['.'] + "java"@,
        resolved + seq!['.'] + "kt"@,
        resolved + seq!['.'] + "c"@,
        resolved + seq!['.'] + "h"@,
        resolved + seq!['.'] + "cpp"@,
        resolved + seq!['.'] + "hpp"@,
        resolved + seq!['.'] + "php"@,
        resolved + seq!['.'] + "vue"@,
        resolved + seq!['.'] + "svelte"@,
        resolved + seq!['/'] + "index.ts"@,
        resolved + seq!['/'] + "index.tsx"@,
        resolved + seq!['/'] + "index.js"@,
        resolved + seq!['/'] + "mod.rs"@,
        resolved + seq!['/'] + "__init__.py"@,
    ];
    assert(c[1] == l[1]);
    assert(c[2] == l[2]);
    assert(c[3] == l[3]);
    assert(c[4] == l[4]);
    assert(c[5] == l[5]);
    assert(c[6] == l[6]);
    assert(c[7] == l[7]);
    assert(c[8] == l[8]);
    assert(c[9] == l[9]);
    assert(c[10] == l[10]);
    assert(c[11] == l[11]);
    assert(c[12] == l[12]);
    assert(c[13] == l[13]);
    assert(c[14] == l[14]);
    assert(c[15] == l[15]);
    assert(c[16] == l[16]);
    assert(c[17] == l[17]);
    assert(c[18] == l[18]);
    assert(c[19] == l[19]);
    assert(c[20] == l[20]);
    assert(c[21] == l[21]);
    assert(c[22] == l[22]);
    assert(c[23] == l[23]);
    assert(c =~= l);
}

/// The import patterns, tried in this order: `import … from "x"`,
/// Python's `from x import`, `require("x")`, Rust's `use x`,
/// `#include "x"`, C#'s `using x;`.
pub open spec fn import_patterns() -> Seq<Seq<char>> {
    seq![
        "^\\s*import\\s+(?:.*?\\s+from\\s+)?['\"]([^'\"]+)['\"]"@,
        "^\\s*from\\s+([\\w./]+)\\s+import\\s"@,
        "require\\(\\s*['\"]([^'\"]+)['\"]\\s*\\)"@,
        "^\\s*(?:pub\\s+)?use\\s+([\\w:]+)"@,
        "^\\s*#\\s*include\\s+[\"<]([^\">]+)[\">]"@,
        "^\\s*using\\s+([\\w.]+)\\s*;"@,
    ]
}

/// What the first capture group of `pattern`'s leftmost match in
/// `line` holds, if the pattern compiles, matches, and the group took
/// part in the match.
pub uninterp spec fn pattern_capture(pattern: Seq<char>, line: Seq<char>) -> Option<Seq<char>>;

/// `regex::Regex::new(pattern)`, then `captures(line)` and group 1 of
/// the match. The contract names the result and says nothing of the
/// regular-expression semantics.
#[verifier::external_body]
fn first_capture(pattern: &str, line: &str) -> (r: Option<String>)
    ensures
        opt_view(r) == pattern_capture(pattern@, line@),
{
    match regex::Regex::new(pattern) {
        Ok(re) => match re.captures(line) {
            Some(c) => match c.get(1) {
                Some(m) => Some(m.as_str().to_owned()),
                None => None,
            },
            None => None,
        },
        Err(_) => None,
    }
}

/// Whether a line holds one of the words every import statement
/// contains; a cheap test before the patterns.
pub open spec fn mentions_import(line: Seq<char>) -> bool {
    crate::text::contains_text(line, "import"@) || crate::text::contains_text(line, "require"@)
        || crate::text::contains_text(line, "use "@) || crate::text::contains_text(line, "include"@)
        || crate::text::contains_text(line, "using"@)
}

/// The project path the first pattern from `k` on that captures
/// something resolvable names.
pub open spec fn line_import(path: Seq<char>, line: Seq<char>, k: nat) -> Option<Seq<char>>
    decreases import_patterns().len() - k,
{
    if k >= import_patterns().len() {
        None
    } else {
        match pattern_capture(import_patterns()[k as int], line) {
            Some(raw) => match import_target(path, raw) {
                Some(t) => Some(t),
                None => line_import(path, line, k + 1),
            },
            None => line_import(path, line, k + 1),
        }
    }
}

/// The import edges of a file's lines: at most one per line, from the
/// file to what the line imports, at its line number.
pub open spec fn import_edges(path: Seq<char>, ls: Seq<Seq<char>>) -> Seq<ExtractedEdgeV>
    decreases ls.len(),
{
    if ls.len() == 0 {
        Seq::empty()
    } else {
        let rest = import_edges(path, ls.drop_last());
        let line = ls.last();
        if mentions_import(line) {
            match line_import(path, line, 0) {
                Some(t) => rest.push((path, t, EdgePredicate::Imports, path, count_i64(ls.len()))),
                None => rest,
            }
        } else {
            rest
        }
    }
}

/// Whether an extension is one prose is written in.
pub open spec fn prose_extension(ext: Seq<char>) -> bool {
    ext == "md"@ || ext == "markdown"@ || ext == "mdx"@ || ext == "txt"@ || ext == ""@
}

/// Import statements, matched by patterns that hold across languages.
pub struct ImportsExtractor {
    patterns: Vec<&'static str>,
}

impl ImportsExtractor {
    /// The extractor with the six import patterns.
    pub fn new() -> (r: Self)
        ensures
            r.pattern_texts() == import_patterns(),
    {
        let patterns: Vec<&'static str> = vec![
            "^\\s*import\\s+(?:.*?\\s+from\\s+)?['\"]([^'\"]+)['\"]",
            "^\\s*from\\s+([\\w./]+)\\s+import\\s",
            "require\\(\\s*['\"]([^'\"]+)['\"]\\s*\\)",
            "^\\s*(?:pub\\s+)?use\\s+([\\w:]+)",
            "^\\s*#\\s*include\\s+[\"<]([^\">]+)[\">]",
            "^\\s*using\\s+([\\w.]+)\\s*;",
        ];
        assert(patterns@.map_values(|p: &'static str| p@) =~= import_patterns());
        ImportsExtractor { patterns }
    }

    /// The patterns this extractor tries, in order.
    pub closed spec fn pattern_texts(&self) -> Seq<Seq<char>> {
        self.patterns@.map_values(|p: &'static str| p@)
    }

    #[verifier::type_invariant]
    closed spec fn the_import_patterns(self) -> bool {
        self.pattern_texts() == import_patterns()
    }
}

impl Default for ImportsExtractor {
    fn default() -> (r: Self)
        ensures
            r.pattern_texts() == import_patterns(),
    {
        ImportsExtractor::new()
    }
}

fn line_import_of(patterns: &Vec<&'static str>, path: &str, line: &str) -> (r: Option<String>)
    requires
        patterns@.map_values(|p: &'static str| p@) == import_patterns(),
    ensures
        opt_view(r) == line_import(path@, line@, 0),
{
    let mut k: usize = 0;
    while k < patterns.len()
        invariant
            k <= patterns@.len(),
            patterns@.map_values(|p: &'static str| p@) == import_patterns(),
            line_import(path@, line@, 0) == line_import(path@, line@, k as nat),
        decreases patterns@.len() - k,
    {
        assert(import_patterns()[k as int] == patterns@[k as int]@);
        match first_capture(patterns[k], line) {
            Some(raw) => match resolve(path, raw.as_str()) {
                Some(t) => {
                    return Some(t);
                },
                None => {},
            },
            None => {},
        }
        k = k + 1;
    }
    None
}

impl crate::graph::extract::Extractor for ImportsExtractor {
    fn name(&self) -> (r: &'static str)
        ensures
            r@ == "imports"@,
    {
        "imports"
    }

    fn handles(&self, file: &crate::graph::extract::FileContext) -> (r: bool)
        ensures
            r == !prose_extension(file.extension@),
    {
        !(crate::text::str_eq(file.extension, "md") || crate::text::str_eq(file.extension, "markdown")
            || crate::text::str_eq(file.extension, "mdx") || crate::text::str_eq(file.extension, "txt")
            || crate::text::str_eq(file.extension, ""))
    }

    fn extract(&self, file: &crate::graph::extract::FileContext) -> (r: FileExtraction)
        ensures
            r.nodes@.len() == 0,
            edge_views(r.edges@) == import_edges(file.relative_path@, crate::text::lines(file.content@)),
    {
        proof {
            use_type_invariant(self);
        }
        let content = chars_of(file.content);
        let ls = crate::text::split_lines(content.as_slice());
        let ghost lv = char_views(ls@);
        let ghost ph = file.relative_path@;
        let words: Vec<Vec<char>> = vec![
            chars_of("import"),
            chars_of("require"),
            chars_of("use "),
            chars_of("include"),
            chars_of("using"),
        ];
        let mut edges: Vec<ExtractedEdge> = Vec::new();
        let mut i: usize = 0;
        assert(lv.take(0) =~= Seq::<Seq<char>>::empty());
        assert(edge_views(edges@) =~= Seq::<ExtractedEdgeV>::empty());
        while i < ls.len()
            invariant
                i <= ls@.len(),
                lv == char_views(ls@),
                ph == file.relative_path@,
                self.patterns@.map_values(|p: &'static str| p@) == import_patterns(),
                words@.len() == 5,
                words@[0]@ == "import"@,
                words@[1]@ == "require"@,
                words@[2]@ == "use "@,
                words@[3]@ == "include"@,
                words@[4]@ == "using"@,
                edge_views(edges@) == import_edges(ph, lv.take(i as int)),
            decreases ls@.len() - i,
        {
            let line = &ls[i];
            assert(lv.take(i + 1).drop_last() =~= lv.take(i as int));
            assert(lv.take(i + 1).last() == line@);
            let mentions = crate::text::chars_contain_text(line.as_slice(), words[0].as_slice())
                || crate::text::chars_contain_text(line.as_slice(), words[1].as_slice())
                || crate::text::chars_contain_text(line.as_slice(), words[2].as_slice())
                || crate::text::chars_contain_text(line.as_slice(), words[3].as_slice())
                || crate::text::chars_contain_text(line.as_slice(), words[4].as_slice());
            if mentions {
                let text = string_of_vec(line);
                match line_import_of(&self.patterns, file.relative_path, text.as_str()) {
                    Some(target) => {
                        let ghost e0 = edge_views(edges@);
                        let line_no = crate::graph::extract::markdown::count_to_i64(i + 1);
                        edges.push(
                            ExtractedEdge {
                                src_fqn: string_of_vec(&chars_of(file.relative_path)),
                                dst_fqn: target,
                                predicate: EdgePredicate::Imports,
                                file_path: string_of_vec(&chars_of(file.relative_path)),
                                line: line_no,
                            },
                        );
                        assert(edge_views(edges@) =~= e0.push(
                            (ph, line_import(ph, line@, 0)->0, EdgePredicate::Imports, ph, count_i64((i + 1) as nat)),
                        ));
                    },
                    None => {},
                }
            }
            i = i + 1;
        }
        assert(lv.take(lv.len() as int) =~= lv);
        FileExtraction { nodes: Vec::new(), edges }
    }
}

} // verus!
