//! What the walker keeps.
//!
//! Exclusion is layered: ignore files first (the walker's own job),
//! then a fixed list of directories applied whatever the ignore files
//! say, so a repository that forgets to ignore `node_modules` does not
//! produce a graph that is mostly `node_modules`; then lockfiles, a
//! size cap, and binary detection by a null byte.

use vstd::prelude::*;

use crate::sort::{keyed, sort_by_key, stable_sort, text_key, text_key_of};
use crate::text::{chars_of, join, join_chars, pieces, split_pieces, string_of};

verus! {

/// A file worth indexing.
#[derive(Clone, Debug)]
pub struct DiscoveredFile {
    /// Where it is on this machine.
    pub absolute_path: String,
    /// Relative to the project root, always `/`-separated so the same
    /// file has the same identity on every platform.
    pub relative_path: String,
    pub extension: String,
}

/// Past this many bytes a file is generated, vendored or data.
pub const MAX_FILE_BYTES: u64 = 1_000_000;

/// How much of a file is searched for a null byte.
pub const BINARY_SNIFF_BYTES: usize = 8_000;

/// The directories always skipped, whatever the ignore files say.
pub open spec fn blacklist_dirs() -> Seq<Seq<char>> {
    seq![
        ".git"@,
        "target"@,
        "node_modules"@,
        "dist"@,
        "build"@,
        ".venv"@,
        "venv"@,
        "__pycache__"@,
        ".next"@,
        ".nuxt"@,
        ".cache"@,
        "vendor"@,
        "coverage"@,
    ]
}

/// Lockfiles and similar: large, generated, and nothing anyone asks
/// about.
pub open spec fn blacklist_files() -> Seq<Seq<char>> {
    seq![
        "Cargo.lock"@,
        "package-lock.json"@,
        "pnpm-lock.yaml"@,
        "yarn.lock"@,
        "poetry.lock"@,
        "composer.lock"@,
        "Gemfile.lock"@,
    ]
}

fn blacklist_dir_names() -> (r: Vec<&'static str>)
    ensures
        r@.map_values(|s: &'static str| s@) == blacklist_dirs(),
{
    let r: Vec<&'static str> = vec![
        ".git",
        "target",
        "node_modules",
        "dist",
        "build",
        ".venv",
        "venv",
        "__pycache__",
        ".next",
        ".nuxt",
        ".cache",
        "vendor",
        "coverage",
    ];
    assert(r@.map_values(|s: &'static str| s@) =~= blacklist_dirs());
    r
}

fn blacklist_file_names() -> (r: Vec<&'static str>)
    ensures
        r@.map_values(|s: &'static str| s@) == blacklist_files(),
{
    let r: Vec<&'static str> = vec![
        "Cargo.lock",
        "package-lock.json",
        "pnpm-lock.yaml",
        "yarn.lock",
        "poetry.lock",
        "composer.lock",
        "Gemfile.lock",
    ];
    assert(r@.map_values(|s: &'static str| s@) =~= blacklist_files());
    r
}

fn listed_name(list: &Vec<&'static str>, name: &[char]) -> (r: bool)
    ensures
        r == list@.map_values(|s: &'static str| s@).contains(name@),
{
    let ghost lv = list@.map_values(|s: &'static str| s@);
    let mut i: usize = 0;
    while i < list.len()
        invariant
            i <= list@.len(),
            lv == list@.map_values(|s: &'static str| s@),
            forall|j: int| 0 <= j < i ==> lv[j] != name@,
        decreases list@.len() - i,
    {
        let entry = chars_of(list[i]);
        if crate::text::chars_eq(entry.as_slice(), name) {
            assert(lv[i as int] == name@);
            return true;
        }
        i = i + 1;
    }
    false
}

/// Whether a directory name is always skipped.
pub fn is_blacklisted_dir(name: &str) -> (r: bool)
    ensures
        r == blacklist_dirs().contains(name@),
{
    let list = blacklist_dir_names();
    let n = chars_of(name);
    listed_name(&list, n.as_slice())
}

/// Whether a file name is always skipped.
pub fn is_blacklisted_file(name: &str) -> (r: bool)
    ensures
        r == blacklist_files().contains(name@),
{
    let list = blacklist_file_names();
    let n = chars_of(name);
    listed_name(&list, n.as_slice())
}

/// Whether a `/`-separated path lies under a directory the walker
/// never indexes.
///
/// The watcher needs the answer per event rather than per tree: a
/// build writes thousands of files under `target/`, and a watcher that
/// does not filter them reindexes for as long as the build runs. Only
/// the directory list is consulted, not the ignore files: a file that
/// only `.gitignore` excludes triggers a reindex that then correctly
/// leaves it out.
pub fn is_ignored_path(path: &str) -> (r: bool)
    ensures
        r == exists|i: int|
            0 <= i < pieces(path@, '/').len() && blacklist_dirs().contains(
                #[trigger] pieces(path@, '/')[i],
            ),
{
    let p = chars_of(path);
    let parts = split_pieces(p.as_slice(), '/');
    let ghost pv = crate::text::char_views(parts@);
    let list = blacklist_dir_names();
    let mut i: usize = 0;
    while i < parts.len()
        invariant
            i <= parts@.len(),
            pv == crate::text::char_views(parts@),
            pv == pieces(path@, '/'),
            list@.map_values(|s: &'static str| s@) == blacklist_dirs(),
            forall|j: int| 0 <= j < i ==> !blacklist_dirs().contains(#[trigger] pv[j]),
        decreases parts@.len() - i,
    {
        if listed_name(&list, parts[i].as_slice()) {
            assert(blacklist_dirs().contains(pv[i as int]));
            return true;
        }
        i = i + 1;
    }
    false
}

/// Whether bytes hold a null byte: the test git itself uses for a
/// binary file.
pub fn has_null_byte(bytes: &[u8]) -> (r: bool)
    ensures
        r == bytes@.contains(0u8),
{
    let mut i: usize = 0;
    while i < bytes.len()
        invariant
            i <= bytes@.len(),
            forall|j: int| 0 <= j < i ==> bytes@[j] != 0u8,
        decreases bytes@.len() - i,
    {
        if bytes[i] == 0 {
            assert(bytes@[i as int] == 0u8);
            return true;
        }
        i = i + 1;
    }
    false
}

/// Whether a regular file is worth indexing: not a lockfile, not past
/// [`MAX_FILE_BYTES`], not binary.
pub fn admits(name: &str, bytes: u64, binary: bool) -> (r: bool)
    ensures
        r == (!blacklist_files().contains(name@) && bytes <= MAX_FILE_BYTES && !binary),
{
    !is_blacklisted_file(name) && bytes <= MAX_FILE_BYTES && !binary
}

/// A path's components joined with `/`.
pub fn relative_path_of(components: &Vec<String>) -> (r: String)
    ensures
        r@ == join(crate::text::views(components@), seq!['/']),
{
    let mut parts: Vec<Vec<char>> = Vec::new();
    let mut i: usize = 0;
    while i < components.len()
        invariant
            i <= components@.len(),
            crate::text::char_views(parts@) == crate::text::views(components@).take(i as int),
        decreases components@.len() - i,
    {
        let ghost before = crate::text::char_views(parts@);
        let c = chars_of(components[i].as_str());
        parts.push(c);
        assert(crate::text::char_views(parts@) =~= before.push(components@[i as int]@));
        i = i + 1;
        assert(crate::text::char_views(parts@) =~= crate::text::views(components@).take(i as int));
    }
    assert(crate::text::views(components@).take(i as int) =~= crate::text::views(components@));
    let mut sep: Vec<char> = Vec::new();
    sep.push('/');
    let j = join_chars(&parts, sep.as_slice());
    string_of(j.as_slice())
}

/// The files keyed by their relative paths.
pub open spec fn by_path(files: Seq<DiscoveredFile>) -> Seq<(Seq<u64>, DiscoveredFile)> {
    files.map_values(|f: DiscoveredFile| (text_key(f.relative_path@), f))
}

/// The files in the order of their relative paths, stably.
pub fn sort_discovered(files: Vec<DiscoveredFile>) -> (r: Vec<DiscoveredFile>)
    ensures
        r@ == stable_sort(by_path(files@)).map_values(|e: (Seq<u64>, DiscoveredFile)| e.1),
{
    let ghost input = files@;
    let mut files = files;
    let mut entries: Vec<(Vec<u64>, DiscoveredFile)> = Vec::new();
    let mut consumed: usize = 0;
    let n = files.len();
    while files.len() > 0
        invariant
            files@.len() + consumed == n,
            n == input.len(),
            files@ == input.skip(consumed as int),
            keyed(entries@) == by_path(input.take(consumed as int)),
        decreases files@.len(),
    {
        let f = files.remove(0);
        let p = chars_of(f.relative_path.as_str());
        let k = text_key_of(p.as_slice());
        let ghost before = keyed(entries@);
        entries.push((k, f));
        assert(keyed(entries@) =~= before.push((text_key(f.relative_path@), f)));
        assert(input.skip(consumed as int)[0] == f);
        assert(input.take(consumed + 1) =~= input.take(consumed as int).push(f));
        assert(files@ =~= input.skip(consumed + 1));
        consumed = consumed + 1;
    }
    assert(input.take(consumed as int) =~= input);
    let sorted = sort_by_key(entries);
    let ghost sv = keyed(sorted@);
    let mut sorted = sorted;
    let mut out: Vec<DiscoveredFile> = Vec::new();
    let total = sorted.len();
    let mut taken: usize = 0;
    while sorted.len() > 0
        invariant
            sorted@.len() + taken == total,
            total == sv.len(),
            keyed(sorted@) == sv.skip(taken as int),
            out@ == sv.take(taken as int).map_values(|e: (Seq<u64>, DiscoveredFile)| e.1),
        decreases sorted@.len(),
    {
        let ghost s0 = sorted@;
        let e = sorted.remove(0);
        assert(keyed(s0)[0] == sv[taken as int]);
        assert(keyed(sorted@) =~= sv.skip(taken + 1)) by {
            assert forall|j: int| 0 <= j < sorted@.len() implies keyed(sorted@)[j] == sv.skip(
                taken + 1,
            )[j] by {
                assert(sorted@[j] == s0[j + 1]);
                assert(keyed(s0)[j + 1] == sv.skip(taken as int)[j + 1]);
            }
        }
        let ghost o0 = out@;
        out.push(e.1);
        assert(out@ =~= sv.take(taken + 1).map_values(|e: (Seq<u64>, DiscoveredFile)| e.1));
        taken = taken + 1;
    }
    assert(sv.take(taken as int) =~= sv);
    out
}

} // verus!
