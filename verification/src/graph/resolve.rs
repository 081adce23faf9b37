//! Turning what the extractors found into a graph: ids for nodes, and
//! edge targets resolved against every node of the project.
//!
//! Resolution lives here, not in extractors. Only this stage has seen
//! every file, so only it can tell a target that names a real node
//! from a string that merely looks like one.
//!
//! Everything that is not an import must name a node exactly. Imports
//! get three more chances, because an import rarely names a path
//! exactly: extension and index-file candidates, a match on the
//! trailing path segments, and dropping trailing segments that name a
//! symbol rather than a file. Guessing more widely would resolve more
//! edges and some of them would be wrong; an ambiguous match resolves
//! to nothing.

use vstd::prelude::*;

use crate::graph::extract::imports::{candidate_paths, candidates};
use crate::graph::model::{EdgePredicate, NodeKind};
use crate::graph::model::{ExtractedEdge, ExtractedEdgeV, ExtractedNode, FileExtraction, IndexStats, edge_views};
use crate::graph::rows::{EdgeRow, EdgeRowV, NodeRow, edge_row_views};
use crate::text::{
    char_views, chars_eq, chars_of, find_last, join, join_chars, last_index, pieces, slice_chars,
    split_pieces,
};

verus! {

/// The id of the last node with identity `fqn`: a later node with the
/// same identity takes the place of an earlier one.
pub open spec fn id_for(nodes: Seq<NodeRow>, fqn: Seq<char>) -> Option<Seq<char>>
    decreases nodes.len(),
{
    if nodes.len() == 0 {
        None
    } else if nodes.last().fqn@ == fqn {
        Some(nodes.last().id@)
    } else {
        id_for(nodes.drop_last(), fqn)
    }
}

/// `s` up to its last dot: a path without its extension, a file name
/// without its suffix. Unchanged when there is no dot.
pub open spec fn stem_of(s: Seq<char>) -> Seq<char> {
    match last_index(s, '.') {
        Some(k) => s.take(k as int),
        None => s,
    }
}

/// The path separator, as a one-character text.
pub open spec fn slash() -> Seq<char> {
    seq!['/']
}

/// Whether a path segment names a directory's own module file.
pub open spec fn index_module(seg: Seq<char>) -> bool {
    seg == seq!['m', 'o', 'd'] || seg == seq!['i', 'n', 'd', 'e', 'x'] || seg == seq![
        '_',
        '_',
        'i',
        'n',
        'i',
        't',
        '_',
        '_',
    ]
}

/// The module paths a file answers to: its path without extension,
/// and for `a/b/mod.rs` (or `index`, `__init__`) also `a/b`, which is
/// what `a::b` means.
pub open spec fn module_forms(fqn: Seq<char>) -> Seq<Seq<char>> {
    let s = stem_of(fqn);
    let segs = pieces(s, '/');
    if segs.len() > 1 && index_module(segs.last()) {
        seq![s, join(segs.drop_last(), slash())]
    } else {
        seq![s]
    }
}

/// Every trailing run of whole segments of a path, longest first.
pub open spec fn tails(form: Seq<char>) -> Seq<Seq<char>> {
    let parts = pieces(form, '/');
    Seq::new(parts.len(), |i: int| join(parts.skip(i), slash()))
}

/// Every trailing path fragment a file can be found by.
pub open spec fn all_suffixes(fqn: Seq<char>) -> Seq<Seq<char>> {
    let f = module_forms(fqn);
    if f.len() == 2 {
        tails(f[0]) + tails(f[1])
    } else {
        tails(f[0])
    }
}

/// Whether a list of (id, identity) pairs holds `id`.
pub open spec fn has_id(b: Seq<(Seq<char>, Seq<char>)>, id: Seq<char>) -> bool {
    exists|i: int| 0 <= i < b.len() && (#[trigger] b[i]).0 == id
}

/// The files that end in the fragment `x`, as (id, identity), in node
/// order, each id once.
pub open spec fn bucket(nodes: Seq<NodeRow>, x: Seq<char>) -> Seq<(Seq<char>, Seq<char>)>
    decreases nodes.len(),
{
    if nodes.len() == 0 {
        Seq::empty()
    } else {
        let b = bucket(nodes.drop_last(), x);
        let n = nodes.last();
        if n.kind == NodeKind::File && all_suffixes(n.fqn@).contains(x) && !has_id(b, n.id@) {
            b.push((n.id@, n.fqn@))
        } else {
            b
        }
    }
}

/// Whether `p` is a directory name or file stem somewhere in the
/// project.
pub open spec fn project_segment(nodes: Seq<NodeRow>, p: Seq<char>) -> bool {
    &&& p.len() > 0
    &&& exists|i: int, k: int|
        0 <= i < nodes.len() && 0 <= k < pieces(nodes[i].fqn@, '/').len() && #[trigger] stem_of(
            pieces(nodes[i].fqn@, '/')[k],
        ) == p
}

/// Whether a list of texts holds `q`.
pub open spec fn listed(list: Seq<Vec<char>>, q: Seq<char>) -> bool {
    exists|j: int| 0 <= j < list.len() && (#[trigger] list[j])@ == q
}

/// Whether entry `i` of the columns was read from node `i`.
pub open spec fn row_read(
    ids: Seq<Vec<char>>,
    fqns: Seq<Vec<char>>,
    files: Seq<bool>,
    suffixes: Seq<Vec<Vec<char>>>,
    nodes: Seq<NodeRow>,
    i: int,
) -> bool {
    &&& ids[i]@ == nodes[i].id@
    &&& fqns[i]@ == nodes[i].fqn@
    &&& files[i] == (nodes[i].kind == NodeKind::File)
    &&& files[i] ==> char_views(suffixes[i]@) == all_suffixes(nodes[i].fqn@)
}

/// The nodes of a project, read once for every lookup.
pub struct NodeTable {
    ids: Vec<Vec<char>>,
    fqns: Vec<Vec<char>>,
    files: Vec<bool>,
    suffixes: Vec<Vec<Vec<char>>>,
    segments: Vec<Vec<char>>,
}

impl NodeTable {
    /// Whether the table was read from `nodes`.
    pub closed spec fn reads(&self, nodes: Seq<NodeRow>) -> bool {
        &&& self.ids@.len() == nodes.len()
        &&& self.fqns@.len() == nodes.len()
        &&& self.files@.len() == nodes.len()
        &&& self.suffixes@.len() == nodes.len()
        &&& forall|i: int|
            0 <= i < nodes.len() ==> #[trigger] row_read(
                self.ids@,
                self.fqns@,
                self.files@,
                self.suffixes@,
                nodes,
                i,
            )
        &&& forall|p: Seq<char>| #[trigger] listed(self.segments@, p) <==> project_segment(nodes, p)
    }
}

fn stem_chars(s: &[char]) -> (r: Vec<char>)
    ensures
        r@ == stem_of(s@),
{
    proof {
        crate::text::lemma_last_index(s@, '.');
    }
    match find_last(s, '.') {
        Some(k) => slice_chars(s, 0, k),
        None => slice_chars(s, 0, s.len()),
    }
}

fn copy_chars(s: &Vec<char>) -> (r: Vec<char>)
    ensures
        r@ == s@,
{
    slice_chars(s.as_slice(), 0, s.len())
}

fn slash_chars() -> (r: Vec<char>)
    ensures
        r@ == slash(),
{
    let mut r: Vec<char> = Vec::new();
    r.push('/');
    r
}

/// The segments `parts[from..]`, copied.
fn tail_of(parts: &Vec<Vec<char>>, from: usize) -> (r: Vec<Vec<char>>)
    requires
        from <= parts@.len(),
    ensures
        char_views(r@) == char_views(parts@).skip(from as int),
{
    let mut r: Vec<Vec<char>> = Vec::new();
    let mut j = from;
    while j < parts.len()
        invariant
            from <= j <= parts@.len(),
            char_views(r@) == char_views(parts@).subrange(from as int, j as int),
        decreases parts@.len() - j,
    {
        let ghost before = char_views(r@);
        let c = copy_chars(&parts[j]);
        r.push(c);
        assert(char_views(r@) =~= before.push(parts@[j as int]@));
        j = j + 1;
        assert(char_views(r@) =~= char_views(parts@).subrange(from as int, j as int));
    }
    assert(char_views(parts@).subrange(from as int, parts@.len() as int) =~= char_views(
        parts@,
    ).skip(from as int));
    r
}

fn tails_of(form: &[char]) -> (r: Vec<Vec<char>>)
    ensures
        char_views(r@) == tails(form@),
{
    let parts = split_pieces(form, '/');
    let sep = slash_chars();
    let mut r: Vec<Vec<char>> = Vec::new();
    let mut i: usize = 0;
    while i < parts.len()
        invariant
            i <= parts@.len(),
            char_views(parts@) == pieces(form@, '/'),
            sep@ == slash(),
            char_views(r@) == tails(form@).take(i as int),
        decreases parts@.len() - i,
    {
        let rest = tail_of(&parts, i);
        let t = join_chars(&rest, sep.as_slice());
        let ghost before = char_views(r@);
        r.push(t);
        assert(char_views(r@) =~= before.push(t@));
        assert(t@ == tails(form@)[i as int]);
        i = i + 1;
        assert(char_views(r@) =~= tails(form@).take(i as int));
    }
    assert(tails(form@).take(i as int) =~= tails(form@));
    r
}

fn is_index_module(seg: &[char]) -> (r: bool)
    ensures
        r == index_module(seg@),
{
    let l = seg.len();
    if l == 3 {
        seg[0] == 'm' && seg[1] == 'o' && seg[2] == 'd'
            && {
            assert(seg@ =~= seq!['m', 'o', 'd']);
            true
        }
    } else if l == 5 {
        seg[0] == 'i' && seg[1] == 'n' && seg[2] == 'd' && seg[3] == 'e' && seg[4] == 'x'
            && {
            assert(seg@ =~= seq!['i', 'n', 'd', 'e', 'x']);
            true
        }
    } else if l == 8 {
        seg[0] == '_' && seg[1] == '_' && seg[2] == 'i' && seg[3] == 'n' && seg[4] == 'i' && seg[5]
            == 't' && seg[6] == '_' && seg[7] == '_' && {
            assert(seg@ =~= seq!['_', '_', 'i', 'n', 'i', 't', '_', '_']);
            true
        }
    } else {
        false
    }
}

/// Every trailing fragment a file can be found by; see [`all_suffixes`].
fn suffixes_of(fqn: &[char]) -> (r: Vec<Vec<char>>)
    ensures
        char_views(r@) == all_suffixes(fqn@),
{
    let s = stem_chars(fqn);
    let segs = split_pieces(s.as_slice(), '/');
    let mut r = tails_of(s.as_slice());
    let n = segs.len();
    if n > 1 && is_index_module(segs[n - 1].as_slice()) {
        let parent = tail_of(&segs, 0);
        assert(char_views(segs@).skip(0) =~= char_views(segs@));
        assert(parent@.len() == n);
        let mut front: Vec<Vec<char>> = Vec::new();
        let mut j: usize = 0;
        while j < n - 1
            invariant
                j <= n - 1,
                n == segs@.len(),
                char_views(parent@) == char_views(segs@),
                parent@.len() == n,
                char_views(front@) == char_views(segs@).take(j as int),
            decreases n - 1 - j,
        {
            let ghost before = char_views(front@);
            let c = copy_chars(&parent[j]);
            front.push(c);
            assert(char_views(front@) =~= before.push(parent@[j as int]@));
            assert(parent@[j as int]@ == char_views(parent@)[j as int]);
            j = j + 1;
            assert(char_views(front@) =~= char_views(segs@).take(j as int));
        }
        assert(char_views(segs@).take(n - 1) =~= char_views(segs@).drop_last());
        let sep = slash_chars();
        let p = join_chars(&front, sep.as_slice());
        let more = tails_of(p.as_slice());
        let ghost r0 = char_views(r@);
        let mut k: usize = 0;
        while k < more.len()
            invariant
                k <= more@.len(),
                char_views(r@) == r0 + char_views(more@).take(k as int),
            decreases more@.len() - k,
        {
            let ghost before = char_views(r@);
            let c = copy_chars(&more[k]);
            r.push(c);
            assert(char_views(r@) =~= before.push(more@[k as int]@));
            k = k + 1;
            assert(char_views(r@) =~= r0 + char_views(more@).take(k as int));
        }
        assert(char_views(more@).take(k as int) =~= char_views(more@));
    }
    r
}

fn is_file(k: NodeKind) -> (r: bool)
    ensures
        r == (k == NodeKind::File),
{
    match k {
        NodeKind::File => true,
        NodeKind::Section => false,
    }
}

/// Adds `p` to `list` unless it is there.
fn add_distinct(list: &mut Vec<Vec<char>>, p: Vec<char>)
    ensures
        forall|q: Seq<char>| #[trigger] listed(final(list)@, q) <==> (listed(old(list)@, q) || q == p@),
{
    let mut j: usize = 0;
    while j < list.len()
        invariant
            j <= list@.len(),
            forall|i: int| 0 <= i < j ==> (#[trigger] list@[i])@ != p@,
        decreases list@.len() - j,
    {
        if chars_eq(list[j].as_slice(), p.as_slice()) {
            return;
        }
        j = j + 1;
    }
    let ghost before = list@;
    list.push(p);
    proof {
        assert forall|q: Seq<char>| listed(list@, q) implies (listed(before, q) || q == list@.last()@) by {
            let i = choose|i: int| 0 <= i < list@.len() && (#[trigger] list@[i])@ == q;
            if i < before.len() {
                assert(before[i] == list@[i]);
            }
        }
        assert forall|q: Seq<char>| (listed(before, q) || q == list@.last()@) implies listed(list@, q) by {
            if q == list@.last()@ {
                assert(list@[before.len() as int]@ == q);
            } else {
                let i = choose|i: int| 0 <= i < before.len() && (#[trigger] before[i])@ == q;
                assert(list@[i] == before[i]);
            }
        }
    }
}

/// Whether `q` is the stem of a segment of `fqn`, and not empty.
pub open spec fn segment_of(fqn: Seq<char>, q: Seq<char>) -> bool {
    q.len() > 0 && exists|m: int|
        0 <= m < pieces(fqn, '/').len() && #[trigger] stem_of(pieces(fqn, '/')[m]) == q
}

/// Adds the stems of the segments of `fqn` to `segments`.
fn add_segments(segments: &mut Vec<Vec<char>>, fqn: &[char])
    ensures
        forall|q: Seq<char>|
            #[trigger] listed(final(segments)@, q) <==> (listed(old(segments)@, q) || segment_of(
                fqn@,
                q,
            )),
{
    let parts = split_pieces(fqn, '/');
    let ghost pv = char_views(parts@);
    assert(pv.len() == parts@.len());
    let ghost seg0 = segments@;
    let mut k: usize = 0;
    while k < parts.len()
        invariant
            k <= parts@.len(),
            pv == char_views(parts@),
            pv == pieces(fqn@, '/'),
            pv.len() == parts@.len(),
            forall|q: Seq<char>|
                #[trigger] listed(segments@, q) <==> (listed(seg0, q) || (q.len() > 0 && exists|
                    m: int,
                | 0 <= m < k && #[trigger] stem_of(pv[m]) == q)),
        decreases parts@.len() - k,
    {
        let st = stem_chars(parts[k].as_slice());
        assert(st@ == stem_of(pv[k as int]));
        let ghost before = segments@;
        if st.len() > 0 {
            add_distinct(segments, st);
        }
        proof {
            assert forall|q: Seq<char>|
                #[trigger] listed(segments@, q) <==> (listed(seg0, q) || (q.len() > 0 && exists|
                    m: int,
                | 0 <= m < k + 1 && #[trigger] stem_of(pv[m]) == q)) by {
                if q.len() > 0 && exists|m: int| 0 <= m < k + 1 && #[trigger] stem_of(pv[m]) == q {
                    let m = choose|m: int| 0 <= m < k + 1 && #[trigger] stem_of(pv[m]) == q;
                    if m < k {
                        assert(listed(before, q));
                    }
                }
            }
        }
        k = k + 1;
    }
}

impl NodeTable {
    /// Reads every node once: identities, ids, the fragments each file
    /// can be found by, and the project's segment names.
    pub fn read(nodes: &[NodeRow]) -> (t: Self)
        ensures
            t.reads(nodes@),
    {
        let mut ids: Vec<Vec<char>> = Vec::new();
        let mut fqns: Vec<Vec<char>> = Vec::new();
        let mut files: Vec<bool> = Vec::new();
        let mut suffixes: Vec<Vec<Vec<char>>> = Vec::new();
        let mut segments: Vec<Vec<char>> = Vec::new();
        let mut i: usize = 0;
        while i < nodes.len()
            invariant
                i <= nodes@.len(),
                ids@.len() == i,
                fqns@.len() == i,
                files@.len() == i,
                suffixes@.len() == i,
                forall|a: int| 0 <= a < i ==> #[trigger] row_read(ids@, fqns@, files@, suffixes@, nodes@, a),
                forall|p: Seq<char>|
                    #[trigger] listed(segments@, p) <==> project_segment(nodes@.take(i as int), p),
            decreases nodes@.len() - i,
        {
            let n = &nodes[i];
            let fqn = chars_of(n.fqn.as_str());
            let file = is_file(n.kind);
            let sfx = if file {
                suffixes_of(fqn.as_slice())
            } else {
                Vec::new()
            };
            let ghost seg0 = segments@;
            add_segments(&mut segments, fqn.as_slice());
            proof {
                let pre = nodes@.take(i as int);
                let post = nodes@.take(i + 1);
                assert(post[i as int] == nodes@[i as int]);
                assert forall|q: Seq<char>| #[trigger] listed(segments@, q) <==> project_segment(post, q) by {
                    if project_segment(post, q) {
                        let (a, m) = choose|a: int, m: int|
                            0 <= a < post.len() && 0 <= m < pieces(post[a].fqn@, '/').len()
                                && #[trigger] stem_of(pieces(post[a].fqn@, '/')[m]) == q;
                        if a < i {
                            assert(pre[a] == post[a]);
                            assert(stem_of(pieces(pre[a].fqn@, '/')[m]) == q);
                            assert(project_segment(pre, q));
                            assert(listed(seg0, q));
                        } else {
                            assert(segment_of(fqn@, q));
                        }
                    }
                    if listed(segments@, q) {
                        if listed(seg0, q) {
                            assert(project_segment(pre, q));
                            let (a, m) = choose|a: int, m: int|
                                0 <= a < pre.len() && 0 <= m < pieces(pre[a].fqn@, '/').len()
                                    && #[trigger] stem_of(pieces(pre[a].fqn@, '/')[m]) == q;
                            assert(pre[a] == post[a]);
                            assert(stem_of(pieces(post[a].fqn@, '/')[m]) == q);
                        } else {
                            assert(segment_of(fqn@, q));
                            let m = choose|m: int|
                                0 <= m < pieces(fqn@, '/').len() && #[trigger] stem_of(
                                    pieces(fqn@, '/')[m],
                                ) == q;
                            assert(stem_of(pieces(post[i as int].fqn@, '/')[m]) == q);
                        }
                    }
                }
            }
            let idc = chars_of(n.id.as_str());
            let ghost (i0, f0, fl0, s0) = (ids@, fqns@, files@, suffixes@);
            ids.push(idc);
            fqns.push(fqn);
            files.push(file);
            suffixes.push(sfx);
            proof {
                assert(ids@[i as int]@ == nodes@[i as int].id@);
                assert(fqns@[i as int]@ == nodes@[i as int].fqn@);
                assert(files@[i as int] == (nodes@[i as int].kind == NodeKind::File));
                assert(files@[i as int] ==> char_views(suffixes@[i as int]@) == all_suffixes(nodes@[i as int].fqn@));
                assert forall|a: int| 0 <= a < i + 1 implies #[trigger] row_read(ids@, fqns@, files@, suffixes@, nodes@, a) by {
                    if a < i {
                        assert(row_read(i0, f0, fl0, s0, nodes@, a));
                        assert(ids@[a] == i0[a]);
                        assert(fqns@[a] == f0[a]);
                        assert(files@[a] == fl0[a]);
                        assert(suffixes@[a] == s0[a]);
                    }
                }
            }
            i = i + 1;
        }
        assert(nodes@.take(i as int) =~= nodes@);
        NodeTable { ids, fqns, files, suffixes, segments }
    }

    /// The id of the last node with identity `fqn`; see [`id_for`].
    fn lookup(&self, Ghost(nodes): Ghost<Seq<NodeRow>>, fqn: &[char]) -> (r: Option<Vec<char>>)
        requires
            self.reads(nodes),
        ensures
            match r {
                Some(id) => id_for(nodes, fqn@) == Some(id@),
                None => id_for(nodes, fqn@) is None,
            },
    {
        let mut k = self.ids.len();
        assert(nodes.take(k as int) =~= nodes);
        while k > 0
            invariant
                self.reads(nodes),
                k <= nodes.len(),
                id_for(nodes, fqn@) == id_for(nodes.take(k as int), fqn@),
            decreases k,
        {
            proof {
                let pre = nodes.take(k as int);
                assert(pre.drop_last() =~= nodes.take(k - 1));
                assert(pre.last() == nodes[k - 1]);
                assert(row_read(self.ids@, self.fqns@, self.files@, self.suffixes@, nodes, k - 1));
            }
            if chars_eq(self.fqns[k - 1].as_slice(), fqn) {
                return Some(copy_chars(&self.ids[k - 1]));
            }
            k = k - 1;
        }
        None
    }

    /// Whether `p` is a directory name or file stem in the project.
    fn has_segment(&self, Ghost(nodes): Ghost<Seq<NodeRow>>, p: &[char]) -> (r: bool)
        requires
            self.reads(nodes),
        ensures
            r == project_segment(nodes, p@),
    {
        let mut j: usize = 0;
        while j < self.segments.len()
            invariant
                self.reads(nodes),
                j <= self.segments@.len(),
                forall|i: int| 0 <= i < j ==> (#[trigger] self.segments@[i])@ != p@,
            decreases self.segments@.len() - j,
        {
            if chars_eq(self.segments[j].as_slice(), p) {
                assert(listed(self.segments@, p@));
                return true;
            }
            j = j + 1;
        }
        assert(!listed(self.segments@, p@));
        false
    }
}

/// Whether `c` separates the parts of a package name: `atlas_auth`,
/// `atlas-auth`, `atlas.auth` and `@atlas/auth` all name `auth`.
pub open spec fn part_sep(c: char) -> bool {
    c == '_' || c == '-' || c == '.' || c == '@'
}

/// `s` with every part separator written as `_`.
pub open spec fn unified(s: Seq<char>) -> Seq<char> {
    s.map_values(|c: char| if part_sep(c) { '_' } else { c })
}

/// The parts of a package-like name, split at every separator, empty
/// parts kept: `s.split(['_', '-', '.', '@'])`.
pub open spec fn package_parts(s: Seq<char>) -> Seq<Seq<char>> {
    pieces(unified(s), '_')
}

/// The stems of the segments of a path.
pub open spec fn stems_of(fqn: Seq<char>) -> Seq<Seq<char>> {
    pieces(fqn, '/').map_values(|p: Seq<char>| stem_of(p))
}

/// Whether a part of a package name names a directory or file on the
/// path `fqn`. Parts under three bytes (`io`, `os`) name nothing.
pub open spec fn part_names(fqn: Seq<char>, part: Seq<char>) -> bool {
    crate::text::utf8_len(part) >= 3 && stems_of(fqn).contains(part)
}

/// Whether some part of the segment `seg` names something on `fqn`.
pub open spec fn segment_names(fqn: Seq<char>, seg: Seq<char>) -> bool {
    exists|j: int|
        0 <= j < package_parts(seg).len() && #[trigger] part_names(fqn, package_parts(seg)[j])
}

/// Whether any dropped segment names a directory on the candidate's
/// path.
pub open spec fn names_any(fqn: Seq<char>, dropped: Seq<Seq<char>>) -> bool {
    exists|i: int| 0 <= i < dropped.len() && #[trigger] segment_names(fqn, dropped[i])
}

/// Roots that name nothing by design: `crate`, `self`, `super`, `.`,
/// `..` and the empty root.
pub open spec fn relative_root(s: Seq<char>) -> bool {
    ||| s == seq!['c', 'r', 'a', 't', 'e']
    ||| s == seq!['s', 'e', 'l', 'f']
    ||| s == seq!['s', 'u', 'p', 'e', 'r']
    ||| s == seq!['.']
    ||| s == seq!['.', '.']
    ||| s.len() == 0
}

/// Whether the import's root segment names something this project does
/// not contain, so that it belongs to a dependency and must not resolve
/// to a local file. A root spelled like a package counts as internal
/// when any of its parts names a directory or file here.
pub open spec fn points_outside(nodes: Seq<NodeRow>, dropped: Seq<Seq<char>>) -> bool {
    &&& dropped.len() > 0
    &&& !relative_root(dropped[0])
    &&& !exists|j: int|
        0 <= j < package_parts(dropped[0]).len() && #[trigger] project_segment(
            nodes,
            package_parts(dropped[0])[j],
        )
}

fn unify_chars(s: &[char]) -> (r: Vec<char>)
    ensures
        r@ == unified(s@),
{
    let mut r: Vec<char> = Vec::new();
    let mut i: usize = 0;
    while i < s.len()
        invariant
            i <= s@.len(),
            r@ == unified(s@.take(i as int)),
        decreases s@.len() - i,
    {
        let c = s[i];
        let u = if c == '_' || c == '-' || c == '.' || c == '@' {
            '_'
        } else {
            c
        };
        r.push(u);
        i = i + 1;
        assert(r@ =~= unified(s@.take(i as int)));
    }
    assert(s@.take(i as int) =~= s@);
    r
}

fn holds(list: &Vec<Vec<char>>, x: &[char]) -> (r: bool)
    ensures
        r == char_views(list@).contains(x@),
{
    let mut j: usize = 0;
    while j < list.len()
        invariant
            j <= list@.len(),
            forall|i: int| 0 <= i < j ==> (#[trigger] list@[i])@ != x@,
        decreases list@.len() - j,
    {
        if chars_eq(list[j].as_slice(), x) {
            assert(char_views(list@)[j as int] == x@);
            return true;
        }
        j = j + 1;
    }
    assert forall|i: int| 0 <= i < char_views(list@).len() implies char_views(list@)[i] != x@ by {
        assert(list@[i]@ != x@);
    }
    false
}

fn pairs_hold_id(b: &Vec<(Vec<char>, Vec<char>)>, id: &[char]) -> (r: bool)
    ensures
        r == has_id(crate::text::pair_char_views(b@), id@),
{
    let ghost v = crate::text::pair_char_views(b@);
    let mut j: usize = 0;
    while j < b.len()
        invariant
            j <= b@.len(),
            v == crate::text::pair_char_views(b@),
            forall|i: int| 0 <= i < j ==> (#[trigger] b@[i]).0@ != id@,
        decreases b@.len() - j,
    {
        if chars_eq(b[j].0.as_slice(), id) {
            assert(v[j as int].0 == id@);
            return true;
        }
        j = j + 1;
    }
    assert forall|i: int| 0 <= i < v.len() implies (#[trigger] v[i]).0 != id@ by {
        assert(b@[i].0@ != id@);
    }
    false
}

fn stems_chars(fqn: &[char]) -> (r: Vec<Vec<char>>)
    ensures
        char_views(r@) == stems_of(fqn@),
{
    let parts = split_pieces(fqn, '/');
    let ghost pv = char_views(parts@);
    let mut r: Vec<Vec<char>> = Vec::new();
    let mut i: usize = 0;
    while i < parts.len()
        invariant
            i <= parts@.len(),
            pv == char_views(parts@),
            pv == pieces(fqn@, '/'),
            char_views(r@) == pv.take(i as int).map_values(|p: Seq<char>| stem_of(p)),
        decreases parts@.len() - i,
    {
        let st = stem_chars(parts[i].as_slice());
        let ghost before = char_views(r@);
        r.push(st);
        assert(char_views(r@) =~= before.push(st@));
        i = i + 1;
        assert(char_views(r@) =~= pv.take(i as int).map_values(|p: Seq<char>| stem_of(p)));
    }
    assert(pv.take(i as int) =~= pv);
    r
}

/// Whether some part of `seg` names something among `stems`.
fn segment_names_exec(stems: &Vec<Vec<char>>, Ghost(fqn): Ghost<Seq<char>>, seg: &[char]) -> (r:
    bool)
    requires
        char_views(stems@) == stems_of(fqn),
    ensures
        r == segment_names(fqn, seg@),
{
    let u = unify_chars(seg);
    let parts = split_pieces(u.as_slice(), '_');
    let ghost pv = char_views(parts@);
    assert(pv == package_parts(seg@));
    let mut j: usize = 0;
    while j < parts.len()
        invariant
            j <= parts@.len(),
            pv == char_views(parts@),
            pv == package_parts(seg@),
            char_views(stems@) == stems_of(fqn),
            forall|i: int| 0 <= i < j ==> !#[trigger] part_names(fqn, pv[i]),
        decreases parts@.len() - j,
    {
        let part = parts[j].as_slice();
        if !crate::text::utf8_len_below(part, 3) && holds(stems, part) {
            assert(part_names(fqn, pv[j as int]));
            return true;
        }
        j = j + 1;
    }
    false
}

/// Whether any of `segs[..upto]` names a directory on `fqn`; see
/// [`names_any`].
fn names_any_exec(fqn: &[char], segs: &Vec<Vec<char>>, upto: usize) -> (r: bool)
    requires
        upto <= segs@.len(),
    ensures
        r == names_any(fqn@, char_views(segs@).take(upto as int)),
{
    let stems = stems_chars(fqn);
    let ghost dropped = char_views(segs@).take(upto as int);
    let mut i: usize = 0;
    while i < upto
        invariant
            i <= upto <= segs@.len(),
            dropped == char_views(segs@).take(upto as int),
            char_views(stems@) == stems_of(fqn@),
            forall|a: int| 0 <= a < i ==> !#[trigger] segment_names(fqn@, dropped[a]),
        decreases upto - i,
    {
        if segment_names_exec(&stems, Ghost(fqn@), segs[i].as_slice()) {
            assert(dropped[i as int] == segs@[i as int]@);
            return true;
        }
        assert(dropped[i as int] == segs@[i as int]@);
        i = i + 1;
    }
    false
}

fn is_relative_root(s: &[char]) -> (r: bool)
    ensures
        r == relative_root(s@),
{
    let l = s.len();
    if l == 0 {
        true
    } else if l == 1 {
        if s[0] == '.' {
            assert(s@ =~= seq!['.']);
            true
        } else {
            false
        }
    } else if l == 2 {
        if s[0] == '.' && s[1] == '.' {
            assert(s@ =~= seq!['.', '.']);
            true
        } else {
            false
        }
    } else if l == 4 {
        if s[0] == 's' && s[1] == 'e' && s[2] == 'l' && s[3] == 'f' {
            assert(s@ =~= seq!['s', 'e', 'l', 'f']);
            true
        } else {
            false
        }
    } else if l == 5 {
        if s[0] == 'c' && s[1] == 'r' && s[2] == 'a' && s[3] == 't' && s[4] == 'e' {
            assert(s@ =~= seq!['c', 'r', 'a', 't', 'e']);
            true
        } else if s[0] == 's' && s[1] == 'u' && s[2] == 'p' && s[3] == 'e' && s[4] == 'r' {
            assert(s@ =~= seq!['s', 'u', 'p', 'e', 'r']);
            true
        } else {
            false
        }
    } else {
        false
    }
}

impl NodeTable {
    /// The files ending in the fragment `x`; see [`bucket`].
    fn bucket_for(&self, Ghost(nodes): Ghost<Seq<NodeRow>>, x: &[char]) -> (r: Vec<
        (Vec<char>, Vec<char>),
    >)
        requires
            self.reads(nodes),
        ensures
            crate::text::pair_char_views(r@) == bucket(nodes, x@),
    {
        let mut r: Vec<(Vec<char>, Vec<char>)> = Vec::new();
        let mut i: usize = 0;
        while i < self.ids.len()
            invariant
                self.reads(nodes),
                i <= nodes.len(),
                crate::text::pair_char_views(r@) == bucket(nodes.take(i as int), x@),
            decreases nodes.len() - i,
        {
            proof {
                let pre = nodes.take(i + 1);
                assert(pre.drop_last() =~= nodes.take(i as int));
                assert(pre.last() == nodes[i as int]);
                assert(row_read(self.ids@, self.fqns@, self.files@, self.suffixes@, nodes, i as int));
            }
            if self.files[i] && holds(&self.suffixes[i], x) && !pairs_hold_id(
                &r,
                self.ids[i].as_slice(),
            ) {
                let ghost before = crate::text::pair_char_views(r@);
                let id = copy_chars(&self.ids[i]);
                let fqn = copy_chars(&self.fqns[i]);
                r.push((id, fqn));
                assert(crate::text::pair_char_views(r@) =~= before.push(
                    (nodes[i as int].id@, nodes[i as int].fqn@),
                ));
            }
            i = i + 1;
        }
        assert(nodes.take(i as int) =~= nodes);
        r
    }

    /// Whether `segs[..upto]` points outside the project; see
    /// [`points_outside`].
    fn points_outside_exec(
        &self,
        Ghost(nodes): Ghost<Seq<NodeRow>>,
        segs: &Vec<Vec<char>>,
        upto: usize,
    ) -> (r: bool)
        requires
            self.reads(nodes),
            upto <= segs@.len(),
        ensures
            r == points_outside(nodes, char_views(segs@).take(upto as int)),
    {
        let ghost dropped = char_views(segs@).take(upto as int);
        if upto == 0 {
            return false;
        }
        assert(dropped[0] == segs@[0]@);
        let root = segs[0].as_slice();
        if is_relative_root(root) {
            return false;
        }
        let u = unify_chars(root);
        let parts = split_pieces(u.as_slice(), '_');
        let ghost pv = char_views(parts@);
        assert(pv == package_parts(dropped[0]));
        let mut j: usize = 0;
        while j < parts.len()
            invariant
                self.reads(nodes),
                j <= parts@.len(),
                pv == char_views(parts@),
                pv == package_parts(dropped[0]),
                dropped == char_views(segs@).take(upto as int),
                upto > 0,
                forall|i: int| 0 <= i < j ==> !#[trigger] project_segment(nodes, pv[i]),
            decreases parts@.len() - j,
        {
            if self.has_segment(Ghost(nodes), parts[j].as_slice()) {
                assert(project_segment(nodes, pv[j as int]));
                return false;
            }
            j = j + 1;
        }
        true
    }
}

/// How many leading segments two paths share.
pub open spec fn shared(a: Seq<Seq<char>>, b: Seq<Seq<char>>) -> nat
    decreases a.len(),
{
    if a.len() == 0 || b.len() == 0 || a[0] != b[0] {
        0
    } else {
        1 + shared(a.drop_first(), b.drop_first())
    }
}

/// How many leading path segments `fqn` shares with `from`.
pub open spec fn closeness(fqn: Seq<char>, from: Seq<char>) -> nat {
    shared(pieces(fqn, '/'), pieces(from, '/'))
}

/// The greatest closeness among the candidates (zero for none).
pub open spec fn best_closeness(c: Seq<(Seq<char>, Seq<char>)>, from: Seq<char>) -> nat
    decreases c.len(),
{
    if c.len() == 0 {
        0
    } else {
        let b = best_closeness(c.drop_last(), from);
        let s = closeness(c.last().1, from);
        if s > b {
            s
        } else {
            b
        }
    }
}

/// The ids of the candidates exactly `best` segments close to `from`.
pub open spec fn closest(c: Seq<(Seq<char>, Seq<char>)>, from: Seq<char>, best: nat) -> Seq<
    Seq<char>,
>
    decreases c.len(),
{
    if c.len() == 0 {
        Seq::empty()
    } else {
        let w = closest(c.drop_last(), from, best);
        if closeness(c.last().1, from) == best {
            w.push(c.last().0)
        } else {
            w
        }
    }
}

/// The candidate sharing the most leading segments with `from`, or
/// none when two share equally many: nothing then tells them apart.
pub open spec fn nearest(c: Seq<(Seq<char>, Seq<char>)>, from: Seq<char>) -> Option<Seq<char>> {
    let w = closest(c, from, best_closeness(c, from));
    if c.len() > 0 && w.len() == 1 {
        Some(w[0])
    } else {
        None
    }
}

/// The candidates some dropped segment names, in order.
pub open spec fn named(c: Seq<(Seq<char>, Seq<char>)>, dropped: Seq<Seq<char>>) -> Seq<
    (Seq<char>, Seq<char>),
>
    decreases c.len(),
{
    if c.len() == 0 {
        Seq::empty()
    } else {
        let n = named(c.drop_last(), dropped);
        if names_any(c.last().1, dropped) {
            n.push(c.last())
        } else {
            n
        }
    }
}

/// Several candidates end the same way: those the dropped segments
/// name come first, and proximity to the importer decides among them
/// (or among all, when the segments name none).
pub open spec fn best_match(
    c: Seq<(Seq<char>, Seq<char>)>,
    dropped: Seq<Seq<char>>,
    from: Seq<char>,
) -> Option<Seq<char>> {
    let n = named(c, dropped);
    if n.len() == 0 {
        nearest(c, from)
    } else if n.len() == 1 {
        Some(n[0].0)
    } else {
        nearest(n, from)
    }
}

/// The longest trailing run of `segs`, from `start` on, that some file
/// ends with, and what it resolves to.
pub open spec fn suffix_match_from(
    nodes: Seq<NodeRow>,
    segs: Seq<Seq<char>>,
    start: int,
    from: Seq<char>,
) -> Option<Seq<char>>
    decreases segs.len() - start,
{
    if start < 0 || start >= segs.len() {
        None
    } else {
        let b = bucket(nodes, join(segs.skip(start), slash()));
        if b.len() == 0 {
            suffix_match_from(nodes, segs, start + 1, from)
        } else if points_outside(nodes, segs.take(start)) {
            None
        } else if b.len() == 1 {
            Some(b[0].0)
        } else {
            best_match(b, segs.take(start), from)
        }
    }
}

/// Longest-suffix lookup of `target` from the file `from`.
pub open spec fn suffix_match(nodes: Seq<NodeRow>, target: Seq<char>, from: Seq<char>) -> Option<
    Seq<char>,
> {
    suffix_match_from(nodes, crate::text::fields(target, '/'), 0, from)
}

/// The id of the first candidate path that names a node.
pub open spec fn first_found(nodes: Seq<NodeRow>, cands: Seq<Seq<char>>) -> Option<Seq<char>>
    decreases cands.len(),
{
    if cands.len() == 0 {
        None
    } else {
        match id_for(nodes, cands[0]) {
            Some(id) => Some(id),
            None => first_found(nodes, cands.drop_first()),
        }
    }
}

/// One resolution attempt for one exact path: its candidates, then a
/// suffix match.
pub open spec fn resolve_path(nodes: Seq<NodeRow>, path: Seq<char>, from: Seq<char>) -> Option<
    Seq<char>,
> {
    match first_found(nodes, candidate_paths(path)) {
        Some(id) => Some(id),
        None => suffix_match(nodes, path, from),
    }
}

/// An import resolved by dropping trailing segments one at a time
/// until something resolves, stopping before the path is a single
/// segment: most imports name a symbol, and importing it is a
/// dependency on the file that defines it.
pub open spec fn resolve_import(nodes: Seq<NodeRow>, path: Seq<char>, from: Seq<char>) -> Option<
    Seq<char>,
>
    decreases path.len(),
{
    match resolve_path(nodes, path, from) {
        Some(id) => Some(id),
        None => match last_index(path, '/') {
            Some(k) => if k < path.len() && crate::text::has_char(path.take(k as int), '/') {
                resolve_import(nodes, path.take(k as int), from)
            } else {
                None
            },
            None => None,
        },
    }
}

/// The node an edge points at: one named exactly, or for an import,
/// whatever [`resolve_import`] finds.
pub open spec fn resolve_target(
    nodes: Seq<NodeRow>,
    dst: Seq<char>,
    predicate: EdgePredicate,
    from: Seq<char>,
) -> Option<Seq<char>> {
    match id_for(nodes, dst) {
        Some(id) => Some(id),
        None => if predicate == EdgePredicate::Imports {
            resolve_import(nodes, dst, from)
        } else {
            None
        },
    }
}

fn shared_count(a: &Vec<Vec<char>>, b: &Vec<Vec<char>>) -> (r: usize)
    ensures
        r == shared(char_views(a@), char_views(b@)),
{
    let ghost av = char_views(a@);
    let ghost bv = char_views(b@);
    let mut i: usize = 0;
    assert(av.skip(0) =~= av && bv.skip(0) =~= bv);
    while i < a.len() && i < b.len() && chars_eq(a[i].as_slice(), b[i].as_slice())
        invariant
            i <= a@.len(),
            i <= b@.len(),
            av == char_views(a@),
            bv == char_views(b@),
            shared(av, bv) == i + shared(av.skip(i as int), bv.skip(i as int)),
        decreases a@.len() - i,
    {
        assert(av.skip(i as int)[0] == a@[i as int]@);
        assert(bv.skip(i as int)[0] == b@[i as int]@);
        assert(av.skip(i as int).drop_first() =~= av.skip(i + 1));
        assert(bv.skip(i as int).drop_first() =~= bv.skip(i + 1));
        i = i + 1;
    }
    if i < a.len() && i < b.len() {
        assert(av.skip(i as int)[0] == a@[i as int]@);
        assert(bv.skip(i as int)[0] == b@[i as int]@);
    }
    i
}

/// Executable [`nearest`].
fn nearest_exec(c: &Vec<(Vec<char>, Vec<char>)>, from: &[char]) -> (r: Option<Vec<char>>)
    ensures
        match r {
            Some(id) => nearest(crate::text::pair_char_views(c@), from@) == Some(id@),
            None => nearest(crate::text::pair_char_views(c@), from@) is None,
        },
{
    let ghost cv = crate::text::pair_char_views(c@);
    let fromp = split_pieces(from, '/');
    let mut scores: Vec<usize> = Vec::new();
    let mut best: usize = 0;
    let mut i: usize = 0;
    while i < c.len()
        invariant
            i <= c@.len(),
            cv == crate::text::pair_char_views(c@),
            char_views(fromp@) == pieces(from@, '/'),
            scores@.len() == i,
            forall|a: int| 0 <= a < i ==> #[trigger] scores@[a] == closeness(cv[a].1, from@),
            best == best_closeness(cv.take(i as int), from@),
        decreases c@.len() - i,
    {
        let parts = split_pieces(c[i].1.as_slice(), '/');
        let s = shared_count(&parts, &fromp);
        assert(cv[i as int].1 == c@[i as int].1@);
        scores.push(s);
        proof {
            let pre = cv.take(i + 1);
            assert(pre.drop_last() =~= cv.take(i as int));
            assert(pre.last() == cv[i as int]);
        }
        if s > best {
            best = s;
        }
        i = i + 1;
    }
    assert(cv.take(i as int) =~= cv);
    let mut count: usize = 0;
    let mut first: Option<Vec<char>> = None;
    let mut j: usize = 0;
    while j < c.len()
        invariant
            j <= c@.len(),
            cv == crate::text::pair_char_views(c@),
            scores@.len() == c@.len(),
            forall|a: int| 0 <= a < c@.len() ==> #[trigger] scores@[a] == closeness(cv[a].1, from@),
            count == closest(cv.take(j as int), from@, best as nat).len(),
            count <= j,
            count > 0 ==> first is Some && first->0@ == closest(cv.take(j as int), from@, best as nat)[0],
        decreases c@.len() - j,
    {
        proof {
            let pre = cv.take(j + 1);
            assert(pre.drop_last() =~= cv.take(j as int));
            assert(pre.last() == cv[j as int]);
        }
        if scores[j] == best {
            if count == 0 {
                first = Some(copy_chars(&c[j].0));
            }
            count = count + 1;
        }
        j = j + 1;
    }
    assert(cv.take(j as int) =~= cv);
    if c.len() > 0 && count == 1 {
        first
    } else {
        None
    }
}

/// Executable [`best_match`]: the candidates, and the dropped segments
/// `segs[..upto]`.
fn best_match_exec(
    c: &Vec<(Vec<char>, Vec<char>)>,
    segs: &Vec<Vec<char>>,
    upto: usize,
    from: &[char],
) -> (r: Option<Vec<char>>)
    requires
        upto <= segs@.len(),
    ensures
        match r {
            Some(id) => best_match(
                crate::text::pair_char_views(c@),
                char_views(segs@).take(upto as int),
                from@,
            ) == Some(id@),
            None => best_match(
                crate::text::pair_char_views(c@),
                char_views(segs@).take(upto as int),
                from@,
            ) is None,
        },
{
    let ghost cv = crate::text::pair_char_views(c@);
    let ghost dropped = char_views(segs@).take(upto as int);
    let mut n: Vec<(Vec<char>, Vec<char>)> = Vec::new();
    let mut i: usize = 0;
    while i < c.len()
        invariant
            i <= c@.len(),
            upto <= segs@.len(),
            cv == crate::text::pair_char_views(c@),
            dropped == char_views(segs@).take(upto as int),
            crate::text::pair_char_views(n@) == named(cv.take(i as int), dropped),
        decreases c@.len() - i,
    {
        proof {
            let pre = cv.take(i + 1);
            assert(pre.drop_last() =~= cv.take(i as int));
            assert(pre.last() == cv[i as int]);
        }
        if names_any_exec(c[i].1.as_slice(), segs, upto) {
            let ghost before = crate::text::pair_char_views(n@);
            let id = copy_chars(&c[i].0);
            let fq = copy_chars(&c[i].1);
            n.push((id, fq));
            assert(crate::text::pair_char_views(n@) =~= before.push(cv[i as int]));
        }
        i = i + 1;
    }
    assert(cv.take(i as int) =~= cv);
    if n.len() == 0 {
        nearest_exec(c, from)
    } else if n.len() == 1 {
        Some(copy_chars(&n[0].0))
    } else {
        nearest_exec(&n, from)
    }
}

impl NodeTable {
    /// Executable [`suffix_match`].
    fn suffix_match_exec(&self, Ghost(nodes): Ghost<Seq<NodeRow>>, target: &[char], from: &[char]) -> (r:
        Option<Vec<char>>)
        requires
            self.reads(nodes),
        ensures
            match r {
                Some(id) => suffix_match(nodes, target@, from@) == Some(id@),
                None => suffix_match(nodes, target@, from@) is None,
            },
    {
        let segs = crate::text::split_fields(target, '/');
        let ghost sv = char_views(segs@);
        let sep = slash_chars();
        let mut start: usize = 0;
        while start < segs.len()
            invariant
                self.reads(nodes),
                start <= segs@.len(),
                sv == char_views(segs@),
                sv == crate::text::fields(target@, '/'),
                sep@ == slash(),
                suffix_match(nodes, target@, from@) == suffix_match_from(nodes, sv, start as int, from@),
            decreases segs@.len() - start,
        {
            let rest = tail_of(&segs, start);
            let cand = join_chars(&rest, sep.as_slice());
            let b = self.bucket_for(Ghost(nodes), cand.as_slice());
            if b.len() == 0 {
                start = start + 1;
            } else {
                if self.points_outside_exec(Ghost(nodes), &segs, start) {
                    return None;
                }
                if b.len() == 1 {
                    return Some(copy_chars(&b[0].0));
                }
                return best_match_exec(&b, &segs, start, from);
            }
        }
        None
    }

    /// Executable [`resolve_path`].
    fn resolve_path_exec(&self, Ghost(nodes): Ghost<Seq<NodeRow>>, path: &[char], from: &[char]) -> (r:
        Option<Vec<char>>)
        requires
            self.reads(nodes),
        ensures
            match r {
                Some(id) => resolve_path(nodes, path@, from@) == Some(id@),
                None => resolve_path(nodes, path@, from@) is None,
            },
    {
        let p = crate::text::string_of(path);
        let cands = candidates(p.as_str());
        let ghost cv = crate::text::views(cands@);
        let mut i: usize = 0;
        assert(cv.skip(0) =~= cv);
        while i < cands.len()
            invariant
                self.reads(nodes),
                i <= cands@.len(),
                cv == crate::text::views(cands@),
                cv == candidate_paths(path@),
                first_found(nodes, cv) == first_found(nodes, cv.skip(i as int)),
            decreases cands@.len() - i,
        {
            let cc = chars_of(cands[i].as_str());
            assert(cv.skip(i as int)[0] == cands@[i as int]@);
            assert(cv.skip(i as int).drop_first() =~= cv.skip(i + 1));
            match self.lookup(Ghost(nodes), cc.as_slice()) {
                Some(id) => {
                    return Some(id);
                },
                None => {},
            }
            i = i + 1;
        }
        self.suffix_match_exec(Ghost(nodes), path, from)
    }

    /// Executable [`resolve_import`].
    fn resolve_import_exec(&self, Ghost(nodes): Ghost<Seq<NodeRow>>, path: &[char], from: &[char]) -> (r:
        Option<Vec<char>>)
        requires
            self.reads(nodes),
        ensures
            match r {
                Some(id) => resolve_import(nodes, path@, from@) == Some(id@),
                None => resolve_import(nodes, path@, from@) is None,
            },
    {
        let mut p = slice_chars(path, 0, path.len());
        assert(p@ =~= path@);
        loop
            invariant
                self.reads(nodes),
                resolve_import(nodes, path@, from@) == resolve_import(nodes, p@, from@),
            decreases p@.len(),
        {
            match self.resolve_path_exec(Ghost(nodes), p.as_slice(), from) {
                Some(id) => {
                    return Some(id);
                },
                None => {},
            }
            proof {
                crate::text::lemma_last_index(p@, '/');
            }
            match find_last(p.as_slice(), '/') {
                Some(k) => {
                    let parent = slice_chars(p.as_slice(), 0, k);
                    assert(parent@ =~= p@.take(k as int));
                    if crate::text::chars_contain(parent.as_slice(), '/') {
                        p = parent;
                    } else {
                        return None;
                    }
                },
                None => {
                    return None;
                },
            }
        }
    }

    /// Executable [`resolve_target`].
    fn resolve_target_exec(
        &self,
        Ghost(nodes): Ghost<Seq<NodeRow>>,
        dst: &[char],
        predicate: EdgePredicate,
        from: &[char],
    ) -> (r: Option<Vec<char>>)
        requires
            self.reads(nodes),
        ensures
            match r {
                Some(id) => resolve_target(nodes, dst@, predicate, from@) == Some(id@),
                None => resolve_target(nodes, dst@, predicate, from@) is None,
            },
    {
        match self.lookup(Ghost(nodes), dst) {
            Some(id) => Some(id),
            None => match predicate {
                EdgePredicate::Imports => self.resolve_import_exec(Ghost(nodes), dst, from),
                _ => None,
            },
        }
    }
}

/// The stored rows for the extracted edges: those whose source is a
/// known node, in order, each with its target resolved. An edge from
/// an unknown source is a fault of an extractor, not a fact about the
/// project, and is dropped.
pub open spec fn edge_rows(nodes: Seq<NodeRow>, edges: Seq<ExtractedEdgeV>) -> Seq<EdgeRowV>
    decreases edges.len(),
{
    if edges.len() == 0 {
        Seq::empty()
    } else {
        let r = edge_rows(nodes, edges.drop_last());
        let e = edges.last();
        match id_for(nodes, e.0) {
            Some(src) => r.push((src, resolve_target(nodes, e.1, e.2, e.3), e.1, e.2, e.3, e.4)),
            None => r,
        }
    }
}

/// How many of the rows have a target.
pub open spec fn resolved_count(rows: Seq<EdgeRowV>) -> nat
    decreases rows.len(),
{
    if rows.len() == 0 {
        0
    } else {
        resolved_count(rows.drop_last()) + if rows.last().1 is Some {
            1nat
        } else {
            0nat
        }
    }
}

proof fn lemma_resolved_count_bound(rows: Seq<EdgeRowV>)
    ensures
        resolved_count(rows) <= rows.len(),
    decreases rows.len(),
{
    if rows.len() > 0 {
        lemma_resolved_count_bound(rows.drop_last());
    }
}

proof fn lemma_edge_rows_len(nodes: Seq<NodeRow>, edges: Seq<ExtractedEdgeV>)
    ensures
        edge_rows(nodes, edges).len() <= edges.len(),
    decreases edges.len(),
{
    if edges.len() > 0 {
        lemma_edge_rows_len(nodes, edges.drop_last());
    }
}

fn opt_string(o: Option<Vec<char>>) -> (r: Option<String>)
    ensures
        match r {
            Some(s) => o is Some && s@ == o->0@,
            None => o is None,
        },
{
    match o {
        Some(v) => Some(crate::text::string_of(v.as_slice())),
        None => None,
    }
}

/// Resolves every extracted edge against `nodes`; see [`edge_rows`].
/// Counts the resolved and unresolved ones into `stats`.
pub fn resolve_edges(nodes: &[NodeRow], edges: &[ExtractedEdge], stats: &mut IndexStats) -> (r: Vec<EdgeRow>)
    requires
        old(stats).edges_resolved + edges@.len() <= usize::MAX,
        old(stats).edges_unresolved + edges@.len() <= usize::MAX,
    ensures
        edge_row_views(r@) == edge_rows(nodes@, edge_views(edges@)),
        final(stats).edges_resolved == old(stats).edges_resolved + resolved_count(edge_row_views(r@)),
        final(stats).edges_unresolved + resolved_count(edge_row_views(r@)) == old(stats).edges_unresolved
            + r@.len(),
        final(stats).files_discovered == old(stats).files_discovered,
        final(stats).files_indexed == old(stats).files_indexed,
        final(stats).files_skipped == old(stats).files_skipped,
        final(stats).nodes == old(stats).nodes,
        final(stats).edges == old(stats).edges,
        final(stats).elapsed_ms == old(stats).elapsed_ms,
{
    let table = NodeTable::read(nodes);
    let ghost ev = edge_views(edges@);
    let ghost s0 = *stats;
    let mut out: Vec<EdgeRow> = Vec::new();
    let mut i: usize = 0;
    while i < edges.len()
        invariant
            table.reads(nodes@),
            i <= edges@.len(),
            ev == edge_views(edges@),
            edge_row_views(out@) == edge_rows(nodes@, ev.take(i as int)),
            out@.len() <= i,
            s0.edges_resolved + edges@.len() <= usize::MAX,
            s0.edges_unresolved + edges@.len() <= usize::MAX,
            stats.edges_resolved == s0.edges_resolved + resolved_count(edge_row_views(out@)),
            stats.edges_unresolved + resolved_count(edge_row_views(out@)) == s0.edges_unresolved
                + out@.len(),
            stats.files_discovered == s0.files_discovered,
            stats.files_indexed == s0.files_indexed,
            stats.files_skipped == s0.files_skipped,
            stats.nodes == s0.nodes,
            stats.edges == s0.edges,
            stats.elapsed_ms == s0.elapsed_ms,
        decreases edges@.len() - i,
    {
        let e = &edges[i];
        proof {
            let pre = ev.take(i + 1);
            assert(pre.drop_last() =~= ev.take(i as int));
            assert(pre.last() == e@);
            lemma_resolved_count_bound(edge_row_views(out@));
        }
        let src = chars_of(e.src_fqn.as_str());
        match table.lookup(Ghost(nodes@), src.as_slice()) {
            Some(src_id) => {
                let dst = chars_of(e.dst_fqn.as_str());
                let from = chars_of(e.file_path.as_str());
                let target = table.resolve_target_exec(Ghost(nodes@), dst.as_slice(), e.predicate, from.as_slice());
                let resolved = target.is_some();
                let row = EdgeRow {
                    src_id: crate::text::string_of(src_id.as_slice()),
                    dst_id: opt_string(target),
                    dst_fqn: e.dst_fqn.clone(),
                    predicate: e.predicate,
                    file_path: e.file_path.clone(),
                    line: e.line,
                };
                let ghost before = edge_row_views(out@);
                out.push(row);
                assert(edge_row_views(out@) =~= before.push(row@));
                assert(edge_row_views(out@).drop_last() =~= before);
                if resolved {
                    stats.edges_resolved = stats.edges_resolved + 1;
                } else {
                    stats.edges_unresolved = stats.edges_unresolved + 1;
                }
            },
            None => {},
        }
        i = i + 1;
    }
    assert(ev.take(i as int) =~= ev);
    out
}

/// `ulid::Ulid::new().to_string()`: a fresh identifier made from the
/// clock and a random number. Nothing is stated of it.
#[verifier::external_body]
pub(crate) fn fresh_id() -> (r: String) {
    ulid::Ulid::new().to_string()
}

/// Whether `row` carries everything of `n` but an id.
pub open spec fn carries(row: NodeRow, n: ExtractedNode) -> bool {
    &&& row.fqn@ == n.fqn@
    &&& row.name@ == n.name@
    &&& row.kind == n.kind
    &&& row.extension@ == n.extension@
    &&& row.file_path@ == n.file_path@
    &&& row.start_line == n.start_line
    &&& row.end_line == n.end_line
    &&& crate::text::opt_view(row.excerpt) == crate::text::opt_view(n.excerpt)
    &&& row.content_hash@ == n.content_hash@
    &&& row.search_text@ == n.search_text@
}

fn clone_opt(o: &Option<String>) -> (r: Option<String>)
    ensures
        crate::text::opt_view(r) == crate::text::opt_view(*o),
{
    match o {
        Some(s) => Some(s.clone()),
        None => None,
    }
}

/// A row for every node, in order, each with a fresh id.
pub fn assign_ids(nodes: &[ExtractedNode]) -> (r: Vec<NodeRow>)
    ensures
        r@.len() == nodes@.len(),
        forall|i: int| 0 <= i < nodes@.len() ==> carries(#[trigger] r@[i], nodes@[i]),
{
    let mut r: Vec<NodeRow> = Vec::new();
    let mut i: usize = 0;
    while i < nodes.len()
        invariant
            i <= nodes@.len(),
            r@.len() == i,
            forall|a: int| 0 <= a < i ==> carries(#[trigger] r@[a], nodes@[a]),
        decreases nodes@.len() - i,
    {
        let n = &nodes[i];
        let row = NodeRow {
            id: fresh_id(),
            fqn: n.fqn.clone(),
            name: n.name.clone(),
            kind: n.kind,
            extension: n.extension.clone(),
            file_path: n.file_path.clone(),
            start_line: n.start_line,
            end_line: n.end_line,
            excerpt: clone_opt(&n.excerpt),
            content_hash: n.content_hash.clone(),
            search_text: n.search_text.clone(),
        };
        r.push(row);
        i = i + 1;
    }
    r
}

/// Assigns an id to every node, then resolves every edge against the
/// whole list: an edge may point at a node that comes later, so every
/// node has to exist before any target is looked up.
pub fn assign_and_resolve(extraction: &FileExtraction, stats: &mut IndexStats) -> (r: (
    Vec<NodeRow>,
    Vec<EdgeRow>,
))
    requires
        old(stats).edges_resolved + extraction.edges@.len() <= usize::MAX,
        old(stats).edges_unresolved + extraction.edges@.len() <= usize::MAX,
    ensures
        r.0@.len() == extraction.nodes@.len(),
        forall|i: int| 0 <= i < r.0@.len() ==> carries(#[trigger] r.0@[i], extraction.nodes@[i]),
        edge_row_views(r.1@) == edge_rows(r.0@, edge_views(extraction.edges@)),
        final(stats).edges_resolved == old(stats).edges_resolved + resolved_count(edge_row_views(r.1@)),
        final(stats).edges_unresolved + resolved_count(edge_row_views(r.1@)) == old(
            stats,
        ).edges_unresolved + r.1@.len(),
        final(stats).files_discovered == old(stats).files_discovered,
        final(stats).files_indexed == old(stats).files_indexed,
        final(stats).files_skipped == old(stats).files_skipped,
        final(stats).nodes == old(stats).nodes,
        final(stats).edges == old(stats).edges,
        final(stats).elapsed_ms == old(stats).elapsed_ms,
{
    let nodes = assign_ids(extraction.nodes.as_slice());
    let edges = resolve_edges(nodes.as_slice(), extraction.edges.as_slice(), stats);
    (nodes, edges)
}

/// A target that names a node exactly resolves to that node, whatever
/// the predicate; and anything but an import resolves only that way:
/// no other edge is ever guessed at.
pub proof fn law_exact_names_win(
    nodes: Seq<NodeRow>,
    dst: Seq<char>,
    predicate: EdgePredicate,
    from: Seq<char>,
)
    ensures
        id_for(nodes, dst) is Some ==> resolve_target(nodes, dst, predicate, from) == id_for(
            nodes,
            dst,
        ),
        predicate != EdgePredicate::Imports ==> resolve_target(nodes, dst, predicate, from)
            == id_for(nodes, dst),
{
}

proof fn lemma_closest_step(c: Seq<(Seq<char>, Seq<char>)>, from: Seq<char>, best: nat, k: int)
    requires
        0 <= k < c.len(),
    ensures
        closest(c.take(k + 1), from, best).len() == closest(c.take(k), from, best).len() + if closeness(
            c[k].1,
            from,
        ) == best {
            1int
        } else {
            0int
        },
{
    let pre = c.take(k + 1);
    assert(pre.drop_last() =~= c.take(k));
    assert(pre.last() == c[k]);
}

proof fn lemma_closest_grows(c: Seq<(Seq<char>, Seq<char>)>, from: Seq<char>, best: nat, a: int, b: int)
    requires
        0 <= a <= b <= c.len(),
    ensures
        closest(c.take(a), from, best).len() <= closest(c.take(b), from, best).len(),
    decreases b - a,
{
    if a < b {
        lemma_closest_step(c, from, best, b - 1);
        lemma_closest_grows(c, from, best, a, b - 1);
    }
}

proof fn lemma_first_found_some(nodes: Seq<NodeRow>, cands: Seq<Seq<char>>, k: int)
    requires
        0 <= k < cands.len(),
        id_for(nodes, cands[k]) is Some,
    ensures
        first_found(nodes, cands) is Some,
    decreases k,
{
    if k > 0 && id_for(nodes, cands[0]) is None {
        lemma_first_found_some(nodes, cands.drop_first(), k - 1);
    }
}

/// An import of a directory holding `index.ts`, `index.tsx`,
/// `index.js`, `mod.rs` or `__init__.py` that the project has resolves;
/// so does one whose path, bare or with a source extension such as
/// `.py`, names a project file.
pub proof fn law_index_files_and_extensions_resolve(
    nodes: Seq<NodeRow>,
    path: Seq<char>,
    from: Seq<char>,
    name: Seq<char>,
)
    requires
        name == "index.ts"@ || name == "index.tsx"@ || name == "index.js"@ || name == "mod.rs"@
            || name == "__init__.py"@,
    ensures
        id_for(nodes, path + seq!['/'] + name) is Some ==> resolve_path(nodes, path, from) is Some,
        id_for(nodes, path) is Some ==> resolve_path(nodes, path, from) is Some,
        id_for(nodes, path + seq!['.'] + "py"@) is Some ==> resolve_path(nodes, path, from) is Some,
{
    crate::graph::extract::imports::law_candidates_cover_extensions_and_index_files(path);
    let c = candidate_paths(path);
    if id_for(nodes, path + seq!['/'] + name) is Some {
        let k = choose|k: int| 0 <= k < c.len() && c[k] == path + seq!['/'] + name;
        lemma_first_found_some(nodes, c, k);
    }
    if id_for(nodes, path) is Some {
        lemma_first_found_some(nodes, c, 0);
    }
    if id_for(nodes, path + seq!['.'] + "py"@) is Some {
        let k = choose|k: int| 0 <= k < c.len() && c[k] == path + seq!['.'] + "py"@;
        lemma_first_found_some(nodes, c, k);
    }
}

/// Two candidates equally close to the importer, and closest of all:
/// nothing tells them apart, and the import resolves to neither.
pub proof fn law_ties_resolve_to_nothing(
    c: Seq<(Seq<char>, Seq<char>)>,
    from: Seq<char>,
    i: int,
    j: int,
)
    requires
        0 <= i < j < c.len(),
        closeness(c[i].1, from) == best_closeness(c, from),
        closeness(c[j].1, from) == best_closeness(c, from),
    ensures
        nearest(c, from) is None,
{
    let best = best_closeness(c, from);
    lemma_closest_step(c, from, best, i);
    lemma_closest_step(c, from, best, j);
    lemma_closest_grows(c, from, best, i + 1, j);
    lemma_closest_grows(c, from, best, j + 1, c.len() as int);
    assert(c.take(c.len() as int) =~= c);
}

/// An import whose dropped root names nothing in the project never
/// resolves by a suffix match: the first trailing run that some file
/// ends with decides, and a third-party root refuses it.
pub proof fn law_outside_roots_stay_outside(
    nodes: Seq<NodeRow>,
    segs: Seq<Seq<char>>,
    start: int,
    from: Seq<char>,
)
    requires
        0 <= start < segs.len(),
        bucket(nodes, join(segs.skip(start), slash())).len() > 0,
        points_outside(nodes, segs.take(start)),
    ensures
        suffix_match_from(nodes, segs, start, from) is None,
{
}

} // verus!
