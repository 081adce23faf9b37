//! The rules a workflow must obey before it is stored: some nodes,
//! unique non-blank ids, dependencies on declared nodes only, and no
//! cycle among them. And the choice of what runs next.

use vstd::prelude::*;
use crate::afg::error::{AfgError, AfgFault};
use crate::afg::spec::{node_deps, node_ids, WorkflowNodeSpec, WorkflowSpec};
use crate::text::{append_str, chars_eq, chars_of, chars_trim, string_of_vec, trim, views};

verus! {

/// Why a spec is refused, before its graph is looked at.
pub enum SpecFault {
    NoNodes,
    EmptyId,
    DuplicateId(Seq<char>),
    UnknownDependency(Seq<char>, Seq<char>),
}

/// The first fault among the ids from position `i` on: a blank id, or
/// one used earlier.
pub open spec fn id_fault(ids: Seq<Seq<char>>, i: nat) -> Option<SpecFault>
    decreases ids.len() - i,
{
    if i >= ids.len() {
        None
    } else if trim(ids[i as int]).len() == 0 {
        Some(SpecFault::EmptyId)
    } else if ids.take(i as int).contains(ids[i as int]) {
        Some(SpecFault::DuplicateId(ids[i as int]))
    } else {
        id_fault(ids, i + 1)
    }
}

/// The first dependency, in node order from `i` and dependency order
/// from `k`, on a node that is not declared.
pub open spec fn dep_fault(ids: Seq<Seq<char>>, deps: Seq<Seq<Seq<char>>>, i: nat, k: nat) -> Option<SpecFault>
    decreases deps.len() - i, deps[i as int].len() - k,
{
    if i >= deps.len() {
        None
    } else if k >= deps[i as int].len() {
        dep_fault(ids, deps, i + 1, 0)
    } else if !ids.contains(deps[i as int][k as int]) {
        Some(SpecFault::UnknownDependency(ids[i as int], deps[i as int][k as int]))
    } else {
        dep_fault(ids, deps, i, k + 1)
    }
}

/// The first rule a spec breaks, its graph aside.
pub open spec fn spec_fault(spec: WorkflowSpec) -> Option<SpecFault> {
    if spec.nodes@.len() == 0 {
        Some(SpecFault::NoNodes)
    } else {
        match id_fault(node_ids(spec), 0) {
            Some(f) => Some(f),
            None => dep_fault(node_ids(spec), node_deps(spec), 0, 0),
        }
    }
}

/// What a fault is reported as.
pub open spec fn fault_message(f: SpecFault) -> Seq<char> {
    match f {
        SpecFault::NoNodes => "workflow has no nodes"@,
        SpecFault::EmptyId => "node id is empty"@,
        SpecFault::DuplicateId(id) => "duplicate node id: "@ + id,
        SpecFault::UnknownDependency(id, dep) => "node '"@ + id + "' depends on unknown node '"@ + dep
            + "'"@,
    }
}

/// The position of the node with id `id`.
pub open spec fn position_of(ids: Seq<Seq<char>>, id: Seq<char>) -> int {
    choose|k: int| 0 <= k < ids.len() && ids[k] == id
}

/// The dependency graph over node positions: for each node, the
/// positions of the nodes it depends on, in order.
pub open spec fn dep_graph(spec: WorkflowSpec) -> Seq<Seq<usize>> {
    node_deps(spec).map_values(
        |ds: Seq<Seq<char>>| ds.map_values(|d: Seq<char>| position_of(node_ids(spec), d) as usize),
    )
}

/// A ranking of the nodes in which everything a node depends on ranks
/// lower than the node.
pub open spec fn ranked(g: Seq<Seq<usize>>, rank: Seq<int>) -> bool {
    &&& rank.len() == g.len()
    &&& forall|u: int, k: int|
        0 <= u < g.len() && 0 <= k < g[u].len() ==> #[trigger] rank[g[u][k] as int] < rank[u]
}

/// Whether the graph has no cycle: its nodes can be ranked so that
/// every dependency ranks below its dependant.
pub open spec fn acyclic(g: Seq<Seq<usize>>) -> bool {
    exists|rank: Seq<int>| #[trigger] ranked(g, rank)
}

/// The message reporting a cycle through node `id`.
pub open spec fn cycle_message(id: Seq<char>) -> Seq<char> {
    "cycle detected involving node '"@ + id + "'"@
}

const WHITE: u8 = 0;

const GRAY: u8 = 1;

const BLACK: u8 = 2;

/// How many nodes are still unvisited.
spec fn white_count(colors: Seq<u8>) -> nat
    decreases colors.len(),
{
    if colors.len() == 0 {
        0
    } else {
        white_count(colors.drop_last()) + if colors.last() == WHITE {
            1nat
        } else {
            0nat
        }
    }
}

proof fn lemma_white_count_le(a: Seq<u8>, b: Seq<u8>)
    requires
        a.len() == b.len(),
        forall|x: int| 0 <= x < a.len() && b[x] == WHITE ==> a[x] == WHITE,
    ensures
        white_count(b) <= white_count(a),
    decreases a.len(),
{
    if a.len() > 0 {
        lemma_white_count_le(a.drop_last(), b.drop_last());
    }
}

proof fn lemma_white_count_lt(a: Seq<u8>, b: Seq<u8>, v: int)
    requires
        a.len() == b.len(),
        forall|x: int| 0 <= x < a.len() && b[x] == WHITE ==> a[x] == WHITE,
        0 <= v < a.len(),
        a[v] == WHITE,
        b[v] != WHITE,
    ensures
        white_count(b) < white_count(a),
    decreases a.len(),
{
    if v < a.len() - 1 {
        lemma_white_count_lt(a.drop_last(), b.drop_last(), v);
    } else {
        lemma_white_count_le(a.drop_last(), b.drop_last());
    }
}

/// Each step of `path` follows an edge of `g`.
spec fn is_path(g: Seq<Seq<usize>>, path: Seq<usize>) -> bool {
    &&& forall|a: int| 0 <= a < path.len() ==> (#[trigger] path[a]) < g.len()
    &&& forall|a: int| 0 <= a < path.len() - 1 ==> g[path[a] as int].contains(#[trigger] path[a + 1])
}

/// Along a path of a ranked graph, ranks fall.
proof fn lemma_path_ranks(g: Seq<Seq<usize>>, rank: Seq<int>, path: Seq<usize>, a: int, b: int)
    requires
        ranked(g, rank),
        is_path(g, path),
        0 <= a < b < path.len(),
    ensures
        rank[path[b] as int] < rank[path[a] as int],
    decreases b - a,
{
    let a1 = b - 1;
    let u = path[a1] as int;
    assert(g[path[a1] as int].contains(path[a1 + 1]));
    assert(g[u].contains(path[b]));
    let k = choose|k: int| 0 <= k < g[u].len() && g[u][k] == path[b];
    assert(rank[g[u][k] as int] < rank[u]);
    if a < b - 1 {
        lemma_path_ranks(g, rank, path, a, b - 1);
    }
}

/// A path that comes back to a node on it means no ranking exists.
proof fn lemma_cycle_not_acyclic(g: Seq<Seq<usize>>, path: Seq<usize>, j: int)
    requires
        is_path(g, path),
        path.len() > 0,
        0 <= j < path.len(),
        g[path.last() as int].contains(path[j]),
    ensures
        !acyclic(g),
{
    if acyclic(g) {
        let rank = choose|rank: Seq<int>| #[trigger] ranked(g, rank);
        let u = path.last() as int;
        let k = choose|k: int| 0 <= k < g[u].len() && g[u][k] == path[j];
        assert(rank[g[u][k] as int] < rank[u]);
        if j < path.len() - 1 {
            lemma_path_ranks(g, rank, path, j, path.len() - 1);
        }
    }
}

/// What holds of the colouring between visits: gray nodes are exactly
/// the current path; every black node ranks above all it depends on,
/// which are black too.
spec fn coloring_ok(g: Seq<Seq<usize>>, colors: Seq<u8>, path: Seq<usize>, rank: Seq<int>, tick: int) -> bool {
    &&& colors.len() == g.len()
    &&& rank.len() == g.len()
    &&& forall|x: int| 0 <= x < colors.len() ==> #[trigger] colors[x] <= BLACK
    &&& forall|x: int| 0 <= x < colors.len() ==> (#[trigger] colors[x] == GRAY <==> path.contains(x as usize))
    &&& forall|x: int| 0 <= x < colors.len() && #[trigger] colors[x] == BLACK ==> 0 <= rank[x] < tick
    &&& forall|u: int, k: int|
        0 <= u < g.len() && colors[u] == BLACK && 0 <= k < g[u].len() ==> colors[#[trigger] g[u][k] as int] == BLACK
            && rank[g[u][k] as int] < rank[u]
}

/// Depth-first from the unvisited node `v`, below the gray `path`.
/// Finds a dependency that is gray, which closes a cycle, or colours
/// every node reachable from `v` black.
fn visit(
    v: usize,
    g: &Vec<Vec<usize>>,
    colors: &mut Vec<u8>,
    Ghost(path): Ghost<Seq<usize>>,
    Ghost(rank): Ghost<Seq<int>>,
    Ghost(tick): Ghost<int>,
) -> (r: (Result<(), usize>, Ghost<Seq<int>>, Ghost<int>))
    requires
        v < g@.len(),
        g@.len() <= usize::MAX,
        0 <= tick,
        forall|u: int, k: int| 0 <= u < g@.len() && 0 <= k < g@[u]@.len() ==> (#[trigger] g@[u]@[k]) < g@.len(),
        old(colors)@[v as int] == WHITE,
        is_path(g@.map_values(|d: Vec<usize>| d@), path.push(v)),
        coloring_ok(g@.map_values(|d: Vec<usize>| d@), old(colors)@, path, rank, tick),
    ensures
        final(colors)@.len() == old(colors)@.len(),
        forall|x: int| 0 <= x < old(colors)@.len() && final(colors)@[x] == WHITE ==> old(colors)@[x] == WHITE,
        match r.0 {
            Ok(()) => {
                &&& coloring_ok(g@.map_values(|d: Vec<usize>| d@), final(colors)@, path, r.1@, r.2@)
                &&& final(colors)@[v as int] == BLACK
                &&& tick <= r.2@
            },
            Err(d) => !acyclic(g@.map_values(|d: Vec<usize>| d@)) && d < g@.len(),
        },
    decreases white_count(old(colors)@),
{
    let ghost gv = g@.map_values(|d: Vec<usize>| d@);
    let ghost c0 = colors@;
    colors.set(v, GRAY);
    let ghost p = path.push(v);
    proof {
        lemma_white_count_lt(c0, colors@, v as int);
        crate::text::lemma_push_contains(path, v);
        assert(p[path.len() as int] == v);
        assert forall|x: int| 0 <= x < colors@.len() implies (#[trigger] colors@[x] == GRAY <==> p.contains(x as usize)) by {
            if x != v {
                assert(colors@[x] == c0[x]);
                assert(x as usize != v);
            }
        }
    }
    let ghost tick0 = tick;
    let ghost mut rank = rank;
    let ghost mut tick = tick;
    let deps = &g[v];
    assert(gv[v as int] == deps@);
    let mut k: usize = 0;
    while k < deps.len()
        invariant
            v < g@.len(),
            g@.len() <= usize::MAX,
            0 <= tick0 <= tick,
            gv == g@.map_values(|d: Vec<usize>| d@),
            deps@ == gv[v as int],
            forall|u: int, k: int| 0 <= u < g@.len() && 0 <= k < g@[u]@.len() ==> (#[trigger] g@[u]@[k]) < g@.len(),
            is_path(gv, p),
            p == path.push(v),
            k <= deps@.len(),
            colors@.len() == c0.len(),
            c0 == old(colors)@,
            colors@[v as int] == GRAY,
            forall|x: int| 0 <= x < c0.len() && colors@[x] == WHITE ==> c0[x] == WHITE,
            white_count(colors@) < white_count(c0),
            coloring_ok(gv, colors@, p, rank, tick),
            forall|j: int| 0 <= j < k ==> colors@[#[trigger] deps@[j] as int] == BLACK,
        decreases deps@.len() - k,
    {
        let d = deps[k];
        assert(gv[v as int][k as int] == d);
        if colors[d] == GRAY {
            proof {
                assert(p.contains(d));
                let j = choose|j: int| 0 <= j < p.len() && p[j] == d;
                assert(gv[p.last() as int].contains(p[j]));
                lemma_cycle_not_acyclic(gv, p, j);
            }
            return (Err(d), Ghost(rank), Ghost(tick));
        }
        if colors[d] == WHITE {
            proof {
                assert(gv[v as int].contains(d));
                assert(is_path(gv, p.push(d))) by {
                    assert forall|a: int| 0 <= a < p.push(d).len() - 1 implies gv[p.push(d)[a] as int].contains(
                        #[trigger] p.push(d)[a + 1],
                    ) by {
                        if a < p.len() - 1 {
                            assert(p.push(d)[a] == p[a] && p.push(d)[a + 1] == p[a + 1]);
                        }
                    }
                }
            }
            let ghost c1 = colors@;
            let (res, Ghost(r2), Ghost(t2)) = visit(d, g, colors, Ghost(p), Ghost(rank), Ghost(tick));
            match res {
                Err(x) => {
                    return (Err(x), Ghost(r2), Ghost(t2));
                },
                Ok(()) => {
                    proof {
                        lemma_white_count_le(c1, colors@);
                        rank = r2;
                        tick = t2;
                        assert(colors@[v as int] == GRAY) by {
                            assert(p.contains(v));
                        }
                        assert forall|j: int| 0 <= j < k implies colors@[#[trigger] deps@[j] as int] == BLACK by {
                            assert(c1[deps@[j] as int] == BLACK);
                            if colors@[deps@[j] as int] == WHITE {
                            }
                            if colors@[deps@[j] as int] == GRAY {
                                assert(p.contains(deps@[j]));
                                assert(c1[deps@[j] as int] == GRAY);
                            }
                        }
                    }
                },
            }
        }
        proof {
            assert(colors@[d as int] == BLACK) by {
                if colors@[d as int] == GRAY {
                    assert(p.contains(d));
                }
            }
        }
        k = k + 1;
    }
    // every dependency is black: v finishes, above all of them
    let ghost c2 = colors@;
    colors.set(v, BLACK);
    proof {
        let new_rank = rank.update(v as int, tick);
        assert forall|x: int| 0 <= x < colors@.len() implies (#[trigger] colors@[x] == GRAY <==> path.contains(x as usize)) by {
            if x != v {
                assert(colors@[x] == c2[x]);
                assert(x as usize != v);
                assert(p.contains(x as usize) <==> path.contains(x as usize)) by {
                    crate::text::lemma_push_contains(path, v);
                }
            } else {
                assert(!path.contains(v)) by {
                    if path.contains(v) {
                        assert(c0[v as int] == GRAY);
                    }
                }
            }
        }
        assert forall|u: int, j: int|
            0 <= u < gv.len() && colors@[u] == BLACK && 0 <= j < gv[u].len() implies colors@[#[trigger] gv[u][j] as int]
            == BLACK && new_rank[gv[u][j] as int] < new_rank[u] by {
            if u == v {
                assert(deps@[j] == gv[u][j]);
                assert(c2[gv[u][j] as int] == BLACK);
                assert(gv[u][j] != v);
            } else {
                assert(c2[u] == BLACK);
                assert(c2[gv[u][j] as int] == BLACK);
                assert(gv[u][j] != v);
            }
        }
        assert(coloring_ok(gv, colors@, path, new_rank, tick + 1));
        lemma_white_count_le(c0, colors@);
        rank = new_rank;
        tick = tick + 1;
    }
    (Ok(()), Ghost(rank), Ghost(tick))
}

/// Depth-first over every node in order: finds a cycle, reporting a
/// node on it, or shows there is none.
fn detect_cycle(g: &Vec<Vec<usize>>) -> (r: Result<(), usize>)
    requires
        forall|u: int, k: int| 0 <= u < g@.len() && 0 <= k < g@[u]@.len() ==> (#[trigger] g@[u]@[k]) < g@.len(),
    ensures
        match r {
            Ok(()) => acyclic(g@.map_values(|d: Vec<usize>| d@)),
            Err(d) => !acyclic(g@.map_values(|d: Vec<usize>| d@)) && d < g@.len(),
        },
{
    let ghost gv = g@.map_values(|d: Vec<usize>| d@);
    let n = g.len();
    let mut colors: Vec<u8> = Vec::new();
    let mut i: usize = 0;
    while i < n
        invariant
            i <= n,
            n == g@.len(),
            colors@.len() == i,
            forall|x: int| 0 <= x < i ==> #[trigger] colors@[x] == WHITE,
        decreases n - i,
    {
        colors.push(WHITE);
        i = i + 1;
    }
    let ghost mut rank: Seq<int> = Seq::new(n as nat, |x: int| 0int);
    let ghost mut tick: int = 0;
    proof {
        assert(coloring_ok(gv, colors@, Seq::empty(), rank, tick));
    }
    let mut root: usize = 0;
    while root < n
        invariant
            root <= n,
            n == g@.len(),
            gv == g@.map_values(|d: Vec<usize>| d@),
            forall|u: int, k: int| 0 <= u < g@.len() && 0 <= k < g@[u]@.len() ==> (#[trigger] g@[u]@[k]) < g@.len(),
            0 <= tick,
            coloring_ok(gv, colors@, Seq::empty(), rank, tick),
            forall|x: int| 0 <= x < root ==> #[trigger] colors@[x] == BLACK,
        decreases n - root,
    {
        if colors[root] == WHITE {
            proof {
                assert(is_path(gv, Seq::<usize>::empty().push(root)));
            }
            let ghost c0 = colors@;
            let (res, Ghost(r2), Ghost(t2)) = visit(root, g, &mut colors, Ghost(Seq::empty()), Ghost(rank), Ghost(tick));
            match res {
                Err(d) => {
                    return Err(d);
                },
                Ok(()) => {
                    proof {
                        rank = r2;
                        tick = t2;
                        assert forall|x: int| 0 <= x < root + 1 implies #[trigger] colors@[x] == BLACK by {
                            if x < root {
                                assert(c0[x] == BLACK);
                                if colors@[x] == WHITE {
                                }
                                if colors@[x] == GRAY {
                                    assert(Seq::<usize>::empty().contains(x as usize));
                                }
                            }
                        }
                    }
                },
            }
        } else {
            proof {
                if colors@[root as int] == GRAY {
                    assert(Seq::<usize>::empty().contains(root));
                }
            }
        }
        root = root + 1;
    }
    proof {
        assert(ranked(gv, rank));
    }
    Ok(())
}

proof fn lemma_no_id_fault(ids: Seq<Seq<char>>, i: nat)
    requires
        id_fault(ids, i) is None,
    ensures
        forall|b: int| i <= b < ids.len() ==> !ids.take(b).contains(#[trigger] ids[b]),
    decreases ids.len() - i,
{
    if i < ids.len() {
        lemma_no_id_fault(ids, i + 1);
    }
}

proof fn lemma_unique_ids(ids: Seq<Seq<char>>)
    requires
        id_fault(ids, 0) is None,
    ensures
        ids.no_duplicates(),
{
    lemma_no_id_fault(ids, 0);
    assert forall|a: int, b: int| 0 <= a < ids.len() && 0 <= b < ids.len() && a != b implies ids[a] != ids[b] by {
        if a < b {
            assert(ids.take(b)[a] == ids[a]);
            assert(!ids.take(b).contains(ids[b]));
        } else {
            assert(ids.take(a)[b] == ids[b]);
            assert(!ids.take(a).contains(ids[a]));
        }
    }
}

fn index_in(ids: &Vec<Vec<char>>, id: &[char]) -> (r: Option<usize>)
    ensures
        match r {
            Some(k) => k < ids@.len() && ids@[k as int]@ == id@,
            None => !crate::text::char_views(ids@).contains(id@),
        },
{
    let mut k: usize = 0;
    while k < ids.len()
        invariant
            k <= ids@.len(),
            forall|j: int| 0 <= j < k ==> ids@[j]@ != id@,
        decreases ids@.len() - k,
    {
        if chars_eq(ids[k].as_slice(), id) {
            return Some(k);
        }
        k = k + 1;
    }
    assert forall|j: int| 0 <= j < ids@.len() implies #[trigger] crate::text::char_views(ids@)[j] != id@ by {
        assert(ids@[j]@ != id@);
    }
    None
}

fn invalid(m: Vec<char>) -> (r: Result<(), AfgError>)
    ensures
        r matches Err(e) && e@ == AfgFault::Validation(m@),
{
    Err(AfgError::Validation(string_of_vec(&m)))
}

/// Checks a parsed spec: some nodes; ids not blank and not repeated;
/// dependencies only on declared nodes; no cycle among them. Reports
/// the first rule broken, in that order.
pub fn validate_spec(spec: &WorkflowSpec) -> (r: Result<(), AfgError>)
    ensures
        match r {
            Ok(()) => spec_fault(*spec) is None && acyclic(dep_graph(*spec)),
            Err(e) => match spec_fault(*spec) {
                Some(f) => e@ == AfgFault::Validation(fault_message(f)),
                None => !acyclic(dep_graph(*spec)) && exists|x: int|
                    0 <= x < node_ids(*spec).len() && e@ == AfgFault::Validation(
                        cycle_message(#[trigger] node_ids(*spec)[x]),
                    ),
            },
        },
{
    let ghost ids_v = node_ids(*spec);
    let ghost deps_v = node_deps(*spec);
    if spec.nodes.len() == 0 {
        return invalid(chars_of("workflow has no nodes"));
    }
    let mut ids: Vec<Vec<char>> = Vec::new();
    let mut i: usize = 0;
    while i < spec.nodes.len()
        invariant
            i <= spec.nodes@.len(),
            ids_v == node_ids(*spec),
            crate::text::char_views(ids@) == ids_v.take(i as int),
            id_fault(ids_v, 0) == id_fault(ids_v, i as nat),
        decreases spec.nodes@.len() - i,
    {
        let id = chars_of(spec.nodes[i].id.as_str());
        assert(ids_v[i as int] == id@);
        let t = chars_trim(id.as_slice());
        if t.len() == 0 {
            return invalid(chars_of("node id is empty"));
        }
        match index_in(&ids, id.as_slice()) {
            Some(k) => {
                assert(ids_v.take(i as int)[k as int] == id@);
                let mut m = chars_of("duplicate node id: ");
                crate::text::append_chars(&mut m, id.as_slice());
                return invalid(m);
            },
            None => {},
        }
        let ghost v0 = crate::text::char_views(ids@);
        let ghost idv = id@;
        ids.push(id);
        assert(crate::text::char_views(ids@) =~= v0.push(idv));
        assert(ids_v.take(i + 1) =~= ids_v.take(i as int).push(ids_v[i as int]));
        i = i + 1;
    }
    assert(ids_v.take(ids_v.len() as int) =~= ids_v);
    proof {
        lemma_unique_ids(ids_v);
    }
    // every dependency names a declared node; record where it is
    let mut g: Vec<Vec<usize>> = Vec::new();
    let mut a: usize = 0;
    while a < spec.nodes.len()
        invariant
            a <= spec.nodes@.len(),
            ids_v == node_ids(*spec),
            deps_v == node_deps(*spec),
            ids_v.no_duplicates(),
            id_fault(ids_v, 0) is None,
            crate::text::char_views(ids@) == ids_v,
            dep_fault(ids_v, deps_v, 0, 0) == dep_fault(ids_v, deps_v, a as nat, 0),
            g@.len() == a,
            forall|x: int| 0 <= x < a ==> #[trigger] g@[x]@ == dep_graph(*spec)[x],
            forall|u: int, k: int| 0 <= u < a && 0 <= k < g@[u]@.len() ==> (#[trigger] g@[u]@[k]) < ids_v.len(),
        decreases spec.nodes@.len() - a,
    {
        let node = &spec.nodes[a];
        assert(deps_v[a as int] == views(node.depends_on@));
        let mut row: Vec<usize> = Vec::new();
        let mut k: usize = 0;
        while k < node.depends_on.len()
            invariant
                a < spec.nodes@.len(),
                node == spec.nodes@[a as int],
                ids_v == node_ids(*spec),
                deps_v == node_deps(*spec),
                deps_v[a as int] == views(node.depends_on@),
                ids_v.no_duplicates(),
                id_fault(ids_v, 0) is None,
                crate::text::char_views(ids@) == ids_v,
                k <= node.depends_on@.len(),
                dep_fault(ids_v, deps_v, 0, 0) == dep_fault(ids_v, deps_v, a as nat, k as nat),
                row@.len() == k,
                forall|j: int| 0 <= j < k ==> #[trigger] row@[j] == position_of(ids_v, deps_v[a as int][j]) as usize,
                forall|j: int| 0 <= j < k ==> (#[trigger] row@[j]) < ids_v.len(),
            decreases node.depends_on@.len() - k,
        {
            let dep = chars_of(node.depends_on[k].as_str());
            assert(deps_v[a as int][k as int] == dep@);
            match index_in(&ids, dep.as_slice()) {
                Some(p) => {
                    proof {
                        assert(ids_v[p as int] == dep@);
                        let c = position_of(ids_v, dep@);
                        assert(0 <= c < ids_v.len() && ids_v[c] == dep@);
                        assert(c == p);
                        assert(ids_v.contains(dep@));
                    }
                    row.push(p);
                },
                None => {
                    let mut m = chars_of("node '");
                    crate::text::append_str(&mut m, node.id.as_str());
                    crate::text::append_str(&mut m, "' depends on unknown node '");
                    crate::text::append_chars(&mut m, dep.as_slice());
                    crate::text::append_str(&mut m, "'");
                    assert(ids_v[a as int] == node.id@);
                    assert(!ids_v.contains(deps_v[a as int][k as int]));
                    assert(dep_fault(ids_v, deps_v, a as nat, k as nat) == Some(
                        SpecFault::UnknownDependency(ids_v[a as int], deps_v[a as int][k as int]),
                    ));
                    assert(m@ =~= fault_message(SpecFault::UnknownDependency(ids_v[a as int], deps_v[a as int][k as int])));
                    return invalid(m);
                },
            }
            k = k + 1;
        }
        assert(row@ =~= dep_graph(*spec)[a as int]);
        g.push(row);
        a = a + 1;
    }
    assert(g@.map_values(|d: Vec<usize>| d@) =~= dep_graph(*spec));
    match detect_cycle(&g) {
        Ok(()) => Ok(()),
        Err(d) => {
            let mut m = chars_of("cycle detected involving node '");
            crate::text::append_chars(&mut m, ids[d].as_slice());
            crate::text::append_str(&mut m, "'");
            assert(ids_v[d as int] == ids@[d as int]@);
            invalid(m)
        },
    }
}

/// The node to run next: the first, in order, not yet completed
/// whose dependencies all are.
pub open spec fn runnable(n: (Seq<char>, Seq<Seq<char>>), done: Seq<Seq<char>>) -> bool {
    !done.contains(n.0) && forall|k: int| 0 <= k < n.1.len() ==> done.contains(#[trigger] n.1[k])
}

/// The position of the first runnable node, if any.
pub open spec fn next_runnable(spec: WorkflowSpec, done: Seq<Seq<char>>) -> Option<nat> {
    if exists|i: int| 0 <= i < spec.nodes@.len() && #[trigger] runnable((node_ids(spec)[i], node_deps(spec)[i]), done) {
        Some(
            (choose|i: int|
                0 <= i < spec.nodes@.len() && runnable((node_ids(spec)[i], node_deps(spec)[i]), done) && forall|j: int|
                    0 <= j < i ==> !#[trigger] runnable((node_ids(spec)[j], node_deps(spec)[j]), done)) as nat,
        )
    } else {
        None
    }
}

/// The node chosen to run next is one of the spec's.
pub proof fn lemma_next_runnable_bound(spec: WorkflowSpec, done: Seq<Seq<char>>)
    ensures
        next_runnable(spec, done) matches Some(i) ==> i < spec.nodes@.len(),
{
    if exists|i: int| 0 <= i < spec.nodes@.len() && #[trigger] runnable((node_ids(spec)[i], node_deps(spec)[i]), done) {
        let w = choose|i: int| 0 <= i < spec.nodes@.len() && #[trigger] runnable((node_ids(spec)[i], node_deps(spec)[i]), done);
        lemma_first_runnable(spec, done, w);
    }
}

proof fn lemma_first_runnable(spec: WorkflowSpec, done: Seq<Seq<char>>, w: int)
    requires
        0 <= w < spec.nodes@.len(),
        runnable((node_ids(spec)[w], node_deps(spec)[w]), done),
    ensures
        exists|i: int|
            0 <= i < spec.nodes@.len() && runnable((node_ids(spec)[i], node_deps(spec)[i]), done) && forall|j: int|
                0 <= j < i ==> !#[trigger] runnable((node_ids(spec)[j], node_deps(spec)[j]), done),
    decreases w,
{
    if exists|j: int| 0 <= j < w && #[trigger] runnable((node_ids(spec)[j], node_deps(spec)[j]), done) {
        let j = choose|j: int| 0 <= j < w && #[trigger] runnable((node_ids(spec)[j], node_deps(spec)[j]), done);
        lemma_first_runnable(spec, done, j);
    }
}

fn holds(done: &Vec<Vec<char>>, x: &[char]) -> (r: bool)
    ensures
        r == crate::text::char_views(done@).contains(x@),
{
    match index_in(done, x) {
        Some(k) => {
            assert(crate::text::char_views(done@)[k as int] == x@);
            true
        },
        None => false,
    }
}

/// The first node with every dependency in `completed` and not itself
/// completed. Nothing means the run is done.
pub fn pick_next_node<'a>(spec: &'a WorkflowSpec, completed: &[String]) -> (r: Option<&'a WorkflowNodeSpec>)
    ensures
        match next_runnable(*spec, views(completed@)) {
            Some(i) => r == Some(&spec.nodes@[i as int]),
            None => r is None,
        },
{
    let ghost done = views(completed@);
    let mut dv: Vec<Vec<char>> = Vec::new();
    let mut c: usize = 0;
    while c < completed.len()
        invariant
            c <= completed@.len(),
            crate::text::char_views(dv@) == done.take(c as int),
            done == views(completed@),
        decreases completed@.len() - c,
    {
        let ghost d0 = crate::text::char_views(dv@);
        dv.push(chars_of(completed[c].as_str()));
        assert(crate::text::char_views(dv@) =~= d0.push(done[c as int]));
        assert(done.take(c + 1) =~= done.take(c as int).push(done[c as int]));
        c = c + 1;
    }
    assert(done.take(done.len() as int) =~= done);
    let mut i: usize = 0;
    while i < spec.nodes.len()
        invariant
            i <= spec.nodes@.len(),
            crate::text::char_views(dv@) == done,
            done == views(completed@),
            forall|j: int| 0 <= j < i ==> !#[trigger] runnable((node_ids(*spec)[j], node_deps(*spec)[j]), done),
        decreases spec.nodes@.len() - i,
    {
        let n = &spec.nodes[i];
        let ghost nv = (node_ids(*spec)[i as int], node_deps(*spec)[i as int]);
        assert(nv.0 == n.id@ && nv.1 == views(n.depends_on@));
        let id = chars_of(n.id.as_str());
        let mut ok = !holds(&dv, id.as_slice());
        let mut k: usize = 0;
        while ok && k < n.depends_on.len()
            invariant
                k <= n.depends_on@.len(),
                nv.1 == views(n.depends_on@),
                crate::text::char_views(dv@) == done,
                ok ==> forall|m: int| 0 <= m < k ==> done.contains(#[trigger] nv.1[m]),
                !ok ==> !runnable(nv, done),
                ok ==> !done.contains(nv.0),
                nv.0 == n.id@,
            decreases n.depends_on@.len() - k,
        {
            let d = chars_of(n.depends_on[k].as_str());
            assert(nv.1[k as int] == d@);
            if !holds(&dv, d.as_slice()) {
                ok = false;
            }
            k = k + 1;
        }
        if ok {
            proof {
                assert(runnable(nv, done));
                let c = choose|c: int|
                    0 <= c < spec.nodes@.len() && runnable((node_ids(*spec)[c], node_deps(*spec)[c]), done) && forall|j: int|
                        0 <= j < c ==> !#[trigger] runnable((node_ids(*spec)[j], node_deps(*spec)[j]), done);
                if c < i {
                } else if c > i {
                    assert(!runnable((node_ids(*spec)[i as int], node_deps(*spec)[i as int]), done));
                }
                assert(c == i);
            }
            return Some(n);
        }
        i = i + 1;
    }
    None
}

} // verus!
