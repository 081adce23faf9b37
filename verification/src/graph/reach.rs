//! Reachability in a directed graph over node indices, and what a
//! strongly connected component is in its terms.

use vstd::prelude::*;

use crate::graph::scc::{edges_in_range, lists_each_node_once};

verus! {

/// The graph as successor lists.
pub open spec fn graph_of(adj: Seq<Vec<usize>>) -> Seq<Seq<usize>> {
    adj.map_values(|v: Vec<usize>| v@)
}

/// Whether `p` is a walk in `g`: a non-empty sequence of nodes, each
/// step along an edge.
pub open spec fn is_walk(g: Seq<Seq<usize>>, p: Seq<usize>) -> bool {
    &&& p.len() > 0
    &&& forall|i: int| 0 <= i < p.len() ==> (#[trigger] p[i] as int) < g.len()
    &&& forall|i: int| 0 <= i < p.len() - 1 ==> #[trigger] g[p[i] as int].contains(p[i + 1])
}

/// Whether `t` can be reached from `s` by following edges (in no
/// steps, when they are the same node of the graph).
pub open spec fn reaches(g: Seq<Seq<usize>>, s: usize, t: usize) -> bool {
    exists|p: Seq<usize>| #[trigger] is_walk(g, p) && p[0] == s && p.last() == t
}

/// Whether each of two nodes reaches the other.
pub open spec fn mutually(g: Seq<Seq<usize>>, x: usize, y: usize) -> bool {
    reaches(g, x, y) && reaches(g, y, x)
}

/// Whether the components are exactly the strongly connected
/// components of `g`: every node is in exactly one, two nodes of one
/// component reach each other, and two nodes that reach each other
/// are in the same component.
pub open spec fn exact_sccs(g: Seq<Seq<usize>>, cs: Seq<Seq<usize>>) -> bool {
    &&& lists_each_node_once(cs, g.len())
    &&& forall|i: int, a: int, b: int|
        0 <= i < cs.len() && 0 <= a < cs[i].len() && 0 <= b < cs[i].len() ==> mutually(
            g,
            #[trigger] cs[i][a],
            #[trigger] cs[i][b],
        )
    &&& forall|i: int, j: int, a: int, b: int|
        0 <= i < cs.len() && 0 <= j < cs.len() && 0 <= a < cs[i].len() && 0 <= b < cs[j].len()
            && mutually(g, #[trigger] cs[i][a], #[trigger] cs[j][b]) ==> i == j
}

/// Whether `r` is `g` with every edge turned around.
pub open spec fn reverse_of(g: Seq<Seq<usize>>, r: Seq<Seq<usize>>) -> bool {
    &&& r.len() == g.len()
    &&& forall|x: usize, y: usize|
        (x as int) < g.len() && (y as int) < g.len() ==> (#[trigger] r[y as int].contains(x)
            <==> #[trigger] g[x as int].contains(y))
}

pub proof fn lemma_reaches_self(g: Seq<Seq<usize>>, s: usize)
    requires
        (s as int) < g.len(),
    ensures
        reaches(g, s, s),
{
    let p = seq![s];
    assert(is_walk(g, p));
}

pub proof fn lemma_reaches_step(g: Seq<Seq<usize>>, s: usize, x: usize, y: usize)
    requires
        reaches(g, s, x),
        (x as int) < g.len(),
        (y as int) < g.len(),
        g[x as int].contains(y),
    ensures
        reaches(g, s, y),
{
    let p = choose|p: Seq<usize>| is_walk(g, p) && p[0] == s && p.last() == x;
    let q = p.push(y);
    assert forall|i: int| 0 <= i < q.len() implies (#[trigger] q[i] as int) < g.len() by {
        if i < p.len() {
            assert(q[i] == p[i]);
        }
    }
    assert forall|i: int| 0 <= i < q.len() - 1 implies #[trigger] g[q[i] as int].contains(q[i + 1]) by {
        if i < p.len() - 1 {
            assert(q[i] == p[i] && q[i + 1] == p[i + 1]);
        } else {
            assert(q[i] == x);
        }
    }
    assert(is_walk(g, q));
}

pub proof fn lemma_reaches_trans(g: Seq<Seq<usize>>, a: usize, b: usize, c: usize)
    requires
        reaches(g, a, b),
        reaches(g, b, c),
    ensures
        reaches(g, a, c),
{
    let p = choose|p: Seq<usize>| is_walk(g, p) && p[0] == a && p.last() == b;
    let q = choose|q: Seq<usize>| is_walk(g, q) && q[0] == b && q.last() == c;
    let w = p + q.drop_first();
    assert forall|i: int| 0 <= i < w.len() implies (#[trigger] w[i] as int) < g.len() by {
        if i < p.len() {
            assert(w[i] == p[i]);
        } else {
            assert(w[i] == q[i - p.len() + 1]);
        }
    }
    assert forall|i: int| 0 <= i < w.len() - 1 implies #[trigger] g[w[i] as int].contains(w[i + 1]) by {
        if i < p.len() - 1 {
            assert(w[i] == p[i] && w[i + 1] == p[i + 1]);
        } else if i == p.len() - 1 {
            assert(w[i] == p.last());
            assert(w[i + 1] == q[1]);
            assert(q[0] == b);
        } else {
            assert(w[i] == q[i - p.len() + 1]);
            assert(w[i + 1] == q[i - p.len() + 2]);
        }
    }
    if q.len() == 1 {
        assert(w =~= p);
    } else {
        assert(w.last() == q.last());
    }
    assert(is_walk(g, w));
}

/// A walk read backwards is a walk of the reversed graph.
pub proof fn lemma_reaches_reversed(g: Seq<Seq<usize>>, r: Seq<Seq<usize>>, a: usize, b: usize)
    requires
        reverse_of(g, r),
        reaches(g, a, b),
    ensures
        reaches(r, b, a),
{
    let p = choose|p: Seq<usize>| is_walk(g, p) && p[0] == a && p.last() == b;
    let q = p.reverse();
    assert forall|i: int| 0 <= i < q.len() implies (#[trigger] q[i] as int) < r.len() by {
        assert(q[i] == p[p.len() - 1 - i]);
    }
    assert forall|i: int| 0 <= i < q.len() - 1 implies #[trigger] r[q[i] as int].contains(q[i + 1]) by {
        let k = p.len() - 2 - i;
        assert(q[i] == p[k + 1]);
        assert(q[i + 1] == p[k]);
        assert(g[p[k] as int].contains(p[k + 1]));
    }
    assert(q[0] == p.last());
    assert(q.last() == p[0]);
    assert(is_walk(r, q));
}

/// Reversal goes both ways.
pub proof fn lemma_reverse_symmetric(g: Seq<Seq<usize>>, r: Seq<Seq<usize>>)
    requires
        reverse_of(g, r),
    ensures
        reverse_of(r, g),
{
}

pub proof fn lemma_mutually_symmetric_transitive(g: Seq<Seq<usize>>, a: usize, b: usize, c: usize)
    ensures
        mutually(g, a, b) ==> mutually(g, b, a),
        mutually(g, a, b) && mutually(g, b, c) ==> mutually(g, a, c),
{
    if mutually(g, a, b) && mutually(g, b, c) {
        lemma_reaches_trans(g, a, b, c);
        lemma_reaches_trans(g, c, b, a);
    }
}

/// Closed under the edges: every successor of a marked node is marked.
pub open spec fn closed(g: Seq<Seq<usize>>, seen: Seq<bool>) -> bool {
    forall|x: int, k: int|
        0 <= x < g.len() && seen[x] && 0 <= k < g[x].len() ==> seen[#[trigger] g[x][k] as int]
}

/// A node reachable from a marked node of a closed marking is marked.
proof fn lemma_closed_reach(g: Seq<Seq<usize>>, seen: Seq<bool>, p: Seq<usize>)
    requires
        seen.len() == g.len(),
        closed(g, seen),
        is_walk(g, p),
        seen[p[0] as int],
    ensures
        seen[p.last() as int],
    decreases p.len(),
{
    if p.len() > 1 {
        let q = p.drop_last();
        assert forall|i: int| 0 <= i < q.len() implies (#[trigger] q[i] as int) < g.len() by {
            assert(q[i] == p[i]);
        }
        assert forall|i: int| 0 <= i < q.len() - 1 implies #[trigger] g[q[i] as int].contains(q[i + 1]) by {
            assert(q[i] == p[i] && q[i + 1] == p[i + 1]);
        }
        lemma_closed_reach(g, seen, q);
        let x = p[p.len() - 2];
        assert(q.last() == x);
        assert(p.last() == p[p.len() - 1]);
        assert(g[p[p.len() - 2] as int].contains(p[p.len() - 2 + 1]));
        assert(g[x as int].contains(p.last()));
        let k = choose|k: int| 0 <= k < g[x as int].len() && g[x as int][k] == p.last();
        assert(seen[g[x as int][k] as int]);
    }
}

/// How many nodes are not yet marked.
pub open spec fn unmarked(seen: Seq<bool>) -> nat
    decreases seen.len(),
{
    if seen.len() == 0 {
        0
    } else {
        unmarked(seen.drop_last()) + if seen.last() {
            0nat
        } else {
            1nat
        }
    }
}

proof fn lemma_unmarked_mark(seen: Seq<bool>, x: int)
    requires
        0 <= x < seen.len(),
        !seen[x],
    ensures
        unmarked(seen.update(x, true)) + 1 == unmarked(seen),
    decreases seen.len(),
{
    let t = seen.update(x, true);
    if x == seen.len() - 1 {
        assert(t.drop_last() =~= seen.drop_last());
    } else {
        assert(t.drop_last() =~= seen.drop_last().update(x, true));
        lemma_unmarked_mark(seen.drop_last(), x);
    }
}

/// The nodes reachable from `s`.
pub fn reach_from(adj: &[Vec<usize>], s: usize) -> (seen: Vec<bool>)
    requires
        edges_in_range(adj@),
        s < adj@.len(),
    ensures
        seen@.len() == adj@.len(),
        forall|x: int| 0 <= x < adj@.len() ==> (#[trigger] seen@[x] <==> reaches(graph_of(adj@), s, x as usize)),
{
    let ghost g = graph_of(adj@);
    let n = adj.len();
    let mut seen: Vec<bool> = Vec::new();
    let mut i: usize = 0;
    while i < n
        invariant
            i <= n,
            n == adj@.len(),
            seen@.len() == i,
            forall|x: int| 0 <= x < i ==> !#[trigger] seen@[x],
        decreases n - i,
    {
        seen.push(false);
        i = i + 1;
    }
    proof {
        lemma_unmarked_mark(seen@, s as int);
        lemma_reaches_self(g, s);
    }
    let ghost before = seen@;
    seen.set(s, true);
    let mut stack: Vec<usize> = Vec::new();
    stack.push(s);
    proof {
        assert forall|x: int| 0 <= x < n && #[trigger] seen@[x] implies x == s as int by {
            if x != s as int {
                assert(seen@[x] == before[x]);
            }
        }
        assert(stack@[0] == s);
        assert(stack@.contains(s));
    }
    while stack.len() > 0
        invariant
            n == adj@.len(),
            g == graph_of(adj@),
            edges_in_range(adj@),
            seen@.len() == n,
            s < n,
            seen@[s as int],
            forall|a: int| 0 <= a < stack@.len() ==> (#[trigger] stack@[a]) < n && seen@[stack@[a] as int],
            forall|x: int| 0 <= x < n && #[trigger] seen@[x] ==> reaches(g, s, x as usize),
            forall|x: int, k: int|
                0 <= x < n && seen@[x] && !stack@.contains(x as usize) && 0 <= k < g[x].len() ==> seen@[
                    #[trigger] g[x][k] as int],
        decreases 2 * unmarked(seen@) + stack@.len(),
    {
        let ghost s_before = stack@;
        let x = stack.pop().unwrap();
        let ghost st0 = stack@;
        proof {
            assert(s_before =~= st0.push(x));
            assert forall|y: usize| #[trigger] st0.contains(y) implies s_before.contains(y) by {
                let a = choose|a: int| 0 <= a < st0.len() && st0[a] == y;
                assert(s_before[a] == st0[a]);
            }
            assert forall|y: usize| y != x && !st0.contains(y) implies !#[trigger] s_before.contains(y) by {
                if s_before.contains(y) {
                    let a = choose|a: int| 0 <= a < s_before.len() && s_before[a] == y;
                    if a < st0.len() {
                        assert(st0[a] == y);
                    }
                }
            }
        }
        let succ = &adj[x];
        assert(succ@ == g[x as int]);
        let ghost u0 = unmarked(seen@);
        let mut k: usize = 0;
        while k < succ.len()
            invariant
                n == adj@.len(),
                g == graph_of(adj@),
                edges_in_range(adj@),
                seen@.len() == n,
                s < n,
                x < n,
                seen@[s as int],
                seen@[x as int],
                succ@ == g[x as int],
                k <= succ@.len(),
                forall|a: int| 0 <= a < stack@.len() ==> (#[trigger] stack@[a]) < n && seen@[stack@[a] as int],
                forall|a: int| 0 <= a < st0.len() ==> stack@[a] == st0[a],
                st0.len() <= stack@.len(),
                forall|y: int| 0 <= y < n && #[trigger] seen@[y] ==> reaches(g, s, y as usize),
                forall|j: int| 0 <= j < k ==> seen@[#[trigger] g[x as int][j] as int],
                forall|y: int, j: int|
                    0 <= y < n && seen@[y] && y != x && !st0.contains(y as usize) && !stack@.contains(
                        y as usize,
                    ) && 0 <= j < g[y].len() ==> seen@[#[trigger] g[y][j] as int],
                2 * unmarked(seen@) + stack@.len() + 1 <= 2 * u0 + st0.len() + 1,
            decreases succ@.len() - k,
        {
            let y = succ[k];
            assert(adj@[x as int]@[k as int] == y);
            if !seen[y] {
                proof {
                    lemma_unmarked_mark(seen@, y as int);
                    lemma_reaches_step(g, s, x, y);
                    assert(g[x as int].contains(y));
                }
                let ghost seen0 = seen@;
                let ghost stack0 = stack@;
                seen.set(y, true);
                stack.push(y);
                proof {
                    assert forall|z: usize| !#[trigger] stack@.contains(z) implies !stack0.contains(z) by {
                        if stack0.contains(z) {
                            let a = choose|a: int| 0 <= a < stack0.len() && stack0[a] == z;
                            assert(stack@[a] == stack0[a]);
                        }
                    }
                    assert forall|w: int| 0 <= w < n && seen0[w] implies #[trigger] seen@[w] by {}
                    assert(stack@[stack@.len() - 1] == y);
                    assert(stack@.contains(y));
                    assert forall|y2: int, j: int|
                        0 <= y2 < n && seen@[y2] && y2 != x && !st0.contains(y2 as usize) && !stack@.contains(
                            y2 as usize,
                        ) && 0 <= j < g[y2].len() implies seen@[#[trigger] g[y2][j] as int] by {
                        assert(y2 != y as int);
                        assert(seen0[y2]);
                        assert(!stack0.contains(y2 as usize));
                        assert(seen0[g[y2][j] as int]);
                    }
                }
            }
            k = k + 1;
        }
        proof {
            assert forall|y: int, j: int|
                0 <= y < n && seen@[y] && !stack@.contains(y as usize) && 0 <= j < g[y].len() implies seen@[
                #[trigger] g[y][j] as int] by {
                if y != x as int {
                    if st0.contains(y as usize) {
                        let a = choose|a: int| 0 <= a < st0.len() && st0[a] == y as usize;
                        assert(stack@[a] == st0[a]);
                    }
                }
            }
        }
    }
    proof {
        assert forall|x: int| 0 <= x < n implies (#[trigger] seen@[x] <==> reaches(g, s, x as usize)) by {
            if reaches(g, s, x as usize) {
                let p = choose|p: Seq<usize>| is_walk(g, p) && p[0] == s && p.last() == x as usize;
                assert(closed(g, seen@));
                lemma_closed_reach(g, seen@, p);
            }
        }
    }
    seen
}

/// The graph with every edge turned around.
pub fn reverse_graph(adj: &[Vec<usize>]) -> (r: Vec<Vec<usize>>)
    requires
        edges_in_range(adj@),
    ensures
        reverse_of(graph_of(adj@), graph_of(r@)),
        edges_in_range(r@),
{
    let ghost g = graph_of(adj@);
    let n = adj.len();
    let mut r: Vec<Vec<usize>> = Vec::new();
    let mut i: usize = 0;
    while i < n
        invariant
            i <= n,
            n == adj@.len(),
            r@.len() == i,
            forall|y: int| 0 <= y < i ==> (#[trigger] r@[y])@.len() == 0,
        decreases n - i,
    {
        r.push(Vec::new());
        i = i + 1;
    }
    let mut x: usize = 0;
    while x < n
        invariant
            x <= n,
            n == adj@.len(),
            g == graph_of(adj@),
            edges_in_range(adj@),
            r@.len() == n,
            forall|y: int, k: int| 0 <= y < n && 0 <= k < r@[y]@.len() ==> (#[trigger] r@[y]@[k]) < x,
            forall|a: usize, y: usize|
                (y as int) < n ==> (#[trigger] graph_of(r@)[y as int].contains(a) <==> ((a as int) < x
                    && g[a as int].contains(y))),
        decreases n - x,
    {
        let succ = &adj[x];
        assert(succ@ == g[x as int]);
        let mut k: usize = 0;
        while k < succ.len()
            invariant
                x < n,
                k <= succ@.len(),
                n == adj@.len(),
                g == graph_of(adj@),
                edges_in_range(adj@),
                succ@ == g[x as int],
                r@.len() == n,
                forall|y: int, j: int| 0 <= y < n && 0 <= j < r@[y]@.len() ==> (#[trigger] r@[y]@[j]) <= x,
                forall|a: usize, y: usize|
                    (y as int) < n ==> (#[trigger] graph_of(r@)[y as int].contains(a) <==> (((a as int)
                        < x && g[a as int].contains(y)) || (a == x && g[x as int].take(k as int).contains(y)))),
            decreases succ@.len() - k,
        {
            let y = succ[k];
            assert(adj@[x as int]@[k as int] == y);
            let ghost r0 = graph_of(r@);
            let ghost rv = r@;
            let mut row: Vec<usize> = Vec::new();
            std::mem::swap(&mut row, &mut r[y]);
            assert(row@ == r0[y as int]);
            row.push(x);
            r.set(y, row);
            proof {
                assert(graph_of(r@) =~= r0.update(y as int, r0[y as int].push(x)));
                assert(g[x as int].take(k + 1) =~= g[x as int].take(k as int).push(y));
                assert forall|a: usize, z: usize|
                    (z as int) < n implies (#[trigger] graph_of(r@)[z as int].contains(a) <==> (((a as int)
                        < x && g[a as int].contains(z)) || (a == x && g[x as int].take(k + 1).contains(z)))) by {
                    assert(r0[z as int] == graph_of(rv)[z as int]);
                    assert(graph_of(rv)[z as int].contains(a) <==> (((a as int) < x && g[a as int].contains(z)) || (a
                        == x && g[x as int].take(k as int).contains(z))));
                    if z != y {
                        assert(graph_of(r@)[z as int] == r0[z as int]);
                    }
                    let t0 = g[x as int].take(k as int);
                    let t1 = g[x as int].take(k + 1);
                    assert(t1 == t0.push(y));
                    assert(t1[k as int] == y);
                    assert(t1.contains(z) <==> (t0.contains(z) || z == y)) by {
                        if t1.contains(z) {
                            let j = choose|j: int| 0 <= j < t1.len() && t1[j] == z;
                            if j < t0.len() {
                                assert(t0[j] == z);
                            }
                        }
                        if t0.contains(z) {
                            let j = choose|j: int| 0 <= j < t0.len() && t0[j] == z;
                            assert(t1[j] == z);
                        }
                    }
                    if z == y {
                        let row_new = r0[y as int].push(x);
                        assert(graph_of(r@)[z as int] == row_new);
                        assert(row_new.contains(a) <==> (r0[y as int].contains(a) || a == x)) by {
                            if row_new.contains(a) {
                                let j = choose|j: int| 0 <= j < row_new.len() && row_new[j] == a;
                                if j < r0[y as int].len() {
                                    assert(r0[y as int][j] == a);
                                }
                            }
                            if r0[y as int].contains(a) {
                                let j = choose|j: int| 0 <= j < r0[y as int].len() && r0[y as int][j] == a;
                                assert(row_new[j] == a);
                            }
                            assert(row_new[row_new.len() - 1] == x);
                        }
                    }
                }
                assert forall|z: int, j: int| 0 <= z < n && 0 <= j < r@[z]@.len() implies (#[trigger] r@[z]@[j]) <= x by {
                    if z == y as int {
                        if j < rv[z]@.len() {
                            assert(r@[z]@[j] == rv[z]@[j]);
                        }
                    } else {
                        assert(r@[z] == rv[z]);
                    }
                }
            }
            k = k + 1;
        }
        proof {
            assert(g[x as int].take(succ@.len() as int) =~= g[x as int]);
        }
        x = x + 1;
    }
    proof {
        assert forall|a: usize, y: usize|
            (a as int) < g.len() && (y as int) < g.len() implies (#[trigger] graph_of(r@)[y as int].contains(a)
                <==> #[trigger] g[a as int].contains(y)) by {}
        assert forall|v: int, k: int| 0 <= v < r@.len() && 0 <= k < r@[v]@.len() implies (#[trigger] r@[v]@[k])
            < r@.len() by {}
    }
    r
}

/// Whether `c` lists exactly the nodes of `g` that `rep` and they
/// reach each other.
pub open spec fn class_of(g: Seq<Seq<usize>>, rep: usize, c: Seq<usize>) -> bool {
    forall|x: usize| #[trigger] c.contains(x) <==> ((x as int) < g.len() && mutually(g, rep, x))
}

/// Whether a list is strictly increasing.
pub open spec fn increasing(c: Seq<usize>) -> bool {
    forall|a: int, b: int| 0 <= a < b < c.len() ==> #[trigger] c[a] < #[trigger] c[b]
}

/// Whether some representative and `x` reach each other.
pub open spec fn claimed(g: Seq<Seq<usize>>, reps: Seq<usize>, x: usize) -> bool {
    exists|i: int| 0 <= i < reps.len() && #[trigger] mutually(g, reps[i], x)
}

proof fn lemma_classes_exact(g: Seq<Seq<usize>>, reps: Seq<usize>, cs: Seq<Seq<usize>>)
    requires
        reps.len() == cs.len(),
        forall|i: int| 0 <= i < reps.len() ==> (#[trigger] reps[i] as int) < g.len(),
        forall|i: int| 0 <= i < cs.len() ==> class_of(g, reps[i], #[trigger] cs[i]),
        forall|i: int| 0 <= i < cs.len() ==> increasing(#[trigger] cs[i]),
        forall|i: int, j: int| 0 <= i < j < reps.len() ==> !mutually(g, #[trigger] reps[i], #[trigger] reps[j]),
        forall|x: usize| (x as int) < g.len() ==> #[trigger] claimed(g, reps, x),
    ensures
        exact_sccs(g, cs),
{
    let n = g.len();
    assert forall|i: int| 0 <= i < cs.len() implies (#[trigger] cs[i]).len() > 0 && cs[i].no_duplicates() by {
        lemma_reaches_self(g, reps[i]);
        assert(class_of(g, reps[i], cs[i]));
        assert(cs[i].contains(reps[i]));
        assert(increasing(cs[i]));
        assert forall|a: int, b: int| 0 <= a < cs[i].len() && 0 <= b < cs[i].len() && a != b implies cs[i][a]
            != cs[i][b] by {
            if a < b {
                assert(cs[i][a] < cs[i][b]);
            } else {
                assert(cs[i][b] < cs[i][a]);
            }
        }
    }
    assert forall|i: int, k: int| 0 <= i < cs.len() && 0 <= k < cs[i].len() implies (#[trigger] cs[i][k]) < n by {
        assert(class_of(g, reps[i], cs[i]));
        assert(cs[i].contains(cs[i][k]));
    }
    assert forall|i: int, j: int, x: usize|
        0 <= i < cs.len() && 0 <= j < cs.len() && i != j && #[trigger] cs[i].contains(x) implies !(
        #[trigger] cs[j].contains(x)) by {
        assert(class_of(g, reps[i], cs[i]));
        assert(class_of(g, reps[j], cs[j]));
        if cs[j].contains(x) {
            lemma_mutually_symmetric_transitive(g, reps[i], x, reps[j]);
            lemma_mutually_symmetric_transitive(g, reps[j], x, x);
            if i < j {
                assert(!mutually(g, reps[i], reps[j]));
            } else {
                assert(!mutually(g, reps[j], reps[i]));
                lemma_mutually_symmetric_transitive(g, reps[i], reps[j], reps[j]);
            }
        }
    }
    assert forall|x: usize| (x as int) < n implies #[trigger] crate::graph::scc::placed(cs, x) by {
        assert(claimed(g, reps, x));
        let i = choose|i: int| 0 <= i < reps.len() && #[trigger] mutually(g, reps[i], x);
        assert(class_of(g, reps[i], cs[i]));
        assert(cs[i].contains(x));
    }
    assert forall|i: int, a: int, b: int|
        0 <= i < cs.len() && 0 <= a < cs[i].len() && 0 <= b < cs[i].len() implies mutually(
        g,
        #[trigger] cs[i][a],
        #[trigger] cs[i][b],
    ) by {
        assert(class_of(g, reps[i], cs[i]));
        assert(cs[i].contains(cs[i][a]));
        assert(cs[i].contains(cs[i][b]));
        lemma_mutually_symmetric_transitive(g, reps[i], cs[i][a], cs[i][a]);
        lemma_mutually_symmetric_transitive(g, cs[i][a], reps[i], cs[i][b]);
    }
    assert forall|i: int, j: int, a: int, b: int|
        0 <= i < cs.len() && 0 <= j < cs.len() && 0 <= a < cs[i].len() && 0 <= b < cs[j].len() && mutually(
            g,
            #[trigger] cs[i][a],
            #[trigger] cs[j][b],
        ) implies i == j by {
        assert(class_of(g, reps[i], cs[i]));
        assert(class_of(g, reps[j], cs[j]));
        assert(cs[i].contains(cs[i][a]));
        assert(cs[j].contains(cs[j][b]));
        lemma_mutually_symmetric_transitive(g, reps[i], cs[i][a], cs[j][b]);
        lemma_mutually_symmetric_transitive(g, reps[j], cs[j][b], cs[j][b]);
        lemma_mutually_symmetric_transitive(g, reps[i], cs[j][b], reps[j]);
        lemma_mutually_symmetric_transitive(g, reps[j], reps[i], reps[i]);
        if i < j {
            assert(!mutually(g, reps[i], reps[j]));
        } else if j < i {
            assert(!mutually(g, reps[j], reps[i]));
        }
    }
}

/// The strongly connected components, found by reachability both
/// ways from each node not yet placed: slow, and plainly right.
pub fn components_by_reach(adj: &[Vec<usize>]) -> (r: Vec<Vec<usize>>)
    requires
        edges_in_range(adj@),
    ensures
        exact_sccs(graph_of(adj@), r@.map_values(|c: Vec<usize>| c@)),
{
    let ghost g = graph_of(adj@);
    let n = adj.len();
    let radj = reverse_graph(adj);
    proof {
        lemma_reverse_symmetric(g, graph_of(radj@));
    }
    let mut assigned: Vec<bool> = Vec::new();
    let mut i: usize = 0;
    while i < n
        invariant
            i <= n,
            n == adj@.len(),
            assigned@.len() == i,
            forall|x: int| 0 <= x < i ==> !#[trigger] assigned@[x],
        decreases n - i,
    {
        assigned.push(false);
        i = i + 1;
    }
    let mut comps: Vec<Vec<usize>> = Vec::new();
    let ghost mut reps: Seq<usize> = Seq::empty();
    let mut v: usize = 0;
    while v < n
        invariant
            v <= n,
            n == adj@.len(),
            g == graph_of(adj@),
            edges_in_range(adj@),
            edges_in_range(radj@),
            radj@.len() == n,
            reverse_of(g, graph_of(radj@)),
            reverse_of(graph_of(radj@), g),
            assigned@.len() == n,
            reps.len() == comps@.len(),
            forall|i: int| 0 <= i < reps.len() ==> (#[trigger] reps[i] as int) < n,
            forall|i: int| 0 <= i < comps@.len() ==> class_of(g, reps[i], #[trigger] comps@[i]@),
            forall|i: int| 0 <= i < comps@.len() ==> increasing(#[trigger] comps@[i]@),
            forall|i: int, j: int| 0 <= i < j < reps.len() ==> !mutually(g, #[trigger] reps[i], #[trigger] reps[j]),
            forall|x: usize| (x as int) < n ==> (#[trigger] assigned@[x as int] <==> claimed(g, reps, x)),
            forall|x: int| 0 <= x < v ==> #[trigger] assigned@[x],
        decreases n - v,
    {
        if !assigned[v] {
            let f = reach_from(adj, v);
            let b = reach_from(radj.as_slice(), v);
            let ghost a0 = assigned@;
            let mut comp: Vec<usize> = Vec::new();
            let mut x: usize = 0;
            while x < n
                invariant
                    x <= n,
                    v < n,
                    n == adj@.len(),
                    g == graph_of(adj@),
                    reverse_of(graph_of(radj@), g),
                    f@.len() == n,
                    b@.len() == n,
                    forall|y: int| 0 <= y < n ==> (#[trigger] f@[y] <==> reaches(g, v, y as usize)),
                    forall|y: int| 0 <= y < n ==> (#[trigger] b@[y] <==> reaches(graph_of(radj@), v, y as usize)),
                    assigned@.len() == n,
                    forall|y: usize| #[trigger] comp@.contains(y) <==> ((y as int) < x && mutually(g, v, y)),
                    increasing(comp@),
                    forall|a: int| 0 <= a < comp@.len() ==> (#[trigger] comp@[a]) < x,
                    forall|y: int| 0 <= y < n ==> (#[trigger] assigned@[y] <==> (a0[y] || (y < x && mutually(g, v, y as usize)))),
                decreases n - x,
            {
                proof {
                    if b@[x as int] {
                        lemma_reaches_reversed(graph_of(radj@), g, v, x);
                    }
                    if reaches(g, x, v) {
                        lemma_reverse_symmetric(graph_of(radj@), g);
                        lemma_reaches_reversed(g, graph_of(radj@), x, v);
                    }
                }
                if f[x] && b[x] {
                    let ghost c0 = comp@;
                    comp.push(x);
                    proof {
                        assert forall|y: usize| #[trigger] comp@.contains(y) <==> ((y as int) < x + 1 && mutually(g, v, y)) by {
                            if comp@.contains(y) {
                                let a = choose|a: int| 0 <= a < comp@.len() && comp@[a] == y;
                                if a < c0.len() {
                                    assert(c0.contains(y));
                                }
                            }
                            if (y as int) < x && mutually(g, v, y) {
                                assert(c0.contains(y));
                                let a = choose|a: int| 0 <= a < c0.len() && c0[a] == y;
                                assert(comp@[a] == y);
                            }
                            if y == x {
                                assert(comp@[c0.len() as int] == x);
                            }
                        }
                    }
                    assigned.set(x, true);
                } else {
                    proof {
                        assert forall|y: usize| #[trigger] comp@.contains(y) <==> ((y as int) < x + 1 && mutually(g, v, y)) by {
                            if comp@.contains(y) {
                                let a = choose|a: int| 0 <= a < comp@.len() && comp@[a] == y;
                                assert(comp@[a] < x);
                            }
                        }
                    }
                }
                x = x + 1;
            }
            proof {
                lemma_reaches_self(g, v);
                assert(!claimed(g, reps, v));
                assert forall|i: int| 0 <= i < reps.len() implies !mutually(g, #[trigger] reps[i], v) by {
                    if mutually(g, reps[i], v) {
                        assert(claimed(g, reps, v));
                    }
                }
            }
            let ghost reps0 = reps;
            let ghost comps0 = comps@;
            comps.push(comp);
            proof {
                reps = reps.push(v);
                assert forall|i: int| 0 <= i < comps@.len() implies class_of(g, reps[i], #[trigger] comps@[i]@) by {
                    if i < comps0.len() {
                        assert(comps@[i] == comps0[i]);
                        assert(reps[i] == reps0[i]);
                    }
                }
                assert forall|i: int| 0 <= i < comps@.len() implies increasing(#[trigger] comps@[i]@) by {
                    if i < comps0.len() {
                        assert(comps@[i] == comps0[i]);
                    }
                }
                assert forall|i: int, j: int| 0 <= i < j < reps.len() implies !mutually(g, #[trigger] reps[i], #[trigger] reps[j]) by {
                    if j < reps0.len() {
                        assert(reps[i] == reps0[i] && reps[j] == reps0[j]);
                    } else {
                        assert(reps[j] == v);
                        assert(reps[i] == reps0[i]);
                        assert(!mutually(g, reps0[i], v));
                    }
                }
                assert forall|y: usize| (y as int) < n implies (#[trigger] assigned@[y as int] <==> claimed(g, reps, y)) by {
                    if assigned@[y as int] {
                        if a0[y as int] {
                            assert(claimed(g, reps0, y));
                            let i = choose|i: int| 0 <= i < reps0.len() && #[trigger] mutually(g, reps0[i], y);
                            assert(reps[i] == reps0[i]);
                        } else {
                            assert(reps[reps.len() - 1] == v);
                            assert(mutually(g, reps[reps.len() - 1], y));
                        }
                    }
                    if claimed(g, reps, y) {
                        let i = choose|i: int| 0 <= i < reps.len() && #[trigger] mutually(g, reps[i], y);
                        if i < reps0.len() {
                            assert(reps[i] == reps0[i]);
                            assert(claimed(g, reps0, y));
                        }
                    }
                }
            }
        }
        v = v + 1;
    }
    proof {
        let cs = comps@.map_values(|c: Vec<usize>| c@);
        assert forall|i: int| 0 <= i < cs.len() implies class_of(g, reps[i], #[trigger] cs[i]) by {
            assert(cs[i] == comps@[i]@);
        }
        assert forall|i: int| 0 <= i < cs.len() implies increasing(#[trigger] cs[i]) by {
            assert(cs[i] == comps@[i]@);
        }
        assert forall|x: usize| (x as int) < g.len() implies #[trigger] claimed(g, reps, x) by {
            assert(assigned@[x as int]);
        }
        lemma_classes_exact(g, reps, cs);
    }
    comps
}

/// Whether the components come sinks first: no edge leads from a
/// component to one listed after it, so each component is listed after
/// every other component it reaches.
pub open spec fn sinks_first(g: Seq<Seq<usize>>, cs: Seq<Seq<usize>>) -> bool {
    forall|i: int, j: int, a: int, b: int|
        #![trigger g[cs[i][a] as int].contains(cs[j][b])]
        0 <= i < cs.len() && 0 <= j < cs.len() && 0 <= a < cs[i].len() && 0 <= b < cs[j].len() && g[cs[i][a] as int].contains(
            cs[j][b],
        ) ==> j <= i
}

/// When every edge leads to the same or an earlier component, the
/// components come sinks first.
pub proof fn lemma_descend_sinks_first(g: Seq<Seq<usize>>, cs: Seq<Seq<usize>>)
    requires
        lists_each_node_once(cs, g.len()),
        cs.len() <= usize::MAX,
        edges_descend(g, component_seq(cs, g.len())),
    ensures
        sinks_first(g, cs),
{
    let comp = component_seq(cs, g.len());
    assert forall|i: int, j: int, a: int, b: int|
        0 <= i < cs.len() && 0 <= j < cs.len() && 0 <= a < cs[i].len() && 0 <= b < cs[j].len() && g[cs[i][a] as int].contains(
            cs[j][b],
        ) implies j <= i by {
        let u = cs[i][a];
        let v = cs[j][b];
        assert(cs[i].contains(u));
        assert(cs[j].contains(v));
        let ci = component_of(cs, u);
        let cj = component_of(cs, v);
        assert(0 <= ci < cs.len() && cs[ci].contains(u));
        assert(0 <= cj < cs.len() && cs[cj].contains(v));
        if ci != i {
            assert(!cs[ci].contains(u));
        }
        if cj != j {
            assert(!cs[cj].contains(v));
        }
        assert((u as int) < g.len() && (v as int) < g.len());
        assert(comp[u as int] == i as usize);
        assert(comp[v as int] == j as usize);
        let k = choose|k: int| 0 <= k < g[u as int].len() && g[u as int][k] == v;
        assert(comp[g[u as int][k] as int] <= comp[u as int]);
    }
}

/// How many entries are true.
pub open spec fn trues(s: Seq<bool>) -> nat
    decreases s.len(),
{
    if s.len() == 0 {
        0
    } else {
        trues(s.drop_last()) + if s.last() {
            1nat
        } else {
            0nat
        }
    }
}

proof fn lemma_trues_bound(s: Seq<bool>)
    ensures
        trues(s) <= s.len(),
    decreases s.len(),
{
    if s.len() > 0 {
        lemma_trues_bound(s.drop_last());
    }
}

proof fn lemma_trues_mono(a: Seq<bool>, b: Seq<bool>)
    requires
        a.len() == b.len(),
        forall|k: int| 0 <= k < a.len() && #[trigger] a[k] ==> b[k],
    ensures
        trues(a) <= trues(b),
    decreases a.len(),
{
    if a.len() > 0 {
        lemma_trues_mono(a.drop_last(), b.drop_last());
        assert(a.last() ==> b.last()) by {
            assert(a[a.len() - 1] ==> b[a.len() - 1]);
        }
    }
}

proof fn lemma_trues_lt(a: Seq<bool>, b: Seq<bool>, w: int)
    requires
        a.len() == b.len(),
        forall|k: int| 0 <= k < a.len() && #[trigger] a[k] ==> b[k],
        0 <= w < a.len(),
        b[w],
        !a[w],
    ensures
        trues(a) < trues(b),
    decreases a.len(),
{
    if w == a.len() - 1 {
        lemma_trues_mono(a.drop_last(), b.drop_last());
    } else {
        lemma_trues_lt(a.drop_last(), b.drop_last(), w);
        assert(a.last() ==> b.last()) by {
            assert(a[a.len() - 1] ==> b[a.len() - 1]);
        }
    }
}

/// How many nodes `s` reaches, itself included.
pub open spec fn reach_count(g: Seq<Seq<usize>>, s: usize) -> nat {
    trues(Seq::new(g.len(), |y: int| reaches(g, s, y as usize)))
}

fn count_true(s: &Vec<bool>) -> (k: usize)
    ensures
        k == trues(s@),
{
    let mut k: usize = 0;
    let mut i: usize = 0;
    while i < s.len()
        invariant
            i <= s@.len(),
            k == trues(s@.take(i as int)),
            k <= i,
        decreases s@.len() - i,
    {
        assert(s@.take(i + 1).drop_last() =~= s@.take(i as int));
        if s[i] {
            k = k + 1;
        }
        i = i + 1;
    }
    assert(s@.take(s@.len() as int) =~= s@);
    k
}

/// A node of one component with an edge into another reaches strictly
/// more than the other's nodes do.
proof fn lemma_edge_lowers_reach(g: Seq<Seq<usize>>, cs: Seq<Seq<usize>>, i: int, j: int, a: int, b: int)
    requires
        exact_sccs(g, cs),
        0 <= i < cs.len(),
        0 <= j < cs.len(),
        i != j,
        0 <= a < cs[i].len(),
        0 <= b < cs[j].len(),
        g[cs[i][a] as int].contains(cs[j][b]),
    ensures
        reach_count(g, cs[j][0]) < reach_count(g, cs[i][0]),
{
    let ri = cs[i][0];
    let rj = cs[j][0];
    let u = cs[i][a];
    let v = cs[j][b];
    assert(cs[i].len() > 0 && cs[j].len() > 0);
    assert(mutually(g, cs[i][0], cs[i][a]));
    assert(mutually(g, cs[j][b], cs[j][0]));
    assert((u as int) < g.len() && (v as int) < g.len() && (ri as int) < g.len());
    lemma_reaches_self(g, u);
    lemma_reaches_step(g, u, u, v);
    lemma_reaches_trans(g, ri, u, v);
    lemma_reaches_trans(g, ri, v, rj);
    let sa = Seq::new(g.len(), |y: int| reaches(g, rj, y as usize));
    let sb = Seq::new(g.len(), |y: int| reaches(g, ri, y as usize));
    assert forall|k: int| 0 <= k < sa.len() && #[trigger] sa[k] implies sb[k] by {
        lemma_reaches_trans(g, ri, rj, k as usize);
    }
    lemma_reaches_self(g, ri);
    assert(sb[ri as int]);
    if sa[ri as int] {
        assert(mutually(g, cs[i][0], cs[j][0]));
    }
    lemma_trues_lt(sa, sb, ri as int);
}

fn copy_nodes(v: &Vec<usize>) -> (r: Vec<usize>)
    ensures
        r@ == v@,
{
    let mut r: Vec<usize> = Vec::new();
    let mut i: usize = 0;
    while i < v.len()
        invariant
            i <= v@.len(),
            r@ == v@.take(i as int),
        decreases v@.len() - i,
    {
        r.push(v[i]);
        i = i + 1;
        assert(r@ =~= v@.take(i as int));
    }
    assert(v@.take(v@.len() as int) =~= v@);
    r
}

/// The components reordered sinks first: by how many nodes each one's
/// first node reaches, fewest first, ties in their given order. A
/// component with an edge into another reaches strictly more than it,
/// so it comes later.
pub fn order_sinks_first(adj: &[Vec<usize>], comps: &Vec<Vec<usize>>) -> (r: Vec<Vec<usize>>)
    requires
        edges_in_range(adj@),
        exact_sccs(graph_of(adj@), comps@.map_values(|c: Vec<usize>| c@)),
    ensures
        exact_sccs(graph_of(adj@), r@.map_values(|c: Vec<usize>| c@)),
        sinks_first(graph_of(adj@), r@.map_values(|c: Vec<usize>| c@)),
{
    let ghost g = graph_of(adj@);
    let ghost csv = comps@.map_values(|c: Vec<usize>| c@);
    let n = adj.len();
    let m = comps.len();
    let mut counts: Vec<usize> = Vec::new();
    let mut i: usize = 0;
    while i < m
        invariant
            g == graph_of(adj@),
            csv == comps@.map_values(|c: Vec<usize>| c@),
            n == adj@.len(),
            m == comps@.len(),
            edges_in_range(adj@),
            exact_sccs(g, csv),
            i <= m,
            counts@.len() == i,
            forall|p: int| 0 <= p < i ==> #[trigger] counts@[p] == reach_count(g, csv[p][0]) && counts@[p] <= n,
        decreases m - i,
    {
        assert(comps@[i as int]@ == csv[i as int]);
        assert(csv[i as int].len() > 0);
        let root = comps[i][0];
        assert(root < n);
        let seen = reach_from(adj, root);
        let c = count_true(&seen);
        proof {
            assert(seen@ =~= Seq::new(g.len(), |y: int| reaches(g, root, y as usize)));
            lemma_trues_bound(seen@);
        }
        counts.push(c);
        i = i + 1;
    }
    let mut out: Vec<Vec<usize>> = Vec::new();
    let ghost mut src: Seq<int> = Seq::empty();
    let mut k: u128 = 0;
    while k <= n as u128
        invariant
            g == graph_of(adj@),
            csv == comps@.map_values(|c: Vec<usize>| c@),
            n == adj@.len(),
            m == comps@.len(),
            counts@.len() == m,
            forall|p: int| 0 <= p < m ==> #[trigger] counts@[p] == reach_count(g, csv[p][0]) && counts@[p] <= n,
            k <= n as u128 + 1,
            src.len() == out@.len(),
            forall|p: int| 0 <= p < src.len() ==> 0 <= #[trigger] src[p] < m && out@[p]@ == csv[src[p]],
            forall|p: int| 0 <= p < src.len() ==> (counts@[#[trigger] src[p]] as u128) < k,
            forall|p: int, q: int| 0 <= p < q < src.len() ==> #[trigger] src[p] != #[trigger] src[q],
            forall|p: int, q: int| 0 <= p < q < src.len() ==> counts@[#[trigger] src[p]] <= counts@[#[trigger] src[q]],
            forall|x: int| 0 <= x < m && (#[trigger] counts@[x] as u128) < k ==> exists|p: int| 0 <= p < src.len() && src[p] == x,
        decreases n as u128 + 1 - k,
    {
        let mut j: usize = 0;
        while j < m
            invariant
                g == graph_of(adj@),
                csv == comps@.map_values(|c: Vec<usize>| c@),
                n == adj@.len(),
                m == comps@.len(),
                counts@.len() == m,
                forall|p: int| 0 <= p < m ==> #[trigger] counts@[p] == reach_count(g, csv[p][0]) && counts@[p] <= n,
                k <= n as u128,
                j <= m,
                src.len() == out@.len(),
                forall|p: int| 0 <= p < src.len() ==> 0 <= #[trigger] src[p] < m && out@[p]@ == csv[src[p]],
                forall|p: int|
                    0 <= p < src.len() ==> (counts@[#[trigger] src[p]] as u128) < k || ((counts@[src[p]] as u128) == k
                        && src[p] < j),
                forall|p: int, q: int| 0 <= p < q < src.len() ==> #[trigger] src[p] != #[trigger] src[q],
                forall|p: int, q: int| 0 <= p < q < src.len() ==> counts@[#[trigger] src[p]] <= counts@[#[trigger] src[q]],
                forall|x: int|
                    0 <= x < m && ((#[trigger] counts@[x] as u128) < k || ((counts@[x] as u128) == k && x < j)) ==> exists|p: int|
                        0 <= p < src.len() && src[p] == x,
            decreases m - j,
        {
            if counts[j] as u128 == k {
                let ghost s0 = src;
                let ghost o0 = out@;
                assert(comps@[j as int]@ == csv[j as int]);
                let copy = copy_nodes(&comps[j]);
                out.push(copy);
                proof {
                    src = src.push(j as int);
                    assert(src[s0.len() as int] == j as int);
                    assert forall|p: int| 0 <= p < src.len() implies 0 <= #[trigger] src[p] < m && out@[p]@ == csv[src[p]] by {
                        if p < s0.len() {
                            assert(src[p] == s0[p]);
                            assert(out@[p] == o0[p]);
                        }
                    }
                    assert forall|p: int, q: int| 0 <= p < q < src.len() implies #[trigger] src[p] != #[trigger] src[q] by {
                        if q == s0.len() {
                            assert(src[p] == s0[p]);
                        } else {
                            assert(src[p] == s0[p] && src[q] == s0[q]);
                        }
                    }
                    assert forall|p: int, q: int| 0 <= p < q < src.len() implies counts@[#[trigger] src[p]] <= counts@[#[trigger] src[q]] by {
                        if q == s0.len() {
                            assert(src[p] == s0[p]);
                        } else {
                            assert(src[p] == s0[p] && src[q] == s0[q]);
                        }
                    }
                    assert forall|p: int|
                        0 <= p < src.len() implies (counts@[#[trigger] src[p]] as u128) < k || ((counts@[src[p]] as u128) == k
                            && src[p] < j + 1) by {
                        if p < s0.len() {
                            assert(src[p] == s0[p]);
                        }
                    }
                    assert forall|x: int|
                        0 <= x < m && ((#[trigger] counts@[x] as u128) < k || ((counts@[x] as u128) == k && x < j + 1)) implies exists|p: int|
                            0 <= p < src.len() && src[p] == x by {
                        if x == j as int {
                            assert(src[s0.len() as int] == x);
                        } else {
                            let p = choose|p: int| 0 <= p < s0.len() && s0[p] == x;
                            assert(src[p] == x);
                        }
                    }
                }
            }
            j = j + 1;
        }
        k = k + 1;
    }
    proof {
        let outv = out@.map_values(|c: Vec<usize>| c@);
        assert forall|p: int| 0 <= p < outv.len() implies #[trigger] outv[p] == csv[src[p]] by {}
        // every component placed
        // the partition
        assert forall|p: int| 0 <= p < outv.len() implies (#[trigger] outv[p]).len() > 0 && outv[p].no_duplicates() by {
            assert(outv[p] == csv[src[p]]);
        }
        assert forall|p: int, a: int| 0 <= p < outv.len() && 0 <= a < outv[p].len() implies (#[trigger] outv[p][a]) < n by {
            assert(outv[p] == csv[src[p]]);
        }
        assert forall|p: int, q: int, x: usize|
            0 <= p < outv.len() && 0 <= q < outv.len() && p != q && #[trigger] outv[p].contains(x) implies !(
            #[trigger] outv[q].contains(x)) by {
            assert(outv[p] == csv[src[p]] && outv[q] == csv[src[q]]);
            if p < q {
                assert(src[p] != src[q]);
            } else {
                assert(src[q] != src[p]);
            }
        }
        assert forall|x: usize| x < n implies #[trigger] crate::graph::scc::placed(outv, x) by {
            assert(crate::graph::scc::placed(csv, x));
            let i = choose|i: int| 0 <= i < csv.len() && #[trigger] csv[i].contains(x);
            assert(counts@[i] <= n);
            assert((counts@[i] as u128) < k);
            let p = choose|p: int| 0 <= p < src.len() && src[p] == i;
            assert(outv[p] == csv[i]);
            assert(outv[p].contains(x));
        }
        assert(lists_each_node_once(outv, g.len()));
        assert forall|p: int, a: int, b: int|
            0 <= p < outv.len() && 0 <= a < outv[p].len() && 0 <= b < outv[p].len() implies mutually(
            g,
            #[trigger] outv[p][a],
            #[trigger] outv[p][b],
        ) by {
            assert(outv[p] == csv[src[p]]);
            assert(mutually(g, csv[src[p]][a], csv[src[p]][b]));
        }
        assert forall|p: int, q: int, a: int, b: int|
            0 <= p < outv.len() && 0 <= q < outv.len() && 0 <= a < outv[p].len() && 0 <= b < outv[q].len() && mutually(
                g,
                #[trigger] outv[p][a],
                #[trigger] outv[q][b],
            ) implies p == q by {
            assert(outv[p] == csv[src[p]] && outv[q] == csv[src[q]]);
            assert(mutually(g, csv[src[p]][a], csv[src[q]][b]));
            assert(src[p] == src[q]);
            if p < q {
                assert(src[p] != src[q]);
            } else if q < p {
                assert(src[q] != src[p]);
            }
        }
        assert(exact_sccs(g, outv));
        assert forall|p: int, q: int, a: int, b: int|
            #![trigger g[outv[p][a] as int].contains(outv[q][b])]
            0 <= p < outv.len() && 0 <= q < outv.len() && 0 <= a < outv[p].len() && 0 <= b < outv[q].len() && g[outv[p][a] as int].contains(
                outv[q][b],
            ) implies q <= p by {
            assert(outv[p] == csv[src[p]] && outv[q] == csv[src[q]]);
            if src[p] != src[q] && p < q {
                lemma_edge_lowers_reach(g, csv, src[p], src[q], a, b);
                assert(counts@[src[p]] <= counts@[src[q]]);
            }
            if src[p] == src[q] && p < q {
                assert(src[p] != src[q]);
            }
        }
    }
    out
}

/// How many nodes do not carry the stamp `c`.
pub open spec fn unstamped(marks: Seq<usize>, c: usize) -> nat
    decreases marks.len(),
{
    if marks.len() == 0 {
        0
    } else {
        unstamped(marks.drop_last(), c) + if marks.last() == c {
            0nat
        } else {
            1nat
        }
    }
}

proof fn lemma_unstamped_stamp(marks: Seq<usize>, c: usize, x: int)
    requires
        0 <= x < marks.len(),
        marks[x] != c,
    ensures
        unstamped(marks.update(x, c), c) + 1 == unstamped(marks, c),
    decreases marks.len(),
{
    let t = marks.update(x, c);
    if x == marks.len() - 1 {
        assert(t.drop_last() =~= marks.drop_last());
    } else {
        assert(t.drop_last() =~= marks.drop_last().update(x, c));
        lemma_unstamped_stamp(marks.drop_last(), c, x);
    }
}

/// Whether `t` can be reached from `s` by a walk each of whose nodes
/// after the first lies in component `c`, as `comp` assigns them.
pub open spec fn reaches_inside(g: Seq<Seq<usize>>, comp: Seq<usize>, c: usize, s: usize, t: usize) -> bool {
    exists|p: Seq<usize>|
        #[trigger] is_walk(g, p) && p[0] == s && p.last() == t && forall|i: int|
            1 <= i < p.len() ==> comp[p[i] as int] == c
}

proof fn lemma_inside_self(g: Seq<Seq<usize>>, comp: Seq<usize>, c: usize, s: usize)
    requires
        (s as int) < g.len(),
    ensures
        reaches_inside(g, comp, c, s, s),
{
    let p = seq![s];
    assert(is_walk(g, p));
}

proof fn lemma_inside_step(g: Seq<Seq<usize>>, comp: Seq<usize>, c: usize, s: usize, x: usize, y: usize)
    requires
        reaches_inside(g, comp, c, s, x),
        (x as int) < g.len(),
        (y as int) < g.len(),
        g[x as int].contains(y),
        comp[y as int] == c,
    ensures
        reaches_inside(g, comp, c, s, y),
{
    let p = choose|p: Seq<usize>|
        #[trigger] is_walk(g, p) && p[0] == s && p.last() == x && forall|i: int|
            1 <= i < p.len() ==> comp[p[i] as int] == c;
    let q = p.push(y);
    assert forall|i: int| 0 <= i < q.len() implies (#[trigger] q[i] as int) < g.len() by {
        if i < p.len() {
            assert(q[i] == p[i]);
        }
    }
    assert forall|i: int| 0 <= i < q.len() - 1 implies #[trigger] g[q[i] as int].contains(q[i + 1]) by {
        if i < p.len() - 1 {
            assert(q[i] == p[i] && q[i + 1] == p[i + 1]);
        } else {
            assert(q[i] == x);
        }
    }
    assert forall|i: int| 1 <= i < q.len() implies comp[q[i] as int] == c by {
        if i < p.len() {
            assert(q[i] == p[i]);
        }
    }
    assert(is_walk(g, q));
}

/// A walk inside a component is a walk.
pub proof fn lemma_inside_reaches(g: Seq<Seq<usize>>, comp: Seq<usize>, c: usize, s: usize, t: usize)
    requires
        reaches_inside(g, comp, c, s, t),
    ensures
        reaches(g, s, t),
{
    let p = choose|p: Seq<usize>|
        #[trigger] is_walk(g, p) && p[0] == s && p.last() == t && forall|i: int|
            1 <= i < p.len() ==> comp[p[i] as int] == c;
    assert(is_walk(g, p) && p[0] == s && p.last() == t);
}

/// Whether every successor of `y` in component `c` carries the stamp.
pub open spec fn closed_at(g: Seq<Seq<usize>>, comp: Seq<usize>, c: usize, marks: Seq<usize>, y: int) -> bool {
    forall|k: int| 0 <= k < g[y].len() && comp[#[trigger] g[y][k] as int] == c ==> marks[g[y][k] as int] == c
}

proof fn lemma_closed_grows(g: Seq<Seq<usize>>, comp: Seq<usize>, c: usize, m0: Seq<usize>, m1: Seq<usize>, y: int)
    requires
        m0.len() == m1.len(),
        forall|i: int| 0 <= i < m0.len() && #[trigger] m0[i] == c ==> m1[i] == c,
        forall|k: int| 0 <= k < g[y].len() ==> (#[trigger] g[y][k] as int) < m0.len(),
        closed_at(g, comp, c, m0, y),
    ensures
        closed_at(g, comp, c, m1, y),
{
    assert forall|k: int| 0 <= k < g[y].len() && comp[#[trigger] g[y][k] as int] == c implies m1[g[y][k] as int] == c by {
        assert(m0[g[y][k] as int] == c);
    }
}

/// When the stamped nodes include `root` and are closed under edges
/// into component `c`, every node reached inside the component is
/// stamped.
proof fn lemma_closed_inside(g: Seq<Seq<usize>>, comp: Seq<usize>, c: usize, marks: Seq<usize>, root: usize, p: Seq<usize>)
    requires
        marks.len() == g.len(),
        marks[root as int] == c,
        forall|y: int| 0 <= y < g.len() && #[trigger] marks[y] == c ==> closed_at(g, comp, c, marks, y),
        is_walk(g, p),
        p[0] == root,
        forall|i: int| 1 <= i < p.len() ==> comp[p[i] as int] == c,
    ensures
        marks[p.last() as int] == c,
    decreases p.len(),
{
    if p.len() > 1 {
        let q = p.drop_last();
        assert forall|i: int| 0 <= i < q.len() implies (#[trigger] q[i] as int) < g.len() by {
            assert(q[i] == p[i]);
        }
        assert forall|i: int| 0 <= i < q.len() - 1 implies #[trigger] g[q[i] as int].contains(q[i + 1]) by {
            assert(q[i] == p[i] && q[i + 1] == p[i + 1]);
        }
        assert forall|i: int| 1 <= i < q.len() implies comp[q[i] as int] == c by {
            assert(q[i] == p[i]);
        }
        lemma_closed_inside(g, comp, c, marks, root, q);
        let x = p[p.len() - 2];
        assert(q.last() == x);
        assert((x as int) < g.len());
        assert(p.last() == p[p.len() - 1]);
        assert(g[p[p.len() - 2] as int].contains(p[p.len() - 2 + 1]));
        let k = choose|k: int| 0 <= k < g[x as int].len() && g[x as int][k] == p.last();
        assert(comp[g[x as int][k] as int] == c);
        assert(closed_at(g, comp, c, marks, x as int));
    }
}

/// Stamps with `c` exactly the nodes that `root` reaches through nodes
/// of component `c`, `root` included; every other mark is left as it
/// was.
fn stamp_within(
    adj: &[Vec<usize>],
    comp_of: &Vec<usize>,
    c: usize,
    root: usize,
    marks: &mut Vec<usize>,
)
    requires
        edges_in_range(adj@),
        comp_of@.len() == adj@.len(),
        old(marks)@.len() == adj@.len(),
        root < adj@.len(),
        forall|x: int| 0 <= x < adj@.len() ==> #[trigger] old(marks)@[x] != c,
    ensures
        final(marks)@.len() == adj@.len(),
        forall|x: int|
            0 <= x < adj@.len() ==> (#[trigger] final(marks)@[x] == c <==> reaches_inside(
                graph_of(adj@),
                comp_of@,
                c,
                root,
                x as usize,
            )),
        forall|x: int| 0 <= x < adj@.len() && #[trigger] final(marks)@[x] != c ==> final(marks)@[x] == old(marks)@[x],
{
    let ghost g = graph_of(adj@);
    let ghost comp = comp_of@;
    let ghost m0 = marks@;
    let n = adj.len();
    proof {
        lemma_unstamped_stamp(marks@, c, root as int);
        lemma_inside_self(g, comp, c, root);
    }
    marks.set(root, c);
    let mut stack: Vec<usize> = Vec::new();
    stack.push(root);
    assert forall|x: int| 0 <= x < n && #[trigger] marks@[x] == c implies stack@.contains(x as usize) || closed_at(
        g,
        comp,
        c,
        marks@,
        x,
    ) by {
        assert(x == root as int);
        assert(stack@[0] == root);
    }
    while stack.len() > 0
        invariant
            n == adj@.len(),
            g == graph_of(adj@),
            comp == comp_of@,
            edges_in_range(adj@),
            comp_of@.len() == n,
            marks@.len() == n,
            root < n,
            marks@[root as int] == c,
            forall|a: int| 0 <= a < stack@.len() ==> (#[trigger] stack@[a]) < n,
            forall|a: int| 0 <= a < stack@.len() ==> marks@[#[trigger] stack@[a] as int] == c,
            forall|x: int| 0 <= x < n && #[trigger] marks@[x] == c ==> reaches_inside(g, comp, c, root, x as usize),
            forall|x: int| 0 <= x < n && #[trigger] marks@[x] != c ==> marks@[x] == m0[x],
            forall|x: int|
                0 <= x < n && #[trigger] marks@[x] == c ==> stack@.contains(x as usize) || closed_at(
                    g,
                    comp,
                    c,
                    marks@,
                    x,
                ),
        decreases 2 * unstamped(marks@, c) + stack@.len(),
    {
        let ghost st = stack@;
        let x = stack.pop().unwrap();
        assert(st[st.len() - 1] == x);
        assert(marks@[x as int] == c);
        assert(stack@ =~= st.drop_last());
        assert forall|z: int| 0 <= z < n && #[trigger] marks@[z] == c implies stack@.contains(z as usize) || z
            == x || closed_at(g, comp, c, marks@, z) by {
            if st.contains(z as usize) && z != x {
                let a = choose|a: int| 0 <= a < st.len() && st[a] == z as usize;
                assert(a < st.len() - 1);
                assert(stack@[a] == z as usize);
            }
        }
        let succ = &adj[x];
        assert(succ@ == g[x as int]);
        let ghost u0 = unstamped(marks@, c);
        let ghost s0 = stack@.len();
        let mut k: usize = 0;
        while k < succ.len()
            invariant
                n == adj@.len(),
                g == graph_of(adj@),
                comp == comp_of@,
                edges_in_range(adj@),
                comp_of@.len() == n,
                marks@.len() == n,
                root < n,
                x < n,
                marks@[root as int] == c,
                marks@[x as int] == c,
                succ@ == g[x as int],
                k <= succ@.len(),
                forall|a: int| 0 <= a < stack@.len() ==> (#[trigger] stack@[a]) < n,
                forall|a: int| 0 <= a < stack@.len() ==> marks@[#[trigger] stack@[a] as int] == c,
                forall|y: int| 0 <= y < n && #[trigger] marks@[y] == c ==> reaches_inside(g, comp, c, root, y as usize),
                forall|y: int| 0 <= y < n && #[trigger] marks@[y] != c ==> marks@[y] == m0[y],
                forall|z: int|
                    0 <= z < n && #[trigger] marks@[z] == c ==> stack@.contains(z as usize) || z == x || closed_at(
                        g,
                        comp,
                        c,
                        marks@,
                        z,
                    ),
                forall|j: int| 0 <= j < k && comp[#[trigger] g[x as int][j] as int] == c ==> marks@[g[x as int][j] as int] == c,
                reaches_inside(g, comp, c, root, x),
                2 * unstamped(marks@, c) + stack@.len() <= 2 * u0 + s0,
            decreases succ@.len() - k,
        {
            let y = succ[k];
            assert(adj@[x as int]@[k as int] == y);
            assert(g[x as int][k as int] == y);
            if comp_of[y] == c && marks[y] != c {
                let ghost mb = marks@;
                let ghost sb = stack@;
                proof {
                    lemma_unstamped_stamp(marks@, c, y as int);
                    assert(g[x as int].contains(y));
                    lemma_inside_step(g, comp, c, root, x, y);
                }
                marks.set(y, c);
                stack.push(y);
                proof {
                    assert(stack@ == sb.push(y));
                    assert forall|z: int| 0 <= z < n && #[trigger] marks@[z] == c implies stack@.contains(z as usize)
                        || z == x || closed_at(g, comp, c, marks@, z) by {
                        if z == y as int {
                            assert(stack@[sb.len() as int] == y);
                        } else {
                            assert(mb[z] == c);
                            if sb.contains(z as usize) {
                                let a = choose|a: int| 0 <= a < sb.len() && sb[a] == z as usize;
                                assert(stack@[a] == z as usize);
                            } else if z != x {
                                assert forall|kk: int| 0 <= kk < g[z].len() implies (#[trigger] g[z][kk] as int) < mb.len() by {
                                    assert(adj@[z]@[kk] == g[z][kk]);
                                }
                                lemma_closed_grows(g, comp, c, mb, marks@, z);
                            }
                        }
                    }
                }
            }
            k = k + 1;
        }
        proof {
            assert(closed_at(g, comp, c, marks@, x as int));
        }
    }
    proof {
        assert forall|y: int| 0 <= y < n && #[trigger] marks@[y] == c implies closed_at(g, comp, c, marks@, y) by {
            assert(!stack@.contains(y as usize));
        }
        assert forall|x: int| 0 <= x < n && reaches_inside(g, comp, c, root, x as usize) implies #[trigger] marks@[x] == c by {
            let p = choose|p: Seq<usize>|
                #[trigger] is_walk(g, p) && p[0] == root && p.last() == x as usize && forall|i: int|
                    1 <= i < p.len() ==> comp[p[i] as int] == c;
            lemma_closed_inside(g, comp, c, marks@, root, p);
        }
    }
}

/// Whether `comp_of` names, for each node, the component that holds it.
pub open spec fn indexes_components(cs: Seq<Seq<usize>>, comp_of: Seq<usize>) -> bool {
    forall|x: int| 0 <= x < comp_of.len() ==> #[trigger] comp_of[x] < cs.len() && cs[comp_of[x] as int].contains(x as usize)
}

/// Whether every edge leads to a node whose component comes no later
/// than its source's.
pub open spec fn edges_descend(g: Seq<Seq<usize>>, comp_of: Seq<usize>) -> bool {
    forall|u: int, k: int| 0 <= u < g.len() && 0 <= k < g[u].len() ==> comp_of[#[trigger] g[u][k] as int] <= comp_of[u]
}

proof fn lemma_descend_walk(g: Seq<Seq<usize>>, comp_of: Seq<usize>, p: Seq<usize>)
    requires
        comp_of.len() == g.len(),
        edges_descend(g, comp_of),
        is_walk(g, p),
    ensures
        comp_of[p.last() as int] <= comp_of[p[0] as int],
    decreases p.len(),
{
    if p.len() > 1 {
        let q = p.drop_last();
        assert forall|i: int| 0 <= i < q.len() implies (#[trigger] q[i] as int) < g.len() by {
            assert(q[i] == p[i]);
        }
        assert forall|i: int| 0 <= i < q.len() - 1 implies #[trigger] g[q[i] as int].contains(q[i + 1]) by {
            assert(q[i] == p[i] && q[i + 1] == p[i + 1]);
        }
        lemma_descend_walk(g, comp_of, q);
        let x = p[p.len() - 2];
        assert(p.last() == p[p.len() - 1]);
        assert(g[p[p.len() - 2] as int].contains(p[p.len() - 2 + 1]));
        let k = choose|k: int| 0 <= k < g[x as int].len() && g[x as int][k] == p.last();
        assert(comp_of[g[x as int][k] as int] <= comp_of[x as int]);
    }
}

/// The position of the component that lists `x`.
pub open spec fn component_of(cs: Seq<Seq<usize>>, x: usize) -> int {
    choose|i: int| 0 <= i < cs.len() && cs[i].contains(x)
}

/// Each node's component position, node by node.
pub open spec fn component_seq(cs: Seq<Seq<usize>>, n: nat) -> Seq<usize> {
    Seq::new(n, |x: int| component_of(cs, x as usize) as usize)
}

/// What [`certify_components`] accepts: with each node placed in the
/// component that lists it, every edge leads to the same or an earlier
/// component, and the first node of each component reaches every node
/// of it, and is reached by it, without leaving the component.
pub open spec fn certified(g: Seq<Seq<usize>>, rg: Seq<Seq<usize>>, cs: Seq<Seq<usize>>) -> bool {
    let comp = component_seq(cs, g.len());
    &&& edges_descend(g, comp)
    &&& forall|i: int, a: int|
        0 <= i < cs.len() && 0 <= a < cs[i].len() ==> reaches_inside(g, comp, i as usize, cs[i][0], #[trigger] cs[i][a])
            && reaches_inside(rg, comp, i as usize, cs[i][0], cs[i][a])
}

/// Checks a listing of components against the graph: every edge must
/// lead to the same or an earlier component, and within each
/// component its first node must reach every other, and be reached by
/// it, without leaving the component. When both hold, the listing is
/// exactly the strongly connected components.
pub fn certify_components(adj: &[Vec<usize>], radj: &Vec<Vec<usize>>, cs: &Vec<Vec<usize>>) -> (ok: bool)
    requires
        edges_in_range(adj@),
        edges_in_range(radj@),
        radj@.len() == adj@.len(),
        reverse_of(graph_of(radj@), graph_of(adj@)),
        lists_each_node_once(cs@.map_values(|c: Vec<usize>| c@), adj@.len()),
    ensures
        ok == certified(graph_of(adj@), graph_of(radj@), cs@.map_values(|c: Vec<usize>| c@)),
        ok ==> exact_sccs(graph_of(adj@), cs@.map_values(|c: Vec<usize>| c@)),
{
    let ghost g = graph_of(adj@);
    let ghost rg = graph_of(radj@);
    let ghost csv = cs@.map_values(|c: Vec<usize>| c@);
    let n = adj.len();
    let mut comp_of: Vec<usize> = Vec::new();
    let mut i: usize = 0;
    while i < n
        invariant
            i <= n,
            n == adj@.len(),
            comp_of@.len() == i,
            forall|x: int| 0 <= x < i ==> #[trigger] comp_of@[x] == usize::MAX,
        decreases n - i,
    {
        comp_of.push(usize::MAX);
        i = i + 1;
    }
    let mut ci: usize = 0;
    while ci < cs.len()
        invariant
            n == adj@.len(),
            ci <= cs@.len(),
            csv == cs@.map_values(|c: Vec<usize>| c@),
            lists_each_node_once(csv, n as nat),
            comp_of@.len() == n,
            forall|x: int| 0 <= x < n && #[trigger] comp_of@[x] != usize::MAX ==> comp_of@[x] < ci && csv[comp_of@[x] as int].contains(x as usize),
            forall|j: int, k: int| 0 <= j < ci && 0 <= k < csv[j].len() ==> comp_of@[#[trigger] csv[j][k] as int] == j,
        decreases cs@.len() - ci,
    {
        let c = &cs[ci];
        assert(c@ == csv[ci as int]);
        let mut k: usize = 0;
        while k < c.len()
            invariant
                n == adj@.len(),
                ci < cs@.len(),
                csv == cs@.map_values(|c: Vec<usize>| c@),
                c@ == csv[ci as int],
                lists_each_node_once(csv, n as nat),
                k <= c@.len(),
                comp_of@.len() == n,
                forall|x: int| 0 <= x < n && #[trigger] comp_of@[x] != usize::MAX ==> comp_of@[x] <= ci && csv[comp_of@[x] as int].contains(x as usize),
                forall|j: int, m: int| 0 <= j < ci && 0 <= m < csv[j].len() ==> comp_of@[#[trigger] csv[j][m] as int] == j,
                forall|m: int| 0 <= m < k ==> comp_of@[#[trigger] csv[ci as int][m] as int] == ci,
            decreases c@.len() - k,
        {
            let x = c[k];
            assert(csv[ci as int][k as int] == x);
            assert(csv[ci as int].contains(x));
            proof {
                assert forall|j: int, m: int| 0 <= j < ci && 0 <= m < csv[j].len() implies csv[j][m] != x by {
                    if csv[j][m] == x {
                        assert(csv[j].contains(x));
                    }
                }
                assert forall|m: int| 0 <= m < k implies csv[ci as int][m] != x || m == k as int by {
                    assert(csv[ci as int].no_duplicates());
                }
            }
            comp_of.set(x, ci);
            k = k + 1;
        }
        ci = ci + 1;
    }
    proof {
        assert(csv.len() == cs@.len());
        assert forall|x: int| 0 <= x < comp_of@.len() implies #[trigger] comp_of@[x] < csv.len() && csv[comp_of@[x] as int].contains(x as usize) by {
            assert(crate::graph::scc::placed(csv, x as usize));
            let j = choose|j: int| 0 <= j < csv.len() && #[trigger] csv[j].contains(x as usize);
            let m = choose|m: int| 0 <= m < csv[j].len() && csv[j][m] == x as usize;
            assert(comp_of@[csv[j][m] as int] == j);
        }
        assert(indexes_components(csv, comp_of@));
        assert forall|x: int| 0 <= x < n implies #[trigger] comp_of@[x] == component_seq(csv, n as nat)[x] by {
            let i = comp_of@[x] as int;
            assert(csv[i].contains(x as usize));
            let j = component_of(csv, x as usize);
            assert(0 <= j < csv.len() && csv[j].contains(x as usize));
            if i != j {
                assert(!csv[j].contains(x as usize));
            }
        }
        assert(comp_of@ =~= component_seq(csv, n as nat));
    }
    let mut u: usize = 0;
    while u < n
        invariant
            n == adj@.len(),
            g == graph_of(adj@),
            edges_in_range(adj@),
            u <= n,
            comp_of@.len() == n,
            csv == cs@.map_values(|c: Vec<usize>| c@),
            indexes_components(csv, comp_of@),
            rg == graph_of(radj@),
            comp_of@ == component_seq(csv, n as nat),
            forall|x: int, k: int| 0 <= x < u && 0 <= k < g[x].len() ==> comp_of@[#[trigger] g[x][k] as int] <= comp_of@[x],
        decreases n - u,
    {
        let succ = &adj[u];
        assert(succ@ == g[u as int]);
        let mut k: usize = 0;
        while k < succ.len()
            invariant
                n == adj@.len(),
                g == graph_of(adj@),
                edges_in_range(adj@),
                u < n,
                succ@ == g[u as int],
                k <= succ@.len(),
                comp_of@.len() == n,
                csv == cs@.map_values(|c: Vec<usize>| c@),
                rg == graph_of(radj@),
                comp_of@ == component_seq(csv, n as nat),
                forall|x: int, j: int| 0 <= x < u && 0 <= j < g[x].len() ==> comp_of@[#[trigger] g[x][j] as int] <= comp_of@[x],
                forall|j: int| 0 <= j < k ==> comp_of@[#[trigger] g[u as int][j] as int] <= comp_of@[u as int],
            decreases succ@.len() - k,
        {
            let v = succ[k];
            assert(adj@[u as int]@[k as int] == v);
            if comp_of[v] > comp_of[u] {
                proof {
                    assert(g[u as int][k as int] == v);
                    assert(g.len() == n);
                    assert(!edges_descend(g, comp_of@));
                }
                return false;
            }
            k = k + 1;
        }
        u = u + 1;
    }
    assert(edges_descend(g, comp_of@));
    let mut fwd: Vec<usize> = Vec::new();
    let mut bwd: Vec<usize> = Vec::new();
    let mut i2: usize = 0;
    while i2 < n
        invariant
            i2 <= n,
            fwd@.len() == i2,
            bwd@.len() == i2,
            forall|x: int| 0 <= x < i2 ==> #[trigger] fwd@[x] == usize::MAX,
            forall|x: int| 0 <= x < i2 ==> #[trigger] bwd@[x] == usize::MAX,
        decreases n - i2,
    {
        fwd.push(usize::MAX);
        bwd.push(usize::MAX);
        i2 = i2 + 1;
    }
    let mut cj: usize = 0;
    while cj < cs.len()
        invariant
            n == adj@.len(),
            g == graph_of(adj@),
            rg == graph_of(radj@),
            edges_in_range(adj@),
            edges_in_range(radj@),
            radj@.len() == n,
            reverse_of(rg, g),
            csv == cs@.map_values(|c: Vec<usize>| c@),
            lists_each_node_once(csv, n as nat),
            cj <= cs@.len(),
            comp_of@.len() == n,
            indexes_components(csv, comp_of@),
            edges_descend(g, comp_of@),
            comp_of@ == component_seq(csv, n as nat),
            fwd@.len() == n,
            bwd@.len() == n,
            forall|j: int, a: int|
                0 <= j < cj && 0 <= a < csv[j].len() ==> reaches_inside(g, comp_of@, j as usize, csv[j][0], #[trigger] csv[j][a])
                    && reaches_inside(rg, comp_of@, j as usize, csv[j][0], csv[j][a]),
            forall|x: int| 0 <= x < n ==> (#[trigger] fwd@[x] == usize::MAX || fwd@[x] < cj),
            forall|x: int| 0 <= x < n ==> (#[trigger] bwd@[x] == usize::MAX || bwd@[x] < cj),
            forall|j: int, a: int| 0 <= j < cj && 0 <= a < csv[j].len() ==> mutually(g, csv[j][0], #[trigger] csv[j][a]),
        decreases cs@.len() - cj,
    {
        let c = &cs[cj];
        assert(c@ == csv[cj as int]);
        assert(csv[cj as int].len() > 0);
        let root = c[0];
        assert(root < n);
        assert forall|x: int| 0 <= x < n implies #[trigger] fwd@[x] != cj by {}
        assert forall|x: int| 0 <= x < n implies #[trigger] bwd@[x] != cj by {}
        stamp_within(adj, &comp_of, cj, root, &mut fwd);
        stamp_within(radj.as_slice(), &comp_of, cj, root, &mut bwd);
        let mut m: usize = 0;
        while m < c.len()
            invariant
                n == adj@.len(),
                g == graph_of(adj@),
                rg == graph_of(radj@),
                reverse_of(rg, g),
                c@ == csv[cj as int],
                csv[cj as int].len() > 0,
                root == csv[cj as int][0],
                root < n,
                m <= c@.len(),
                fwd@.len() == n,
                bwd@.len() == n,
                csv == cs@.map_values(|c: Vec<usize>| c@),
                cj < cs@.len(),
                comp_of@ == component_seq(csv, n as nat),
                comp_of@.len() == n,
                forall|x: int| 0 <= x < n ==> (#[trigger] fwd@[x] == cj <==> reaches_inside(g, comp_of@, cj, root, x as usize)),
                forall|x: int| 0 <= x < n ==> (#[trigger] bwd@[x] == cj <==> reaches_inside(rg, comp_of@, cj, root, x as usize)),
                forall|a: int|
                    0 <= a < m ==> reaches_inside(g, comp_of@, cj, root, #[trigger] csv[cj as int][a]) && reaches_inside(
                        rg,
                        comp_of@,
                        cj,
                        root,
                        csv[cj as int][a],
                    ),
                forall|a: int| 0 <= a < csv[cj as int].len() ==> (#[trigger] csv[cj as int][a]) < n,
                forall|a: int| 0 <= a < m ==> mutually(g, root, #[trigger] csv[cj as int][a]),
            decreases c@.len() - m,
        {
            let x = c[m];
            assert(csv[cj as int][m as int] == x);
            if fwd[x] != cj || bwd[x] != cj {
                proof {
                    assert(g.len() == n);
                    assert(!(reaches_inside(g, comp_of@, cj, root, x) && reaches_inside(rg, comp_of@, cj, root, x)));
                    assert(!certified(g, rg, csv));
                }
                return false;
            }
            proof {
                lemma_inside_reaches(g, comp_of@, cj, root, x);
                lemma_inside_reaches(rg, comp_of@, cj, root, x);
                lemma_reaches_reversed(rg, g, root, x);
            }
            m = m + 1;
        }
        proof {
            assert forall|x: int| 0 <= x < n implies (#[trigger] fwd@[x] == usize::MAX || fwd@[x] < cj + 1) by {}
            assert forall|x: int| 0 <= x < n implies (#[trigger] bwd@[x] == usize::MAX || bwd@[x] < cj + 1) by {}
        }
        cj = cj + 1;
    }
    proof {
        assert forall|i: int, a: int, b: int|
            0 <= i < csv.len() && 0 <= a < csv[i].len() && 0 <= b < csv[i].len() implies mutually(
            g,
            #[trigger] csv[i][a],
            #[trigger] csv[i][b],
        ) by {
            assert(mutually(g, csv[i][0], csv[i][a]));
            assert(mutually(g, csv[i][0], csv[i][b]));
            lemma_mutually_symmetric_transitive(g, csv[i][0], csv[i][a], csv[i][a]);
            lemma_mutually_symmetric_transitive(g, csv[i][a], csv[i][0], csv[i][b]);
        }
        assert forall|i: int, j: int, a: int, b: int|
            0 <= i < csv.len() && 0 <= j < csv.len() && 0 <= a < csv[i].len() && 0 <= b < csv[j].len() && mutually(
                g,
                #[trigger] csv[i][a],
                #[trigger] csv[j][b],
            ) implies i == j by {
            let x = csv[i][a];
            let y = csv[j][b];
            let pxy = choose|p: Seq<usize>| #[trigger] is_walk(g, p) && p[0] == x && p.last() == y;
            let pyx = choose|p: Seq<usize>| #[trigger] is_walk(g, p) && p[0] == y && p.last() == x;
            lemma_descend_walk(g, comp_of@, pxy);
            lemma_descend_walk(g, comp_of@, pyx);
            assert(csv[i].contains(x));
            assert(csv[j].contains(y));
            assert(csv[comp_of@[x as int] as int].contains(x));
            assert(csv[comp_of@[y as int] as int].contains(y));
            if comp_of@[x as int] != i {
                assert(!csv[i].contains(x));
            }
            if comp_of@[y as int] != j {
                assert(!csv[j].contains(y));
            }
        }
    }
    true
}

} // verus!
