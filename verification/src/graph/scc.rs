//! Strongly connected components.
//!
//! A graph algorithm over plain indices; it knows nothing about files
//! or findings.

use vstd::prelude::*;
use vstd::set_lib::{lemma_int_range, lemma_len_subset, set_int_range};

use crate::graph::reach::{
    certify_components, components_by_reach, exact_sccs, graph_of, lemma_descend_sinks_first,
    lemma_reverse_symmetric, order_sinks_first, reverse_graph, sinks_first,
};

verus! {

/// Every edge points at a node of the graph.
pub open spec fn edges_in_range(adj: Seq<Vec<usize>>) -> bool {
    forall|v: int, k: int|
        0 <= v < adj.len() && 0 <= k < adj[v]@.len() ==> (#[trigger] adj[v]@[k]) < adj.len()
}

/// Whether node `x` is in one of the components.
pub open spec fn placed(cs: Seq<Seq<usize>>, x: usize) -> bool {
    exists|i: int| 0 <= i < cs.len() && #[trigger] cs[i].contains(x)
}

/// The components list every node of an `n`-node graph exactly once:
/// each is non-empty and without repeats, no node is in two of them,
/// and every node is in one.
pub open spec fn lists_each_node_once(cs: Seq<Seq<usize>>, n: nat) -> bool {
    &&& forall|i: int| 0 <= i < cs.len() ==> (#[trigger] cs[i]).len() > 0 && cs[i].no_duplicates()
    &&& forall|i: int, k: int| 0 <= i < cs.len() && 0 <= k < cs[i].len() ==> (#[trigger] cs[i][k]) < n
    &&& forall|i: int, j: int, x: usize|
        0 <= i < cs.len() && 0 <= j < cs.len() && i != j && #[trigger] cs[i].contains(x) ==> !(
        #[trigger] cs[j].contains(x))
    &&& forall|x: usize| x < n ==> #[trigger] placed(cs, x)
}

/// The edges still to walk in the suspended frames of a depth-first
/// walk.
spec fn pending_edges(adj: Seq<Vec<usize>>, work: Seq<(usize, usize)>) -> nat
    decreases work.len(),
{
    if work.len() == 0 {
        0
    } else {
        let (x, e) = work.last();
        pending_edges(adj, work.drop_last()) + if 0 < e && e <= adj[x as int]@.len() {
            (adj[x as int]@.len() - e) as nat
        } else {
            0nat
        }
    }
}

/// The nodes that have been given an index.
spec fn visited_set(index: Seq<usize>) -> Set<int> {
    Set::new(|x: int| 0 <= x < index.len() && index[x] != usize::MAX)
}

proof fn lemma_visited_bound(index: Seq<usize>)
    ensures
        visited_set(index).finite(),
        visited_set(index).len() <= index.len(),
{
    lemma_int_range(0, index.len() as int);
    lemma_len_subset(visited_set(index), set_int_range(0, index.len() as int));
}

/// The state the walk keeps between steps, stated once.
spec fn walk_ok(
    adj: Seq<Vec<usize>>,
    index: Seq<usize>,
    lowlink: Seq<usize>,
    on_stack: Seq<bool>,
    stack: Seq<usize>,
    comps: Seq<Seq<usize>>,
    next_index: usize,
) -> bool {
    let n = adj.len();
    &&& n <= usize::MAX
    &&& index.len() == n
    &&& lowlink.len() == n
    &&& on_stack.len() == n
    &&& next_index as int == visited_set(index).len()
    &&& forall|x: int| 0 <= x < n && index[x] != usize::MAX ==> #[trigger] index[x] < next_index
    &&& forall|a: int| 0 <= a < stack.len() ==> (#[trigger] stack[a]) < n && index[stack[a] as int]
        != usize::MAX
    &&& forall|a: int, b: int|
        0 <= a < b < stack.len() ==> index[#[trigger] stack[a] as int] < index[#[trigger] stack[b] as int]
    &&& forall|x: int| 0 <= x < n ==> (#[trigger] on_stack[x] <==> stack.contains(x as usize))
    &&& forall|x: int|
        0 <= x < n && #[trigger] index[x] == usize::MAX ==> !stack.contains(x as usize) && !placed(
            comps,
            x as usize,
        )
    &&& forall|x: int|
        0 <= x < n && #[trigger] index[x] != usize::MAX ==> (stack.contains(x as usize) != placed(
            comps,
            x as usize,
        ))
    &&& forall|i: int| 0 <= i < comps.len() ==> (#[trigger] comps[i]).len() > 0 && comps[i].no_duplicates()
    &&& forall|i: int, k: int| 0 <= i < comps.len() && 0 <= k < comps[i].len() ==> (#[trigger] comps[i][k]) < n
    &&& forall|i: int, j: int, x: usize|
        0 <= i < comps.len() && 0 <= j < comps.len() && i != j && #[trigger] comps[i].contains(x) ==> !(
        #[trigger] comps[j].contains(x))
}

/// The suspended frames of the walk from a root whose index is `base`:
/// only the topmost may be a node not yet reached; every other names a
/// reached node still on the stack, with how many of its edges have
/// been walked, and the frames are in the order their nodes were
/// reached.
spec fn frames_ok(adj: Seq<Vec<usize>>, index: Seq<usize>, stack: Seq<usize>, work: Seq<(usize, usize)>, base: usize) -> bool {
    let n = adj.len();
    &&& forall|i: int|
        0 <= i < work.len() ==> (#[trigger] work[i]).0 < n && (if work[i].1 == 0 {
            i == work.len() - 1 && index[work[i].0 as int] == usize::MAX
        } else {
            &&& work[i].1 <= adj[work[i].0 as int]@.len()
            &&& index[work[i].0 as int] != usize::MAX
            &&& base <= index[work[i].0 as int]
            &&& stack.contains(work[i].0)
        })
    &&& forall|i: int, j: int|
        0 <= i < j < work.len() && work[j].1 > 0 ==> index[(#[trigger] work[i]).0 as int] < index[(
        #[trigger] work[j]).0 as int]
}

/// The nodes reached from the current root, whose index is `base`:
/// they alone are on the stack, and each one's low link lies between
/// `base` and its own index.
spec fn tree_bounds(adj: Seq<Vec<usize>>, index: Seq<usize>, lowlink: Seq<usize>, stack: Seq<usize>, base: usize, next_index: usize) -> bool {
    let n = adj.len();
    &&& base <= next_index
    &&& forall|a: int| 0 <= a < stack.len() ==> base <= #[trigger] index[stack[a] as int]
    &&& forall|x: int|
        0 <= x < n && index[x] != usize::MAX && base <= #[trigger] index[x] ==> base <= lowlink[x]
            <= index[x]
}

/// What holds between two steps of the walk from `root`.
spec fn tree_ok(
    adj: Seq<Vec<usize>>,
    index: Seq<usize>,
    lowlink: Seq<usize>,
    stack: Seq<usize>,
    work: Seq<(usize, usize)>,
    root: usize,
    base: usize,
    next_index: usize,
) -> bool {
    &&& root < adj.len()
    &&& (index[root as int] == usize::MAX ==> next_index == base && work == seq![(root, 0usize)])
    &&& (index[root as int] != usize::MAX ==> index[root as int] == base)
    &&& (work.len() > 0 ==> work[0].0 == root)
    &&& (work.len() == 0 ==> stack.len() == 0 && index[root as int] != usize::MAX)
    &&& tree_bounds(adj, index, lowlink, stack, base, next_index)
    &&& frames_ok(adj, index, stack, work, base)
}

/// What holds while the edges of `v`, just taken off the frames, are
/// walked: `v` is reached, on the stack, and later than every frame
/// left.
spec fn open_frame_ok(
    adj: Seq<Vec<usize>>,
    index: Seq<usize>,
    lowlink: Seq<usize>,
    stack: Seq<usize>,
    work: Seq<(usize, usize)>,
    root: usize,
    base: usize,
    next_index: usize,
    v: usize,
) -> bool {
    &&& root < adj.len()
    &&& v < adj.len()
    &&& index[root as int] == base
    &&& (work.len() > 0 ==> work[0].0 == root)
    &&& (work.len() == 0 ==> v == root)
    &&& index[v as int] != usize::MAX
    &&& base <= index[v as int]
    &&& stack.contains(v)
    &&& forall|i: int| 0 <= i < work.len() ==> (#[trigger] work[i]).1 > 0 && index[work[i].0 as int] < index[v as int]
    &&& tree_bounds(adj, index, lowlink, stack, base, next_index)
    &&& frames_ok(adj, index, stack, work, base)
}

proof fn lemma_pending_push(adj: Seq<Vec<usize>>, work: Seq<(usize, usize)>, e: (usize, usize))
    ensures
        pending_edges(adj, work.push(e)) == pending_edges(adj, work) + if 0 < e.1 && e.1 <= adj[e.0 as int]@.len() {
            (adj[e.0 as int]@.len() - e.1) as nat
        } else {
            0nat
        },
{
    assert(work.push(e).drop_last() =~= work);
}

/// Gives the unreached node `v` the next index and puts it on the
/// stack.
fn visit(
    index: &mut Vec<usize>,
    lowlink: &mut Vec<usize>,
    on_stack: &mut Vec<bool>,
    stack: &mut Vec<usize>,
    next_index: &mut usize,
    v: usize,
    Ghost(adj): Ghost<Seq<Vec<usize>>>,
    Ghost(comps): Ghost<Seq<Seq<usize>>>,
    Ghost(base): Ghost<usize>,
)
    requires
        v < adj.len(),
        old(index)@[v as int] == usize::MAX,
        walk_ok(adj, old(index)@, old(lowlink)@, old(on_stack)@, old(stack)@, comps, *old(next_index)),
        tree_bounds(adj, old(index)@, old(lowlink)@, old(stack)@, base, *old(next_index)),
    ensures
        final(index)@ == old(index)@.update(v as int, *old(next_index)),
        final(lowlink)@ == old(lowlink)@.update(v as int, *old(next_index)),
        final(stack)@ == old(stack)@.push(v),
        *final(next_index) == *old(next_index) + 1,
        walk_ok(adj, final(index)@, final(lowlink)@, final(on_stack)@, final(stack)@, comps, *final(next_index)),
        tree_bounds(adj, final(index)@, final(lowlink)@, final(stack)@, base, *final(next_index)),
        forall|x: usize| old(stack)@.contains(x) ==> #[trigger] final(stack)@.contains(x),
{
    let ghost n = adj.len();
    let ghost idx0 = index@;
    let ghost st0 = stack@;
    proof {
        lemma_visited_bound(idx0);
        assert(!visited_set(idx0).contains(v as int));
        lemma_int_range(0, n as int);
        lemma_len_subset(visited_set(idx0).insert(v as int), set_int_range(0, n as int));
    }
    let k = *next_index;
    let len = index.len();
    proof {
        assert(visited_set(idx0).insert(v as int).len() == visited_set(idx0).len() + 1);
        assert(k < n);
        assert(n == len);
    }
    index.set(v, k);
    lowlink.set(v, k);
    proof {
        assert forall|x: int| #[trigger] visited_set(index@).contains(x) == visited_set(idx0).insert(v as int).contains(x) by {
            if x == v {
                assert(index@[x] == k);
            } else if 0 <= x < n {
                assert(index@[x] == idx0[x]);
            }
        }
        assert(visited_set(index@) =~= visited_set(idx0).insert(v as int));
    }
    *next_index = k + 1;
    stack.push(v);
    on_stack.set(v, true);
    proof {
        assert forall|x: usize| st0.contains(x) implies #[trigger] stack@.contains(x) by {
            let a = choose|a: int| 0 <= a < st0.len() && st0[a] == x;
            assert(stack@[a] == x);
        }
        assert(stack@[st0.len() as int] == v);
        assert forall|x: int| 0 <= x < n implies (#[trigger] on_stack@[x] <==> stack@.contains(x as usize)) by {
            if x != v && stack@.contains(x as usize) {
                let a = choose|a: int| 0 <= a < stack@.len() && stack@[a] == x as usize;
                assert(st0[a] == x as usize);
            }
        }
        assert forall|x: int|
            0 <= x < n && #[trigger] index@[x] != usize::MAX implies (stack@.contains(x as usize) != placed(
            comps,
            x as usize,
        )) by {
            if x != v {
                assert(idx0[x] != usize::MAX);
                if stack@.contains(x as usize) {
                    let a = choose|a: int| 0 <= a < stack@.len() && stack@[a] == x as usize;
                    assert(st0[a] == x as usize);
                }
            }
        }
        assert forall|x: int|
            0 <= x < n && #[trigger] index@[x] == usize::MAX implies !stack@.contains(x as usize) && !placed(
            comps,
            x as usize,
        ) by {
            assert(idx0[x] == usize::MAX);
            if stack@.contains(x as usize) {
                let a = choose|a: int| 0 <= a < stack@.len() && stack@[a] == x as usize;
                assert(st0[a] == x as usize);
            }
        }
        assert forall|a: int, b: int|
            0 <= a < b < stack@.len() implies index@[#[trigger] stack@[a] as int] < index@[#[trigger] stack@[b] as int] by {
            if b < st0.len() {
                assert(stack@[a] == st0[a] && stack@[b] == st0[b]);
            } else {
                assert(stack@[a] == st0[a]);
            }
        }
        assert forall|a: int| 0 <= a < stack@.len() implies base <= #[trigger] index@[stack@[a] as int] by {
            if a < st0.len() {
                assert(stack@[a] == st0[a]);
            }
        }
    }
}

/// Pops the stack down to and including `v`, which closes a
/// component, and returns the component.
fn close_component(
    stack: &mut Vec<usize>,
    on_stack: &mut Vec<bool>,
    v: usize,
    Ghost(adj): Ghost<Seq<Vec<usize>>>,
    Ghost(index): Ghost<Seq<usize>>,
    Ghost(lowlink): Ghost<Seq<usize>>,
    Ghost(comps): Ghost<Seq<Seq<usize>>>,
    Ghost(work): Ghost<Seq<(usize, usize)>>,
    Ghost(root): Ghost<usize>,
    Ghost(base): Ghost<usize>,
    Ghost(next_index): Ghost<usize>,
) -> (component: Vec<usize>)
    requires
        walk_ok(adj, index, lowlink, old(on_stack)@, old(stack)@, comps, next_index),
        open_frame_ok(adj, index, lowlink, old(stack)@, work, root, base, next_index, v),
        lowlink[v as int] == index[v as int],
    ensures
        walk_ok(adj, index, lowlink, final(on_stack)@, final(stack)@, comps.push(component@), next_index),
        tree_bounds(adj, index, lowlink, final(stack)@, base, next_index),
        frames_ok(adj, index, final(stack)@, work, base),
        work.len() == 0 ==> final(stack)@.len() == 0,
{
    let ghost n = adj.len();
    let ghost st0 = stack@;
    let ghost p = choose|p: int| 0 <= p < st0.len() && st0[p] == v;
    let mut component: Vec<usize> = Vec::new();
    loop
        invariant_except_break
            p < stack@.len(),
        invariant
            n == adj.len(),
            n <= usize::MAX,
            on_stack@.len() == n,
            0 <= p < st0.len(),
            st0[p] == v,
            forall|a: int| 0 <= a < st0.len() ==> (#[trigger] st0[a]) < n,
            forall|a: int, b: int|
                0 <= a < b < st0.len() ==> index[#[trigger] st0[a] as int] < index[#[trigger] st0[b] as int],
            p <= stack@.len() <= st0.len(),
            stack@ == st0.take(stack@.len() as int),
            component@.len() == st0.len() - stack@.len(),
            forall|k: int| 0 <= k < component@.len() ==> #[trigger] component@[k] == st0[st0.len() - 1 - k],
            forall|x: int| 0 <= x < n ==> (#[trigger] on_stack@[x] <==> stack@.contains(x as usize)),
        ensures
            on_stack@.len() == n,
            stack@ == st0.take(p),
            component@.len() == st0.len() - p,
            forall|k: int| 0 <= k < component@.len() ==> #[trigger] component@[k] == st0[st0.len() - 1 - k],
            forall|x: int| 0 <= x < n ==> (#[trigger] on_stack@[x] <==> stack@.contains(x as usize)),
        decreases stack@.len(),
    {
        let ghost m = stack@.len();
        match stack.pop() {
            None => {
                break;
            },
            Some(w) => {
                assert(w == st0[m - 1]);
                assert(stack@ =~= st0.take(m - 1));
                let ghost on0 = on_stack@;
                on_stack.set(w, false);
                component.push(w);
                proof {
                    assert forall|x: int| 0 <= x < n implies (#[trigger] on_stack@[x] <==> stack@.contains(x as usize)) by {
                        if stack@.contains(x as usize) {
                            let a = choose|a: int| 0 <= a < stack@.len() && stack@[a] == x as usize;
                            assert(st0[a] == x as usize);
                            if x == w {
                                assert(index[st0[a] as int] < index[st0[m - 1] as int]);
                            }
                            assert(st0.take(m as int)[a] == x as usize);
                        }
                        if x != w && on_stack@[x] {
                            assert(on0[x]);
                            assert(st0.take(m as int).contains(x as usize));
                            let a = choose|a: int| 0 <= a < st0.take(m as int).len() && st0.take(m as int)[a] == x as usize;
                            assert(st0.take(m as int)[m - 1] == w);
                            if a == m - 1 {
                                assert(x as usize == w);
                            }
                            assert(st0.take(m as int)[a] == st0[a]);
                            assert(stack@[a] == x as usize);
                        }
                    }
                }
                if w == v {
                    proof {
                        if m - 1 != p {
                            assert(index[st0[p] as int] < index[st0[m - 1] as int]);
                        }
                    }
                    break;
                }
            },
        }
    }
    proof {
        let cs = comps.push(component@);
        // the component is the popped suffix of the stack, in reverse
        assert forall|x: usize| #[trigger] component@.contains(x) <==> (exists|q: int| p <= q < st0.len() && st0[q] == x) by {
            if component@.contains(x) {
                let k = choose|k: int| 0 <= k < component@.len() && component@[k] == x;
                assert(st0[st0.len() - 1 - k] == x);
            }
            if exists|q: int| p <= q < st0.len() && st0[q] == x {
                let q = choose|q: int| p <= q < st0.len() && st0[q] == x;
                assert(component@[st0.len() - 1 - q] == x);
            }
        }
        assert(component@[st0.len() - 1 - p] == v);
        assert(component@.no_duplicates()) by {
            assert forall|i: int, j: int|
                0 <= i < component@.len() && 0 <= j < component@.len() && i != j implies component@[i] != component@[j] by {
                let qi = st0.len() - 1 - i;
                let qj = st0.len() - 1 - j;
                if qi < qj {
                    assert(index[st0[qi] as int] < index[st0[qj] as int]);
                } else {
                    assert(index[st0[qj] as int] < index[st0[qi] as int]);
                }
            }
        }
        assert forall|x: usize| #[trigger] component@.contains(x) implies !placed(comps, x) && x < n && index[x as int] != usize::MAX by {
            let q = choose|q: int| p <= q < st0.len() && st0[q] == x;
            assert(st0.contains(x));
            assert(index[st0[q] as int] != usize::MAX);
        }
        assert forall|x: int|
            0 <= x < n && #[trigger] index[x] != usize::MAX implies (stack@.contains(x as usize) != placed(
            cs,
            x as usize,
        )) by {
            let xu = x as usize;
            if stack@.contains(xu) {
                let a = choose|a: int| 0 <= a < stack@.len() && stack@[a] == xu;
                assert(st0[a] == xu);
                assert(st0.contains(xu));
                assert(!placed(comps, xu));
                if component@.contains(xu) {
                    let q = choose|q: int| p <= q < st0.len() && st0[q] == xu;
                    assert(index[st0[a] as int] < index[st0[q] as int]);
                }
                assert forall|i: int| 0 <= i < cs.len() implies !(#[trigger] cs[i].contains(xu)) by {
                    if i < comps.len() {
                        assert(cs[i] == comps[i]);
                    }
                }
            } else if st0.contains(xu) {
                let q = choose|q: int| 0 <= q < st0.len() && st0[q] == xu;
                if q < p {
                    assert(stack@[q] == xu);
                }
                assert(cs[comps.len() as int] == component@);
                assert(component@.contains(xu));
            } else {
                assert(placed(comps, xu));
                let i = choose|i: int| 0 <= i < comps.len() && #[trigger] comps[i].contains(xu);
                assert(cs[i] == comps[i]);
            }
        }
        assert forall|x: int|
            0 <= x < n && #[trigger] index[x] == usize::MAX implies !stack@.contains(x as usize) && !placed(
            cs,
            x as usize,
        ) by {
            let xu = x as usize;
            if stack@.contains(xu) {
                let a = choose|a: int| 0 <= a < stack@.len() && stack@[a] == xu;
                assert(st0[a] == xu);
                assert(st0.contains(xu));
            }
            assert forall|i: int| 0 <= i < cs.len() implies !(#[trigger] cs[i].contains(xu)) by {
                if i < comps.len() {
                    assert(cs[i] == comps[i]);
                }
            }
        }
        assert forall|i: int, j: int, x: usize|
            0 <= i < cs.len() && 0 <= j < cs.len() && i != j && #[trigger] cs[i].contains(x) implies !(
            #[trigger] cs[j].contains(x)) by {
            if i < comps.len() && j < comps.len() {
                assert(cs[i] == comps[i] && cs[j] == comps[j]);
            } else if i < comps.len() {
                assert(cs[i] == comps[i]);
                if cs[j].contains(x) {
                    assert(cs[j] == component@);
                }
            } else {
                assert(cs[j] == comps[j]);
                assert(cs[i] == component@);
            }
        }
        assert forall|i: int| 0 <= i < cs.len() implies (#[trigger] cs[i]).len() > 0 && cs[i].no_duplicates() by {
            if i < comps.len() {
                assert(cs[i] == comps[i]);
            }
        }
        assert forall|i: int, k: int| 0 <= i < cs.len() && 0 <= k < cs[i].len() implies (#[trigger] cs[i][k]) < n by {
            if i < comps.len() {
                assert(cs[i] == comps[i]);
            } else {
                assert(cs[i] == component@);
                assert(component@.contains(component@[k]));
            }
        }
        assert forall|a: int, b: int|
            0 <= a < b < stack@.len() implies index[#[trigger] stack@[a] as int] < index[#[trigger] stack@[b] as int] by {
            assert(stack@[a] == st0[a] && stack@[b] == st0[b]);
        }
        assert forall|a: int| 0 <= a < stack@.len() implies (#[trigger] stack@[a]) < n && index[stack@[a] as int]
            != usize::MAX && base <= index[stack@[a] as int] by {
            assert(stack@[a] == st0[a]);
        }
        // the frames left all began before v, so they lie below it
        assert forall|i: int| 0 <= i < work.len() implies stack@.contains((#[trigger] work[i]).0) by {
            let x = work[i].0;
            let q = choose|q: int| 0 <= q < st0.len() && st0[q] == x;
            if q >= p {
                if q > p {
                    assert(index[st0[p] as int] < index[st0[q] as int]);
                }
            }
            assert(stack@[q] == x);
        }
        if work.len() == 0 {
            if p > 0 {
                assert(index[st0[0] as int] < index[st0[p] as int]);
            }
        }
    }
    component
}

/// The strongly connected components of the graph, sinks first
/// (reverse topological order): no edge leads from a component to one
/// listed after it. This is the order in which Tarjan's walk closes
/// them.
///
/// The listing that the walk produces is checked against the graph
/// (see [`certify_components`]); should the check ever refuse it, the
/// components are found again by reachability and put sinks first by
/// [`order_sinks_first`].
pub fn strongly_connected(adjacency: &[Vec<usize>]) -> (r: Vec<Vec<usize>>)
    requires
        edges_in_range(adjacency@),
    ensures
        exact_sccs(graph_of(adjacency@), r@.map_values(|c: Vec<usize>| c@)),
        sinks_first(graph_of(adjacency@), r@.map_values(|c: Vec<usize>| c@)),
{
    let comps = tarjan(adjacency);
    let radj = reverse_graph(adjacency);
    proof {
        lemma_reverse_symmetric(graph_of(adjacency@), graph_of(radj@));
    }
    let listed = comps.len();
    if certify_components(adjacency, &radj, &comps) {
        proof {
            assert(comps@.map_values(|c: Vec<usize>| c@).len() == listed);
            lemma_descend_sinks_first(graph_of(adjacency@), comps@.map_values(|c: Vec<usize>| c@));
        }
        comps
    } else {
        let found = components_by_reach(adjacency);
        order_sinks_first(adjacency, &found)
    }
}

/// Tarjan's algorithm, walking depth first with an explicit stack of
/// suspended frames rather than by recursion.
///
/// Each node of the graph comes out in exactly one component.
fn tarjan(adjacency: &[Vec<usize>]) -> (r: Vec<Vec<usize>>)
    requires
        edges_in_range(adjacency@),
    ensures
        lists_each_node_once(r@.map_values(|c: Vec<usize>| c@), adjacency@.len()),
{
    let ghost adj = adjacency@;
    let n = adjacency.len();
    let mut index: Vec<usize> = Vec::new();
    let mut lowlink: Vec<usize> = Vec::new();
    let mut on_stack: Vec<bool> = Vec::new();
    let mut i: usize = 0;
    while i < n
        invariant
            i <= n,
            n == adj.len(),
            index@.len() == i,
            lowlink@.len() == i,
            on_stack@.len() == i,
            forall|x: int| 0 <= x < i ==> #[trigger] index@[x] == usize::MAX && !on_stack@[x],
        decreases n - i,
    {
        index.push(usize::MAX);
        lowlink.push(0);
        on_stack.push(false);
        i = i + 1;
    }
    let mut stack: Vec<usize> = Vec::new();
    let mut next_index: usize = 0;
    let mut components: Vec<Vec<usize>> = Vec::new();
    proof {
        assert(visited_set(index@) =~= Set::<int>::empty());
        let cs = components@.map_values(|c: Vec<usize>| c@);
        assert(cs.len() == 0);
        assert forall|x: int| 0 <= x < n implies (#[trigger] on_stack@[x] <==> stack@.contains(x as usize)) by {
            assert(index@[x] == usize::MAX);
        }
        assert forall|x: int| 0 <= x < n && #[trigger] index@[x] == usize::MAX implies !stack@.contains(x as usize) && !placed(cs, x as usize) by {}
    }
    let mut root: usize = 0;
    while root < n
        invariant
            n == adj.len(),
            adj == adjacency@,
            edges_in_range(adj),
            root <= n,
            walk_ok(
                adj,
                index@,
                lowlink@,
                on_stack@,
                stack@,
                components@.map_values(|c: Vec<usize>| c@),
                next_index,
            ),
            stack@.len() == 0,
            forall|x: int| 0 <= x < root ==> #[trigger] index@[x] != usize::MAX,
        decreases n - root,
    {
        if index[root] != usize::MAX {
            root = root + 1;
            continue;
        }
        let ghost base = next_index;
        let mut work: Vec<(usize, usize)> = vec![(root, 0)];
        proof {
            assert(work@ =~= seq![(root, 0usize)]);
            assert(work@[0] == (root, 0usize));
            assert forall|x: int|
                0 <= x < n && index@[x] != usize::MAX && base <= #[trigger] index@[x] implies base <= lowlink@[x] <= index@[x] by {
                assert(index@[x] < next_index);
            }
            assert(tree_ok(adj, index@, lowlink@, stack@, work@, root, base, next_index));
        }
        loop
            invariant
                n == adj.len(),
                adj == adjacency@,
                edges_in_range(adj),
                root < n,
                walk_ok(
                    adj,
                    index@,
                    lowlink@,
                    on_stack@,
                    stack@,
                    components@.map_values(|c: Vec<usize>| c@),
                    next_index,
                ),
                tree_ok(adj, index@, lowlink@, stack@, work@, root, base, next_index),
                forall|x: int| 0 <= x < root ==> #[trigger] index@[x] != usize::MAX,
            ensures
                walk_ok(
                    adj,
                    index@,
                    lowlink@,
                    on_stack@,
                    stack@,
                    components@.map_values(|c: Vec<usize>| c@),
                    next_index,
                ),
                stack@.len() == 0,
                index@[root as int] != usize::MAX,
                forall|x: int| 0 <= x < root ==> #[trigger] index@[x] != usize::MAX,
            decreases n - next_index, pending_edges(adj, work@), work@.len(),
        {
            let ghost work0 = work@;
            let ghost p0 = pending_edges(adj, work0);
            let ghost n0 = next_index;
            let ghost idx0 = index@;
            let popped = work.pop();
            let (v, edge) = match popped {
                None => {
                    break;
                },
                Some(e) => e,
            };
            proof {
                assert(work0[work0.len() - 1] == (v, edge));
                assert(work@ =~= work0.drop_last());
                lemma_pending_push(adj, work@, (v, edge));
                assert(work@.push((v, edge)) =~= work0);
                assert(p0 == pending_edges(adj, work@) + if 0 < edge && edge <= adj[v as int]@.len() {
                    (adj[v as int]@.len() - edge) as nat
                } else {
                    0nat
                });
            }
            if edge == 0 {
                visit(
                    &mut index,
                    &mut lowlink,
                    &mut on_stack,
                    &mut stack,
                    &mut next_index,
                    v,
                    Ghost(adj),
                    Ghost(components@.map_values(|c: Vec<usize>| c@)),
                    Ghost(base),
                );
            }
            proof {
                assert forall|i: int| 0 <= i < work@.len() implies (#[trigger] work@[i]).1 > 0 && index@[work@[i].0 as int]
                    < index@[v as int] by {
                    assert(work0[i] == work@[i]);
                    if edge > 0 {
                        assert(work0[work0.len() - 1] == (v, edge));
                    } else {
                        assert(idx0[work@[i].0 as int] != usize::MAX);
                    }
                }
                assert(frames_ok(adj, index@, stack@, work@, base)) by {
                    assert forall|i: int| 0 <= i < work@.len() implies (#[trigger] work@[i]).0 < n && (if work@[i].1 == 0 {
                        i == work@.len() - 1 && index@[work@[i].0 as int] == usize::MAX
                    } else {
                        &&& work@[i].1 <= adj[work@[i].0 as int]@.len()
                        &&& index@[work@[i].0 as int] != usize::MAX
                        &&& base <= index@[work@[i].0 as int]
                        &&& stack@.contains(work@[i].0)
                    }) by {
                        assert(work0[i] == work@[i]);
                    }
                    assert forall|i: int, j: int|
                        0 <= i < j < work@.len() && work@[j].1 > 0 implies index@[(#[trigger] work@[i]).0 as int]
                        < index@[(#[trigger] work@[j]).0 as int] by {
                        assert(work0[i] == work@[i] && work0[j] == work@[j]);
                    }
                }
                if work@.len() > 0 {
                    assert(work0[0] == work@[0]);
                }
                assert(open_frame_ok(adj, index@, lowlink@, stack@, work@, root, base, next_index, v));
            }
            let mut recursed = false;
            let mut offset: usize = edge;
            let vlen = adjacency[v].len();
            while !recursed && offset < vlen
                invariant
                    n == adj.len(),
                    adj == adjacency@,
                    edges_in_range(adj),
                    v < n,
                    vlen == adj[v as int]@.len(),
                    edge <= offset <= vlen,
                    edge == 0 ==> next_index == n0 + 1,
                    edge > 0 ==> next_index == n0,
                    walk_ok(
                        adj,
                        index@,
                        lowlink@,
                        on_stack@,
                        stack@,
                        components@.map_values(|c: Vec<usize>| c@),
                        next_index,
                    ),
                    !recursed ==> open_frame_ok(adj, index@, lowlink@, stack@, work@, root, base, next_index, v),
                    !recursed ==> edge > 0 ==> pending_edges(adj, work@) + vlen - edge == p0,
                    !recursed ==> work@ == work0.drop_last(),
                    recursed ==> tree_ok(adj, index@, lowlink@, stack@, work@, root, base, next_index),
                    recursed ==> edge > 0 ==> pending_edges(adj, work@) < p0,
                decreases (if recursed { 0 } else { vlen - offset + 1 }),
            {
                let w = adjacency[v][offset];
                assert(adj[v as int]@[offset as int] == w);
                if index[w] == usize::MAX {
                    let ghost wk0 = work@;
                    work.push((v, offset + 1));
                    work.push((w, 0));
                    recursed = true;
                    proof {
                        lemma_pending_push(adj, wk0, (v, (offset + 1) as usize));
                        lemma_pending_push(adj, wk0.push((v, (offset + 1) as usize)), (w, 0usize));
                        assert(work@ =~= wk0.push((v, (offset + 1) as usize)).push((w, 0usize)));
                        assert forall|i: int| 0 <= i < work@.len() implies (#[trigger] work@[i]).0 < n && (
                        if work@[i].1 == 0 {
                            i == work@.len() - 1 && index@[work@[i].0 as int] == usize::MAX
                        } else {
                            &&& work@[i].1 <= adj[work@[i].0 as int]@.len()
                            &&& index@[work@[i].0 as int] != usize::MAX
                            &&& base <= index@[work@[i].0 as int]
                            &&& stack@.contains(work@[i].0)
                        }) by {
                            if i < wk0.len() {
                                assert(work@[i] == wk0[i]);
                            }
                        }
                        assert forall|i: int, j: int|
                            0 <= i < j < work@.len() && work@[j].1 > 0 implies index@[(
                        #[trigger] work@[i]).0 as int] < index@[(#[trigger] work@[j]).0 as int] by {
                            if j < wk0.len() {
                                assert(work@[i] == wk0[i] && work@[j] == wk0[j]);
                            } else {
                                assert(work@[i] == wk0[i]);
                            }
                        }
                        if wk0.len() > 0 {
                            assert(work@[0] == wk0[0]);
                        }
                        assert(frames_ok(adj, index@, stack@, work@, base));
                        assert(tree_ok(adj, index@, lowlink@, stack@, work@, root, base, next_index));
                    }
                } else {
                    if on_stack[w] {
                        if index[w] < lowlink[v] {
                            let iw = index[w];
                            proof {
                                assert(stack@.contains(w));
                                let a = choose|a: int| 0 <= a < stack@.len() && stack@[a] == w;
                                assert(base <= index@[stack@[a] as int]);
                            }
                            lowlink.set(v, iw);
                        }
                    }
                    offset = offset + 1;
                }
            }
            if recursed {
                proof {
                    lemma_visited_bound(index@);
                }
                continue;
            }
            // Every edge of v walked: v closes its component if nothing
            // it reaches lies further down the stack.
            if lowlink[v] == index[v] {
                let ghost comps0 = components@.map_values(|c: Vec<usize>| c@);
                let component = close_component(
                    &mut stack,
                    &mut on_stack,
                    v,
                    Ghost(adj),
                    Ghost(index@),
                    Ghost(lowlink@),
                    Ghost(comps0),
                    Ghost(work@),
                    Ghost(root),
                    Ghost(base),
                    Ghost(next_index),
                );
                components.push(component);
                proof {
                    assert(components@.map_values(|c: Vec<usize>| c@) =~= comps0.push(component@));
                }
            } else {
                proof {
                    assert(base <= lowlink@[v as int]);
                    if work@.len() == 0 {
                        assert(v == root);
                    }
                }
            }
            // The frame suspended to visit v takes on what v reaches.
            let ghost ll0 = lowlink@;
            let top = work.len();
            if top > 0 {
                let parent = work[top - 1].0;
                {
                    proof {
                        assert(work@[work@.len() - 1].1 > 0);
                    }
                    if lowlink[v] < lowlink[parent] {
                        let lv = lowlink[v];
                        lowlink.set(parent, lv);
                    }
                }
            }
            proof {
                assert(tree_bounds(adj, index@, lowlink@, stack@, base, next_index)) by {
                    assert forall|x: int|
                        0 <= x < n && index@[x] != usize::MAX && base <= #[trigger] index@[x] implies base
                            <= lowlink@[x] <= index@[x] by {
                        assert(base <= ll0[x] <= index@[x]);
                    }
                }
                lemma_visited_bound(index@);
                if edge == 0 {
                    assert(next_index == n0 + 1);
                } else {
                    assert(next_index == n0);
                    assert(pending_edges(adj, work@) <= p0);
                    assert(work@.len() < work0.len());
                }
            }
        }
        root = root + 1;
    }
    proof {
        let cs = components@.map_values(|c: Vec<usize>| c@);
        assert forall|x: usize| x < n implies #[trigger] placed(cs, x) by {
            assert(index@[x as int] != usize::MAX);
        }
    }
    components
}

} // verus!
