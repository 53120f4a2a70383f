//! The A* search engine: open-set management, score bookkeeping, neighbor
//! relaxation, and path reconstruction over the grid arena.
//!
//! Search state (`g`, `f`, parent) lives in tables owned by the search call
//! and keyed by node index, not in the graph, so the same graph can serve
//! any number of searches.

use vstd::prelude::*;
use crate::grid::{Grid, Node, Point, in_grid, diag_step, nodes_laid_out, grid_wired,
    lemma_neighbor_edge, lemma_diag_step_edge, lemma_cell_in_bounds, lemma_cell_lookup};
use vstd::set_lib::{set_int_range, lemma_int_range, lemma_len_subset};

verus! {

/// Sentinel cost for "no path known yet".
pub const INFINITY: usize = usize::MAX;

/// Every neighbor index stored in the arena addresses a node of the arena.
pub open spec fn nodes_wf(ns: Seq<Node>) -> bool {
    forall|i: int, k: int|
        0 <= i < ns.len() && 0 <= k < ns[i].neighbors@.len() ==> (#[trigger] ns[i].neighbors@[k])
            < ns.len()
}

/// An index sequence is a walk through the arena: every entry addresses a
/// node and each consecutive pair is a wired edge.
pub open spec fn is_index_path(ns: Seq<Node>, q: Seq<usize>) -> bool {
    &&& forall|i: int| 0 <= i < q.len() ==> (#[trigger] q[i]) < ns.len()
    &&& forall|i: int|
        0 <= i < q.len() - 1 ==> ns[(#[trigger] q[i]) as int].neighbors@.contains(q[i + 1])
}

/// A walk from `start` that ends on a node carrying the goal's coordinates
/// (goal detection is by coordinate equality).
pub open spec fn reaches(ns: Seq<Node>, start: usize, goal: usize, q: Seq<usize>) -> bool {
    &&& is_index_path(ns, q)
    &&& q.len() >= 1
    &&& q[0] == start
    &&& ns[q[q.len() - 1] as int].p == ns[goal as int].p
}

/// What a successful search returns: a goal-to-start sequence of node
/// indices. The head carries the goal's coordinates, the tail is the start,
/// and each entry is a wired neighbor of its successor (its parent).
pub open spec fn goal_path(ns: Seq<Node>, start: usize, goal: usize, q: Seq<usize>) -> bool {
    &&& q.len() >= 1
    &&& forall|i: int| 0 <= i < q.len() ==> (#[trigger] q[i]) < ns.len()
    &&& ns[q[0] as int].p == ns[goal as int].p
    &&& q[q.len() - 1] == start
    &&& forall|i: int|
        0 <= i < q.len() - 1 ==> ns[q[i + 1] as int].neighbors@.contains(#[trigger] q[i])
}

/// Well-formedness of the search's score and parent tables: a recorded
/// parent addresses a node whose neighbor list holds the child and whose own
/// cost is strictly smaller, so parent chains descend and terminate.
pub open spec fn tables_wf(ns: Seq<Node>, g: Seq<usize>, par: Seq<Option<usize>>) -> bool {
    &&& g.len() == ns.len()
    &&& par.len() == ns.len()
    &&& forall|v: int|
        0 <= v < ns.len() && (#[trigger] par[v]) is Some ==> par[v]->Some_0 < ns.len() && g[v]
            < INFINITY && g[par[v]->Some_0 as int] < g[v] && ns[par[v]->Some_0 as int].neighbors@.contains(
            v as usize,
        )
}

/// The sum of a cost table, the first half of the termination measure of the
/// search loop.
pub open spec fn sum_seq(s: Seq<usize>) -> nat
    decreases s.len(),
{
    if s.len() == 0 {
        0
    } else {
        sum_seq(s.drop_last()) + s.last() as nat
    }
}

/// Updating one table entry changes the sum by the difference of the entry.
proof fn lemma_sum_update(s: Seq<usize>, i: int, v: usize)
    requires
        0 <= i < s.len(),
    ensures
        sum_seq(s.update(i, v)) + s[i] == sum_seq(s) + v,
    decreases s.len(),
{
    let t = s.update(i, v);
    if i == s.len() - 1 {
        assert(t.drop_last() =~= s.drop_last());
    } else {
        assert(t.drop_last() =~= s.drop_last().update(i, v));
        lemma_sum_update(s.drop_last(), i, v);
        assert(t.last() == s.last());
    }
}

/// A vector holding `n` copies of one value.
fn filled<T: Copy>(n: usize, x: T) -> (r: Vec<T>)
    ensures
        r@.len() == n,
        forall|i: int| 0 <= i < n ==> r@[i] == x,
{
    let mut r: Vec<T> = Vec::new();
    let mut i: usize = 0;
    while i < n
        invariant
            i <= n,
            r@.len() == i,
            forall|j: int| 0 <= j < i ==> r@[j] == x,
        decreases n - i,
    {
        r.push(x);
        i = i + 1;
    }
    r
}

/// Linear membership test on the open set.
fn contains_idx(v: &Vec<usize>, x: usize) -> (b: bool)
    ensures
        b == v@.contains(x),
{
    let mut i: usize = 0;
    while i < v.len()
        invariant
            i <= v@.len(),
            forall|j: int| 0 <= j < i ==> v@[j] != x,
        decreases v@.len() - i,
    {
        if v[i] == x {
            return true;
        }
        i = i + 1;
    }
    false
}

/// Walks the recorded parent links from `from` back to the parentless root,
/// returning the goal-to-start sequence of node indices. Callers wanting
/// start-to-goal order reverse it.
pub fn reconstruct_path(
    ns: &Vec<Node>,
    par: &Vec<Option<usize>>,
    g: &Vec<usize>,
    from: usize,
) -> (r: Vec<usize>)
    requires
        tables_wf(ns@, g@, par@),
        from < ns@.len(),
        g@[from as int] < INFINITY,
    ensures
        r@.len() >= 1,
        r@[0] == from,
        forall|i: int|
            0 <= i < r@.len() ==> (#[trigger] r@[i]) < ns@.len() && g@[r@[i] as int] < INFINITY,
        forall|i: int|
            0 <= i < r@.len() - 1 ==> par@[(#[trigger] r@[i]) as int] == Some(r@[i + 1]),
        par@[r@[r@.len() - 1] as int] is None,
{
    let mut result: Vec<usize> = Vec::new();
    result.push(from);
    let mut cur: usize = from;
    while par[cur].is_some()
        invariant
            tables_wf(ns@, g@, par@),
            cur < ns@.len(),
            g@[cur as int] < INFINITY,
            result@.len() >= 1,
            result@[0] == from,
            result@[result@.len() - 1] == cur,
            forall|i: int|
                0 <= i < result@.len() ==> (#[trigger] result@[i]) < ns@.len() && g@[result@[i] as int]
                    < INFINITY,
            forall|i: int|
                0 <= i < result@.len() - 1 ==> par@[(#[trigger] result@[i]) as int] == Some(
                    result@[i + 1],
                ),
        decreases g@[cur as int],
    {
        let nxt = par[cur].unwrap();
        cur = nxt;
        result.push(cur);
    }
    result
}

/// When every settled cost is fully relaxed — each wired edge out of a node
/// with finite cost raises the cost by at most one — costs stay small along
/// any short enough walk from the zero-cost start.
proof fn lemma_walk_costs_bounded(ns: Seq<Node>, g: Seq<usize>, q: Seq<usize>)
    requires
        nodes_wf(ns),
        ns.len() <= usize::MAX,
        g.len() == ns.len(),
        is_index_path(ns, q),
        1 <= q.len() <= ns.len(),
        g[q[0] as int] == 0,
        forall|v: int, k: int|
            0 <= v < ns.len() && g[v] < INFINITY && 0 <= k < ns[v].neighbors@.len() ==> g[(
            #[trigger] ns[v].neighbors@[k]) as int] <= g[v] + 1,
    ensures
        g[q[q.len() - 1] as int] <= q.len() - 1,
    decreases q.len(),
{
    if q.len() > 1 {
        let q0 = q.drop_last();
        assert(is_index_path(ns, q0)) by {
            assert(forall|i: int| 0 <= i < q0.len() ==> q0[i] == q[i]);
        }
        lemma_walk_costs_bounded(ns, g, q0);
        let u = q[q.len() - 2] as int;
        let w = q[q.len() - 1];
        assert(g[u] <= q.len() - 2);
        assert(g[u] < INFINITY);
        assert(ns[u].neighbors@.contains(w));
        let k = choose|k: int| 0 <= k < ns[u].neighbors@.len() && ns[u].neighbors@[k] == w;
        assert(g[ns[u].neighbors@[k] as int] <= g[u] + 1);
    }
}

/// A sequence with more entries than there are values below `n` repeats one.
proof fn lemma_pigeonhole(q: Seq<usize>, n: int)
    requires
        0 <= n,
        q.len() > n,
        forall|i: int| 0 <= i < q.len() ==> (#[trigger] q[i]) < n,
    ensures
        exists|i: int, j: int| 0 <= i < j < q.len() && q[i] == q[j],
{
    broadcast use vstd::set::group_set_axioms, vstd::seq_lib::seq_to_set_is_finite;

    if !(exists|i: int, j: int| 0 <= i < j < q.len() && q[i] == q[j]) {
        let qi = q.map_values(|u: usize| u as int);
        assert(qi.no_duplicates()) by {
            assert forall|i: int, j: int|
                0 <= i < qi.len() && 0 <= j < qi.len() && i != j implies qi[i] != qi[j] by {
                if qi[i] == qi[j] {
                    if i < j {
                        assert(q[i] == q[j]);
                    } else {
                        assert(q[j] == q[i]);
                    }
                }
            }
        }
        qi.unique_seq_to_set();
        lemma_int_range(0, n);
        assert(qi.to_set().subset_of(set_int_range(0, n))) by {
            assert forall|e: int| qi.to_set().contains(e) implies set_int_range(0, n).contains(
                e,
            ) by {
                assert(qi.contains(e));
                let i = choose|i: int| 0 <= i < qi.len() && qi[i] == e;
                assert(q[i] < n);
            }
        }
        lemma_len_subset(qi.to_set(), set_int_range(0, n));
        assert(false);
    }
}

/// Any walk that reaches the goal can be cut at a repeated node into a walk
/// that still reaches it with at most as many entries as the arena has nodes.
proof fn lemma_shorten_reaches(ns: Seq<Node>, start: usize, goal: usize, q: Seq<usize>)
    requires
        goal < ns.len(),
        reaches(ns, start, goal, q),
    ensures
        exists|q2: Seq<usize>|
            reaches(ns, start, goal, q2) && q2.len() <= ns.len(),
    decreases q.len(),
{
    if q.len() <= ns.len() {
        assert(reaches(ns, start, goal, q) && q.len() <= ns.len());
    } else {
        lemma_pigeonhole(q, ns.len() as int);
        let (i, j) = choose|i: int, j: int| 0 <= i < j < q.len() && q[i] == q[j];
        let q2 = q.subrange(0, i) + q.subrange(j, q.len() as int);
        assert(q2.len() == i + q.len() - j);
        assert(reaches(ns, start, goal, q2)) by {
            assert(q2[q2.len() - 1] == q[q.len() - 1]);
            assert(q2[0] == start) by {
                if i == 0 {
                    assert(q2[0] == q[j]);
                    assert(q[j] == q[i]);
                } else {
                    assert(q2[0] == q[0]);
                }
            }
            assert forall|m: int| 0 <= m < q2.len() - 1 implies ns[(#[trigger] q2[m]) as int].neighbors@.contains(
                q2[m + 1],
            ) by {
                if m < i - 1 {
                    assert(q2[m] == q[m] && q2[m + 1] == q[m + 1]);
                } else if m == i - 1 {
                    assert(q2[m] == q[m]);
                    assert(q2[m + 1] == q[j]);
                    assert(q[j] == q[i]);
                    assert(ns[q[m] as int].neighbors@.contains(q[m + 1]));
                } else {
                    assert(q2[m] == q[j + (m - i)]);
                    assert(q2[m + 1] == q[j + (m - i) + 1]);
                    assert(ns[q[j + (m - i)] as int].neighbors@.contains(q[j + (m - i) + 1]));
                }
            }
        }
        lemma_shorten_reaches(ns, start, goal, q2);
    }
}

/// The A* search: repeatedly expands the open node with the smallest f-score
/// (ties broken by first encounter) until a node carrying the goal's
/// coordinates is expanded, relaxing each wired neighbor and recording
/// parents; on success the path is reconstructed by walking the parents.
///
/// The start is seeded with `g = 0` and `f = h(start, goal)`, a node whose
/// cost improves re-enters the open set, and the result is a goal-to-start
/// index path. `None` comes back exactly when no wired walk connects `start`
/// to the goal's coordinates.
pub fn astar<F: Fn(Point, Point) -> usize>(ns: &Vec<Node>, start: usize, goal: usize, h: F) -> (r:
    Option<Vec<usize>>)
    requires
        nodes_wf(ns@),
        start < ns@.len(),
        goal < ns@.len(),
        forall|v: int|
            0 <= v < ns@.len() ==> call_requires(h, ((#[trigger] ns@[v]).p, ns@[goal as int].p)),
    ensures
        r matches Some(path) ==> goal_path(ns@, start, goal, path@),
        ns@[start as int].p == ns@[goal as int].p ==> (r matches Some(path) && path@ == seq![
            start,
        ]),
        r is None ==> forall|q: Seq<usize>| !reaches(ns@, start, goal, q),
{
    let n = ns.len();
    let mut g: Vec<usize> = filled(n, INFINITY);
    let mut f: Vec<usize> = filled(n, INFINITY);
    let mut par: Vec<Option<usize>> = filled(n, None);
    let mut open_set: Vec<usize> = Vec::new();
    open_set.push(start);
    let hv = h(ns[start].p, ns[goal].p);
    g[start] = 0;
    f[start] = hv;
    assert(open_set@ =~= seq![start]);
    proof {
        assert(open_set@[0] == start);
        assert(open_set@.contains(start));
        assert forall|v: int| 0 <= v < n && g@[v] < INFINITY implies v == start by {
            if v != start {
                assert(g@[v] == INFINITY);
            }
        }
    }
    while open_set.len() > 0
        invariant
            nodes_wf(ns@),
            start < n,
            goal < n,
            n == ns@.len(),
            n <= usize::MAX,
            forall|v: int|
                0 <= v < ns@.len() ==> call_requires(h, ((#[trigger] ns@[v]).p, ns@[goal as int].p)),
            g@.len() == n,
            f@.len() == n,
            par@.len() == n,
            forall|j: int|
                0 <= j < open_set@.len() ==> (#[trigger] open_set@[j]) < n && g@[open_set@[j] as int]
                    < INFINITY,
            tables_wf(ns@, g@, par@),
            g@[start as int] == 0,
            par@[start as int] is None,
            forall|v: int| 0 <= v < n && g@[v] < INFINITY && (#[trigger] par@[v]) is None ==> v
                == start,
            forall|v: int, k: int|
                0 <= v < n && g@[v] < INFINITY && !open_set@.contains(v as usize) && 0 <= k < ns@[v].neighbors@.len()
                    ==> g@[(#[trigger] ns@[v].neighbors@[k]) as int] <= g@[v] + 1,
            forall|z: int|
                0 <= z < n && (#[trigger] g@[z]) < INFINITY && ns@[z].p == ns@[goal as int].p
                    ==> open_set@.contains(z as usize),
            ns@[start as int].p == ns@[goal as int].p ==> open_set@ =~= seq![start],
        decreases sum_seq(g@), open_set@.len(),
    {
        let mut mi: usize = 0;
        let mut k: usize = 1;
        while k < open_set.len()
            invariant
                1 <= k <= open_set@.len(),
                mi < k,
                f@.len() == n,
                forall|j: int| 0 <= j < open_set@.len() ==> (#[trigger] open_set@[j]) < n,
                forall|j: int|
                    0 <= j < k ==> f@[open_set@[mi as int] as int] <= f@[(#[trigger] open_set@[j]) as int],
            decreases open_set@.len() - k,
        {
            if f[open_set[k]] < f[open_set[mi]] {
                mi = k;
            }
            k = k + 1;
        }
        let cur = open_set[mi];
        if ns[cur].p == ns[goal].p {
            let path = reconstruct_path(ns, &par, &g, cur);
            proof {
                assert forall|i: int|
                    0 <= i < path@.len() - 1 implies ns@[path@[i + 1] as int].neighbors@.contains(
                    #[trigger] path@[i],
                ) by {
                    assert(par@[path@[i] as int] == Some(path@[i + 1]));
                }
                let last = path@[path@.len() - 1] as int;
                assert(g@[last] < INFINITY && par@[last] is None);
                assert(path@[path@.len() - 1] == start);
                if ns@[start as int].p == ns@[goal as int].p {
                    assert(open_set@ =~= seq![start]);
                    assert(cur == start);
                    if path@.len() >= 2 {
                        assert(par@[path@[0] as int] == Some(path@[1]));
                        assert(false);
                    }
                    assert(path@ =~= seq![start]);
                }
            }
            return Some(path);
        }
        let gcur = g[cur];
        let ghost sum_entry = sum_seq(g@);
        let ghost len_entry = open_set@.len();
        proof {
            assert(ns@[start as int].p != ns@[goal as int].p) by {
                if ns@[start as int].p == ns@[goal as int].p {
                    assert(open_set@ =~= seq![start]);
                    assert(cur == start);
                }
            }
        }
        let mut k2: usize = 0;
        while k2 < ns[cur].neighbors.len()
            invariant
                nodes_wf(ns@),
                start < n,
                goal < n,
                n == ns@.len(),
                n <= usize::MAX,
                forall|v: int|
                    0 <= v < ns@.len() ==> call_requires(
                        h,
                        ((#[trigger] ns@[v]).p, ns@[goal as int].p),
                    ),
                g@.len() == n,
                f@.len() == n,
                par@.len() == n,
                cur < n,
                k2 <= ns@[cur as int].neighbors@.len(),
                g@[cur as int] == gcur,
                gcur < INFINITY,
                ns@[start as int].p != ns@[goal as int].p,
                ns@[cur as int].p != ns@[goal as int].p,
                mi < open_set@.len(),
                open_set@[mi as int] == cur,
                open_set@.len() >= len_entry,
                sum_seq(g@) + open_set@.len() <= sum_entry + len_entry,
                forall|j: int|
                    0 <= j < open_set@.len() ==> (#[trigger] open_set@[j]) < n && g@[open_set@[j] as int]
                        < INFINITY,
                tables_wf(ns@, g@, par@),
                g@[start as int] == 0,
                par@[start as int] is None,
                forall|v: int| 0 <= v < n && g@[v] < INFINITY && (#[trigger] par@[v]) is None ==> v
                    == start,
                forall|v: int, k3: int|
                    0 <= v < n && g@[v] < INFINITY && !open_set@.contains(v as usize) && 0 <= k3
                        < ns@[v].neighbors@.len() ==> g@[(#[trigger] ns@[v].neighbors@[k3]) as int]
                        <= g@[v] + 1,
                forall|z: int|
                    0 <= z < n && (#[trigger] g@[z]) < INFINITY && ns@[z].p == ns@[goal as int].p
                        ==> open_set@.contains(z as usize),
                forall|j: int|
                    0 <= j < k2 ==> g@[(#[trigger] ns@[cur as int].neighbors@[j]) as int] <= gcur
                        + 1,
            decreases ns@[cur as int].neighbors@.len() - k2,
        {
            let w = ns[cur].neighbors[k2];
            let tentative = gcur + 1;
            if tentative < g[w] {
                let ghost g_pre = g@;
                let ghost open_pre = open_set@;
                proof {
                    lemma_sum_update(g@, w as int, tentative);
                    assert(w != cur);
                    assert(w != start);
                }
                par[w] = Some(cur);
                g[w] = tentative;
                let hw = h(ns[w].p, ns[goal].p);
                let fw = if hw > INFINITY - tentative {
                    INFINITY
                } else {
                    tentative + hw
                };
                f[w] = fw;
                if !contains_idx(&open_set, w) {
                    open_set.push(w);
                }
                proof {
                    assert(open_set@.contains(w)) by {
                        if open_pre.contains(w) {
                            let j = choose|j: int| 0 <= j < open_pre.len() && open_pre[j] == w;
                            assert(open_set@[j] == w);
                        } else {
                            assert(open_set@[open_set@.len() - 1] == w);
                        }
                    }
                    assert forall|j: int|
                        0 <= j < open_set@.len() implies (#[trigger] open_set@[j]) < n
                            && g@[open_set@[j] as int] < INFINITY by {
                        if j < open_pre.len() {
                            assert(open_pre[j] == open_set@[j]);
                        }
                    }
                    assert(tables_wf(ns@, g@, par@)) by {
                        assert(ns@[cur as int].neighbors@.contains(w)) by {
                            assert(ns@[cur as int].neighbors@[k2 as int] == w);
                        }
                    }
                    assert forall|v: int, k3: int|
                        0 <= v < n && g@[v] < INFINITY && !open_set@.contains(v as usize) && 0 <= k3
                            < ns@[v].neighbors@.len() implies g@[(
                        #[trigger] ns@[v].neighbors@[k3]) as int] <= g@[v] + 1 by {
                        assert(v != w as int);
                        assert(!open_pre.contains(v as usize)) by {
                            if open_pre.contains(v as usize) {
                                let j = choose|j: int|
                                    0 <= j < open_pre.len() && open_pre[j] == v as usize;
                                assert(open_set@[j] == v as usize);
                            }
                        }
                        assert(g_pre[v] == g@[v]);
                        assert(g_pre[ns@[v].neighbors@[k3] as int] <= g_pre[v] + 1);
                    }
                    assert forall|z: int|
                        0 <= z < n && (#[trigger] g@[z]) < INFINITY && ns@[z].p == ns@[goal as int].p
                            implies open_set@.contains(z as usize) by {
                        if z != w as int {
                            assert(g_pre[z] == g@[z]);
                            assert(open_pre.contains(z as usize));
                            let j = choose|j: int|
                                0 <= j < open_pre.len() && open_pre[j] == z as usize;
                            assert(open_set@[j] == z as usize);
                        }
                    }
                }
            }
            k2 = k2 + 1;
        }
        let ghost open_pre = open_set@;
        open_set.remove(mi);
        proof {
            assert forall|v: usize| open_pre.contains(v) && v != cur implies open_set@.contains(
                v,
            ) by {
                let j = choose|j: int| 0 <= j < open_pre.len() && open_pre[j] == v;
                if j < mi as int {
                    assert(open_set@[j] == v);
                } else {
                    assert(open_set@[j - 1] == v);
                }
            }
            assert forall|v: int, k3: int|
                0 <= v < n && g@[v] < INFINITY && !open_set@.contains(v as usize) && 0 <= k3
                    < ns@[v].neighbors@.len() implies g@[(#[trigger] ns@[v].neighbors@[k3]) as int]
                    <= g@[v] + 1 by {
                if v == cur as int {
                    assert(g@[(ns@[cur as int].neighbors@[k3]) as int] <= gcur + 1);
                } else {
                    assert(!open_pre.contains(v as usize));
                }
            }
            assert forall|z: int|
                0 <= z < n && (#[trigger] g@[z]) < INFINITY && ns@[z].p == ns@[goal as int].p
                    implies open_set@.contains(z as usize) by {
                assert(open_pre.contains(z as usize));
                assert(z as usize != cur);
            }
        }
    }
    proof {
        assert forall|q: Seq<usize>| !reaches(ns@, start, goal, q) by {
            if reaches(ns@, start, goal, q) {
                lemma_shorten_reaches(ns@, start, goal, q);
                let q2 = choose|q2: Seq<usize>|
                    reaches(ns@, start, goal, q2) && q2.len() <= ns@.len();
                lemma_walk_costs_bounded(ns@, g@, q2);
                let last = q2[q2.len() - 1] as int;
                assert(g@[last] < INFINITY);
                assert(open_set@.contains(q2[q2.len() - 1]));
                assert(false);
            }
        }
    }
    None
}

/// A start-to-goal sequence of cells: it begins at `start`, ends at `goal`,
/// stays on the grid, and each consecutive pair is one diagonal hop.
pub open spec fn point_path(width: int, height: int, start: Point, goal: Point, q: Seq<Point>) -> bool {
    &&& q.len() >= 1
    &&& q[0] == start
    &&& q[q.len() - 1] == goal
    &&& forall|i: int| 0 <= i < q.len() ==> in_grid(width, height, #[trigger] q[i])
    &&& forall|i: int| 0 <= i < q.len() - 1 ==> diag_step(q[i], #[trigger] q[i + 1])
}

/// Every diagonal walk of cells induces a wired walk of arena indices that
/// reaches the goal's node.
proof fn lemma_point_path_reaches(
    ns: Seq<Node>,
    width: int,
    height: int,
    start: Point,
    goal: Point,
    q: Seq<Point>,
)
    requires
        nodes_laid_out(ns, width, height),
        grid_wired(ns, width, height),
        width * height <= usize::MAX,
        in_grid(width, height, start),
        in_grid(width, height, goal),
        point_path(width, height, start, goal, q),
    ensures
        reaches(
            ns,
            (start.y * width + start.x) as usize,
            (goal.y * width + goal.x) as usize,
            q.map_values(|pt: Point| (pt.y * width + pt.x) as usize),
        ),
{
    let qi = q.map_values(|pt: Point| (pt.y * width + pt.x) as usize);
    lemma_cell_in_bounds(width, height, goal.x as int, goal.y as int);
    lemma_cell_lookup(ns, width, height, goal.x as int, goal.y as int);
    assert forall|i: int| 0 <= i < qi.len() implies (#[trigger] qi[i]) < ns.len() by {
        lemma_cell_in_bounds(width, height, q[i].x as int, q[i].y as int);
    }
    assert forall|i: int| 0 <= i < qi.len() - 1 implies ns[(#[trigger] qi[i]) as int].neighbors@.contains(
        qi[i + 1],
    ) by {
        assert(diag_step(q[i], q[i + 1]));
        lemma_diag_step_edge(ns, width, height, q[i], q[i + 1]);
    }
    let last = q.len() - 1;
    lemma_cell_in_bounds(width, height, q[last].x as int, q[last].y as int);
    lemma_cell_lookup(ns, width, height, q[last].x as int, q[last].y as int);
    assert(ns[qi[last] as int].p == q[last]);
    assert(ns[(goal.y * width + goal.x) as usize as int].p == goal);
}

/// Finds a path between two cells of a wired grid. The cells come back in
/// start-to-goal order — the goal-to-start order of the reconstruction,
/// deliberately reversed here. `None` comes back exactly when no diagonal
/// walk connects the two cells.
pub fn find_path<F: Fn(Point, Point) -> usize>(grid: &Grid, start: Point, goal: Point, h: F) -> (r:
    Option<Vec<Point>>)
    requires
        grid.wf(),
        in_grid(grid.width as int, grid.height as int, start),
        in_grid(grid.width as int, grid.height as int, goal),
        forall|v: int|
            0 <= v < grid.nodes@.len() ==> call_requires(h, ((#[trigger] grid.nodes@[v]).p, goal)),
    ensures
        r matches Some(p) ==> point_path(grid.width as int, grid.height as int, start, goal, p@),
        start == goal ==> (r matches Some(p) && p@ == seq![start]),
        r is None ==> forall|q: Seq<Point>|
            !point_path(grid.width as int, grid.height as int, start, goal, q),
{
    let w = grid.width;
    let ht = grid.height;
    proof {
        lemma_cell_in_bounds(w as int, ht as int, start.x as int, start.y as int);
        lemma_cell_in_bounds(w as int, ht as int, goal.x as int, goal.y as int);
        lemma_cell_lookup(grid.nodes@, w as int, ht as int, start.x as int, start.y as int);
        lemma_cell_lookup(grid.nodes@, w as int, ht as int, goal.x as int, goal.y as int);
    }
    let sidx = start.y * w + start.x;
    let gidx = goal.y * w + goal.x;
    proof {
        assert forall|i: int, k: int|
            0 <= i < grid.nodes@.len() && 0 <= k < grid.nodes@[i].neighbors@.len() implies (
        #[trigger] grid.nodes@[i].neighbors@[k]) < grid.nodes@.len() by {
            assert(grid.nodes@[i].neighbors@.contains(grid.nodes@[i].neighbors@[k]));
            lemma_neighbor_edge(
                grid.nodes@,
                w as int,
                ht as int,
                i,
                grid.nodes@[i].neighbors@[k],
            );
        }
        assert(nodes_wf(grid.nodes@));
        assert(grid.nodes@[sidx as int].p == start);
        assert(grid.nodes@[gidx as int].p == goal);
    }
    let res = astar(&grid.nodes, sidx, gidx, h);
    match res {
        None => {
            proof {
                assert forall|q: Seq<Point>|
                    !point_path(w as int, ht as int, start, goal, q) by {
                    if point_path(w as int, ht as int, start, goal, q) {
                        lemma_point_path_reaches(
                            grid.nodes@,
                            w as int,
                            ht as int,
                            start,
                            goal,
                            q,
                        );
                        assert(false);
                    }
                }
            }
            None
        },
        Some(ipath) => {
            let ghost ip = ipath@;
            let mut pts: Vec<Point> = Vec::new();
            let mut i: usize = ipath.len();
            while i > 0
                invariant
                    i <= ip.len(),
                    ipath@ == ip,
                    goal_path(grid.nodes@, sidx, gidx, ip),
                    pts@.len() == ip.len() - i,
                    forall|k: int|
                        0 <= k < pts@.len() ==> (#[trigger] pts@[k]) == grid.nodes@[ip[ip.len() - 1
                            - k] as int].p,
                decreases i,
            {
                i = i - 1;
                pts.push(grid.nodes[ipath[i]].p);
            }
            proof {
                assert(pts@[0] == grid.nodes@[ip[ip.len() - 1] as int].p);
                assert(pts@[pts@.len() - 1] == grid.nodes@[ip[0] as int].p);
                assert forall|k: int| 0 <= k < pts@.len() implies in_grid(
                    w as int,
                    ht as int,
                    #[trigger] pts@[k],
                ) by {
                    assert(pts@[k] == grid.nodes@[ip[ip.len() - 1 - k] as int].p);
                }
                assert forall|k: int| 0 <= k < pts@.len() - 1 implies diag_step(
                    pts@[k],
                    #[trigger] pts@[k + 1],
                ) by {
                    let ll = ip.len() as int;
                    let a = ip[ll - 1 - k] as int;
                    let b = ip[ll - 2 - k];
                    assert(grid.nodes@[a].neighbors@.contains(b));
                    lemma_neighbor_edge(grid.nodes@, w as int, ht as int, a, b);
                }
                if start == goal {
                    assert(ip =~= seq![sidx]);
                    assert(pts@ =~= seq![start]);
                }
            }
            Some(pts)
        },
    }
}

} // verus!
