use vstd::prelude::*;
use vstd::set_lib::{lemma_int_range, lemma_len_subset, set_int_range};
use crate::graph::{DependencyGraph, edges_within, has_edge};

verus! {

/// Whether a path of one or more edges leads from `i` to `j` in `g` whose
/// intermediate nodes all lie below `k`.
pub open spec fn reach_via(g: Seq<Seq<usize>>, k: nat, i: int, j: int) -> bool
    decreases k,
{
    if k == 0 {
        has_edge(g, i, j)
    } else {
        reach_via(g, (k - 1) as nat, i, j) || (reach_via(g, (k - 1) as nat, i, k - 1)
            && reach_via(g, (k - 1) as nat, k - 1, j))
    }
}

/// Whether a path of one or more edges leads from `i` to `j` in `g`; the
/// same as `walk_between` (see `lemma_reaches_iff_walk`).
pub open spec fn reaches(g: Seq<Seq<usize>>, i: int, j: int) -> bool {
    reach_via(g, g.len() as nat, i, j)
}

/// `i` and `j` lie in one strongly connected component, each on a cycle.
pub open spec fn entangled(g: Seq<Seq<usize>>, i: int, j: int) -> bool {
    reaches(g, i, j) && reaches(g, j, i)
}

/// `i` lies on a cycle and no smaller node shares its component.
pub open spec fn leads_cycle(g: Seq<Seq<usize>>, i: int) -> bool {
    reaches(g, i, i) && forall|j: int| 0 <= j < i ==> !entangled(g, i, j)
}

/// The nodes below `k` that share a cyclic component with `i`, ascending.
pub open spec fn members_below(g: Seq<Seq<usize>>, i: int, k: int) -> Seq<usize>
    decreases k,
{
    if k <= 0 {
        seq![]
    } else {
        let r = members_below(g, i, k - 1);
        if entangled(g, i, k - 1) {
            r.push((k - 1) as usize)
        } else {
            r
        }
    }
}

/// One entry per cyclic component whose smallest node is below `k`: its
/// nodes, ascending; components in order of their smallest node.
pub open spec fn cycles_below(g: Seq<Seq<usize>>, k: int) -> Seq<Seq<usize>>
    decreases k,
{
    if k <= 0 {
        seq![]
    } else {
        let r = cycles_below(g, k - 1);
        if leads_cycle(g, k - 1) {
            r.push(members_below(g, k - 1, g.len() as int))
        } else {
            r
        }
    }
}

/// `w` is a walk of one or more edges of `g`.
pub open spec fn is_walk(g: Seq<Seq<usize>>, w: Seq<int>) -> bool {
    w.len() >= 2 && forall|x: int| 0 <= x < w.len() - 1 ==> #[trigger] has_edge(g, w[x], w[x + 1])
}

/// A walk of `g` leads from `i` to `j`.
pub open spec fn walk_between(g: Seq<Seq<usize>>, i: int, j: int) -> bool {
    exists|w: Seq<int>| is_walk(g, w) && w[0] == i && w.last() == j
}

proof fn lemma_join_walks(g: Seq<Seq<usize>>, a: Seq<int>, b: Seq<int>)
    requires
        is_walk(g, a),
        is_walk(g, b),
        a.last() == b[0],
    ensures
        is_walk(g, a + b.drop_first()),
        (a + b.drop_first())[0] == a[0],
        (a + b.drop_first()).last() == b.last(),
{
    let w = a + b.drop_first();
    assert forall|x: int| 0 <= x < w.len() - 1 implies #[trigger] has_edge(g, w[x], w[x + 1]) by {
        if x < a.len() - 1 {
            assert(has_edge(g, a[x], a[x + 1]));
        } else if x == a.len() - 1 {
            let z = 0int;
            assert(has_edge(g, b[z], b[z + 1]));
        } else {
            let y = x - a.len() + 1;
            assert(w[x] == b[y] && w[x + 1] == b[y + 1]);
            assert(has_edge(g, b[y], b[y + 1]));
        }
    }
}

proof fn lemma_reach_via_has_walk(g: Seq<Seq<usize>>, k: nat, i: int, j: int)
    requires
        reach_via(g, k, i, j),
    ensures
        walk_between(g, i, j),
    decreases k,
{
    if k == 0 {
        let w = seq![i, j];
        assert forall|x: int| 0 <= x < w.len() - 1 implies #[trigger] has_edge(g, w[x], w[x + 1]) by {
            assert(x == 0 && w[x] == i && w[x + 1] == j);
        }
        assert(is_walk(g, w) && w[0] == i && w.last() == j);
    } else if reach_via(g, (k - 1) as nat, i, j) {
        lemma_reach_via_has_walk(g, (k - 1) as nat, i, j);
    } else {
        lemma_reach_via_has_walk(g, (k - 1) as nat, i, k - 1);
        lemma_reach_via_has_walk(g, (k - 1) as nat, k - 1, j);
        let a = choose|w: Seq<int>| is_walk(g, w) && w[0] == i && w.last() == k - 1;
        let b = choose|w: Seq<int>| is_walk(g, w) && w[0] == k - 1 && w.last() == j;
        lemma_join_walks(g, a, b);
        let w = a + b.drop_first();
        assert(is_walk(g, w) && w[0] == i && w.last() == j);
    }
}

proof fn lemma_walk_reach_via(g: Seq<Seq<usize>>, w: Seq<int>, k: nat)
    requires
        is_walk(g, w),
        forall|x: int| 0 < x < w.len() - 1 ==> w[x] < k,
    ensures
        reach_via(g, k, w[0], w.last()),
    decreases k, w.len(),
{
    if k == 0 {
        let z = 0int;
        assert(has_edge(g, w[z], w[z + 1]));
        if w.len() > 2 {
            assert(w[z + 1] < 0);
        }
        assert(w.last() == w[z + 1]);
    } else if exists|x: int| 0 < x < w.len() - 1 && w[x] == k - 1 {
        let x = choose|x: int| 0 < x < w.len() - 1 && w[x] == k - 1;
        let a = w.subrange(0, x + 1);
        let b = w.subrange(x, w.len() as int);
        assert forall|y: int| 0 <= y < a.len() - 1 implies #[trigger] has_edge(g, a[y], a[y + 1]) by {
            assert(has_edge(g, w[y], w[y + 1]));
        }
        assert forall|y: int| 0 <= y < b.len() - 1 implies #[trigger] has_edge(g, b[y], b[y + 1]) by {
            assert(has_edge(g, w[x + y], w[x + y + 1]));
        }
        lemma_walk_reach_via(g, a, k);
        lemma_walk_reach_via(g, b, k);
        assert(reach_via(g, (k - 1) as nat, w[0], k - 1));
        assert(reach_via(g, (k - 1) as nat, k - 1, w.last()));
    } else {
        lemma_walk_reach_via(g, w, (k - 1) as nat);
    }
}

/// `reaches` is exactly the existence of a walk: a path of one or more edges
/// leads from `i` to `j`. In particular `reaches(g, i, i)` holds just when a
/// closed walk passes through `i`.
pub proof fn lemma_reaches_iff_walk(g: Seq<Seq<usize>>, i: int, j: int)
    requires
        edges_within(g),
    ensures
        reaches(g, i, j) <==> walk_between(g, i, j),
{
    if reaches(g, i, j) {
        lemma_reach_via_has_walk(g, g.len() as nat, i, j);
    }
    if walk_between(g, i, j) {
        let w = choose|w: Seq<int>| is_walk(g, w) && w[0] == i && w.last() == j;
        assert forall|x: int| 0 < x < w.len() - 1 implies w[x] < g.len() by {
            assert(has_edge(g, w[x], w[x + 1]));
        }
        lemma_walk_reach_via(g, w, g.len() as nat);
    }
}

proof fn lemma_edge_reaches_via(g: Seq<Seq<usize>>, k: nat, i: int, j: int)
    requires
        has_edge(g, i, j),
    ensures
        reach_via(g, k, i, j),
    decreases k,
{
    if k > 0 {
        lemma_edge_reaches_via(g, (k - 1) as nat, i, j);
    }
}

/// A node with an edge to itself lies on a cycle, so it leads or joins a
/// reported component.
pub proof fn lemma_self_loop_is_cyclic(g: Seq<Seq<usize>>, i: int)
    requires
        has_edge(g, i, i),
    ensures
        reaches(g, i, i),
        entangled(g, i, i),
{
    lemma_edge_reaches_via(g, g.len() as nat, i, i);
}

/// The cyclic components of `g`: every strongly connected component of two
/// or more nodes, and every single node with an edge to itself.
pub open spec fn cycles_of(g: Seq<Seq<usize>>) -> Seq<Seq<usize>> {
    cycles_below(g, g.len() as int)
}

proof fn lemma_members_below_bound(g: Seq<Seq<usize>>, i: int, k: int)
    requires
        k <= usize::MAX,
    ensures
        forall|x: int|
            0 <= x < members_below(g, i, k).len() ==> members_below(g, i, k)[x] < k,
    decreases k,
{
    if k > 0 {
        lemma_members_below_bound(g, i, k - 1);
        let r = members_below(g, i, k - 1);
        if entangled(g, i, k - 1) {
            let p = r.push((k - 1) as usize);
            assert forall|x: int| 0 <= x < p.len() implies p[x] < k by {
                if x < r.len() {
                    assert(p[x] == r[x]);
                }
            }
        }
    }
}

proof fn lemma_cycles_below_bound(g: Seq<Seq<usize>>, k: int)
    requires
        g.len() <= usize::MAX,
    ensures
        forall|c: int, x: int|
            0 <= c < cycles_below(g, k).len() && 0 <= x < cycles_below(g, k)[c].len()
                ==> cycles_below(g, k)[c][x] < g.len(),
    decreases k,
{
    if k > 0 {
        lemma_cycles_below_bound(g, k - 1);
        let r = cycles_below(g, k - 1);
        if leads_cycle(g, k - 1) {
            let m = members_below(g, k - 1, g.len() as int);
            lemma_members_below_bound(g, k - 1, g.len() as int);
            assert forall|c: int, x: int|
                0 <= c < r.push(m).len() && 0 <= x < r.push(m)[c].len() implies r.push(m)[c][x]
                < g.len() by {
                if c < r.len() {
                    assert(r.push(m)[c] == r[c]);
                }
            }
        }
    }
}

pub(crate) proof fn lemma_reaches_trans(g: Seq<Seq<usize>>, a: int, b: int, c: int)
    requires
        edges_within(g),
        reaches(g, a, b),
        reaches(g, b, c),
    ensures
        reaches(g, a, c),
{
    lemma_reaches_iff_walk(g, a, b);
    lemma_reaches_iff_walk(g, b, c);
    lemma_reaches_iff_walk(g, a, c);
    let x = choose|w: Seq<int>| is_walk(g, w) && w[0] == a && w.last() == b;
    let y = choose|w: Seq<int>| is_walk(g, w) && w[0] == b && w.last() == c;
    lemma_join_walks(g, x, y);
    let w = x + y.drop_first();
    assert(is_walk(g, w) && w[0] == a && w.last() == c);
}

pub(crate) proof fn lemma_members_below_contains(g: Seq<Seq<usize>>, l: int, k: int, x: int)
    requires
        0 <= x <= usize::MAX,
        k <= usize::MAX,
    ensures
        members_below(g, l, k).contains(x as usize) <==> (x < k && entangled(g, l, x)),
    decreases k,
{
    if k > 0 {
        lemma_members_below_contains(g, l, k - 1, x);
        let r = members_below(g, l, k - 1);
        if entangled(g, l, k - 1) {
            let p = r.push((k - 1) as usize);
            if r.contains(x as usize) {
                let w = choose|w: int| 0 <= w < r.len() && r[w] == x as usize;
                assert(p[w] == x as usize);
            }
            if x == k - 1 {
                assert(p[r.len() as int] == x as usize);
            }
            if p.contains(x as usize) {
                let w = choose|w: int| 0 <= w < p.len() && p[w] == x as usize;
                if w < r.len() {
                    assert(r[w] == x as usize);
                }
            }
        }
    }
}

proof fn lemma_cycles_below_contains(g: Seq<Seq<usize>>, k: int, x: int)
    requires
        0 <= x <= usize::MAX,
        g.len() <= usize::MAX,
    ensures
        (exists|c: int| 0 <= c < cycles_below(g, k).len() && cycles_below(g, k)[c].contains(x as usize))
            <==> (exists|l: int| 0 <= l < k && leads_cycle(g, l) && entangled(g, l, x) && x < g.len()),
    decreases k,
{
    if k > 0 {
        lemma_cycles_below_contains(g, k - 1, x);
        lemma_members_below_contains(g, k - 1, g.len() as int, x);
        let r = cycles_below(g, k - 1);
        let p = cycles_below(g, k);
        if exists|c: int| 0 <= c < p.len() && p[c].contains(x as usize) {
            let c = choose|c: int| 0 <= c < p.len() && p[c].contains(x as usize);
            if c < r.len() {
                assert(p[c] == r[c]);
                assert(r[c].contains(x as usize));
                let l = choose|l: int|
                    0 <= l < k - 1 && leads_cycle(g, l) && entangled(g, l, x) && x < g.len();
                assert(0 <= l < k && leads_cycle(g, l) && entangled(g, l, x) && x < g.len());
            } else {
                assert(leads_cycle(g, k - 1));
                assert(p == r.push(members_below(g, k - 1, g.len() as int)));
                assert(p[c] == members_below(g, k - 1, g.len() as int));
                assert(0 <= k - 1 < k && leads_cycle(g, k - 1) && entangled(g, k - 1, x) && x
                    < g.len());
            }
        }
        if exists|l: int| 0 <= l < k && leads_cycle(g, l) && entangled(g, l, x) && x < g.len() {
            let l = choose|l: int|
                0 <= l < k && leads_cycle(g, l) && entangled(g, l, x) && x < g.len();
            if l < k - 1 {
                assert(0 <= l < k - 1 && leads_cycle(g, l) && entangled(g, l, x) && x < g.len());
                let c = choose|c: int| 0 <= c < r.len() && r[c].contains(x as usize);
                if leads_cycle(g, k - 1) {
                    assert(p == r.push(members_below(g, k - 1, g.len() as int)));
                    assert(p[c] == r[c]);
                } else {
                    assert(p == r);
                }
                assert(0 <= c < p.len() && p[c].contains(x as usize));
            } else {
                let m = members_below(g, k - 1, g.len() as int);
                assert(p == r.push(m));
                assert(p[r.len() as int] == m);
                assert(m.contains(x as usize));
                assert(0 <= r.len() < p.len() && p[r.len() as int].contains(x as usize));
            }
        }
    }
}

proof fn lemma_least_entangled(g: Seq<Seq<usize>>, i: int, k: int)
    requires
        0 <= k,
        entangled(g, i, k),
    ensures
        exists|l: int|
            0 <= l <= k && entangled(g, i, l) && forall|j: int| 0 <= j < l ==> !entangled(g, i, j),
    decreases k,
{
    if exists|j: int| 0 <= j < k && entangled(g, i, j) {
        let j = choose|j: int| 0 <= j < k && entangled(g, i, j);
        lemma_least_entangled(g, i, j);
    }
}

/// Cycle detection is complete and sound: a node of `g` appears in a
/// reported component exactly when a closed walk passes through it.
pub proof fn lemma_cycle_reported_iff_closed_walk(g: Seq<Seq<usize>>, i: int)
    requires
        edges_within(g),
        g.len() <= usize::MAX,
        0 <= i < g.len(),
    ensures
        (exists|c: int| 0 <= c < cycles_of(g).len() && cycles_of(g)[c].contains(i as usize))
            <==> walk_between(g, i, i),
{
    let n = g.len() as int;
    lemma_cycles_below_contains(g, n, i);
    lemma_reaches_iff_walk(g, i, i);
    if exists|c: int| 0 <= c < cycles_of(g).len() && cycles_of(g)[c].contains(i as usize) {
        let l = choose|l: int| 0 <= l < n && leads_cycle(g, l) && entangled(g, l, i) && i < n;
        lemma_reaches_trans(g, i, l, i);
    }
    if walk_between(g, i, i) {
        lemma_least_entangled(g, i, i);
        let l = choose|l: int|
            0 <= l <= i && entangled(g, i, l) && forall|j: int| 0 <= j < l ==> !entangled(g, i, j);
        lemma_reaches_trans(g, l, i, l);
        assert forall|j: int| 0 <= j < l implies !entangled(g, l, j) by {
            if entangled(g, l, j) {
                lemma_reaches_trans(g, i, l, j);
                lemma_reaches_trans(g, j, l, i);
                assert(entangled(g, i, j));
            }
        }
        assert(0 <= l < n && leads_cycle(g, l) && entangled(g, l, i) && i < n);
        let c = choose|c: int|
            0 <= c < cycles_below(g, n).len() && cycles_below(g, n)[c].contains(i as usize);
        assert(cycles_of(g) == cycles_below(g, n));
        assert(0 <= c < cycles_of(g).len() && cycles_of(g)[c].contains(i as usize));
    }
}

/// Each cyclic component is the member list of its leader.
pub proof fn lemma_cycles_below_leader(g: Seq<Seq<usize>>, k: int, c: int)
    requires
        0 <= c < cycles_below(g, k).len(),
    ensures
        exists|l: int| 0 <= l < k && leads_cycle(g, l) && cycles_below(g, k)[c] == members_below(g, l, g.len() as int),
    decreases k,
{
    if k > 0 {
        let r = cycles_below(g, k - 1);
        if c < r.len() {
            lemma_cycles_below_leader(g, k - 1, c);
            if leads_cycle(g, k - 1) {
                assert(cycles_below(g, k)[c] == r[c]);
            }
        } else {
            assert(leads_cycle(g, k - 1));
        }
    }
}

/// Every node named by a cyclic component is a node of the graph.
pub proof fn lemma_cycle_members_within(g: Seq<Seq<usize>>)
    requires
        g.len() <= usize::MAX,
    ensures
        forall|c: int, x: int|
            0 <= c < cycles_of(g).len() && 0 <= x < cycles_of(g)[c].len() ==> cycles_of(g)[c][x]
                < g.len(),
{
    lemma_cycles_below_bound(g, g.len() as int);
}

/// The longest path of at most one step more than `prev` measures, from `i`,
/// over the first `k` edges of `i` that leave its component.
pub open spec fn best_step(g: Seq<Seq<usize>>, prev: Seq<nat>, i: int, k: int) -> nat
    decreases k,
{
    if k <= 0 {
        0
    } else {
        let b = best_step(g, prev, i, k - 1);
        let j = g[i][k - 1] as int;
        if !reaches(g, j, i) && prev[j] + 1 > b {
            prev[j] + 1
        } else {
            b
        }
    }
}

/// The best of `s` over the first `k` nodes of the component of `i`.
pub open spec fn component_best(g: Seq<Seq<usize>>, s: Seq<nat>, i: int, k: int) -> nat
    decreases k,
{
    if k <= 0 {
        0
    } else {
        let b = component_best(g, s, i, k - 1);
        let x = k - 1;
        if (x == i || entangled(g, i, x)) && s[x] > b {
            s[x]
        } else {
            b
        }
    }
}

/// For each node, the number of edges on the longest path of at most `t`
/// steps in the condensed graph (each component one node) that starts at the
/// node's component.
pub open spec fn depth_round(g: Seq<Seq<usize>>, t: nat) -> Seq<nat>
    decreases t,
{
    if t == 0 {
        Seq::new(g.len(), |i: int| 0nat)
    } else {
        let prev = depth_round(g, (t - 1) as nat);
        let steps = Seq::new(g.len(), |x: int| best_step(g, prev, x, g[x].len() as int));
        Seq::new(g.len(), |i: int| component_best(g, steps, i, g.len() as int))
    }
}

/// The largest of the first `k` values of `s`, or 0.
pub open spec fn seq_max(s: Seq<nat>, k: int) -> nat
    decreases k,
{
    if k <= 0 {
        0
    } else if s[k - 1] > seq_max(s, k - 1) {
        s[k - 1]
    } else {
        seq_max(s, k - 1)
    }
}

/// Length of the longest path of the condensed graph. It has at most as many
/// nodes as `g`, and no cycle, so no path of it is longer than `g.len()`.
pub open spec fn max_depth(g: Seq<Seq<usize>>) -> nat {
    seq_max(depth_round(g, g.len() as nat), g.len() as int)
}

/// An edge from a node of the component of `a` to `b` in another component:
/// one step of the condensed graph.
pub open spec fn condensed_step(g: Seq<Seq<usize>>, a: int, b: int) -> bool {
    exists|x: int| (x == a || entangled(g, a, x)) && #[trigger] has_edge(g, x, b) && !reaches(g, b, x)
}

/// `p` is a path of the condensed graph, given by one node of each
/// component it visits.
pub open spec fn is_condensed_path(g: Seq<Seq<usize>>, p: Seq<int>) -> bool {
    &&& p.len() >= 1
    &&& forall|k: int| 0 <= k < p.len() ==> 0 <= #[trigger] p[k] < g.len()
    &&& forall|k: int| 0 <= k < p.len() - 1 ==> #[trigger] condensed_step(g, p[k], p[k + 1])
}

proof fn lemma_best_step_witness(g: Seq<Seq<usize>>, prev: Seq<nat>, i: int, k: int)
    requires
        best_step(g, prev, i, k) > 0,
    ensures
        exists|kk: int|
            0 <= kk < k && !reaches(g, g[i][kk] as int, i) && prev[g[i][kk] as int] + 1 == best_step(
                g,
                prev,
                i,
                k,
            ),
    decreases k,
{
    if k > 0 && best_step(g, prev, i, k) == best_step(g, prev, i, k - 1) {
        lemma_best_step_witness(g, prev, i, k - 1);
        let kk = choose|kk: int|
            0 <= kk < k - 1 && !reaches(g, g[i][kk] as int, i) && prev[g[i][kk] as int] + 1
                == best_step(g, prev, i, k - 1);
        assert(0 <= kk < k);
    }
}

proof fn lemma_component_best_witness(g: Seq<Seq<usize>>, s: Seq<nat>, i: int, k: int)
    requires
        component_best(g, s, i, k) > 0,
    ensures
        exists|x: int| 0 <= x < k && (x == i || entangled(g, i, x)) && s[x] == component_best(g, s, i, k),
    decreases k,
{
    if k > 0 && component_best(g, s, i, k) == component_best(g, s, i, k - 1) {
        lemma_component_best_witness(g, s, i, k - 1);
        let x = choose|x: int|
            0 <= x < k - 1 && (x == i || entangled(g, i, x)) && s[x] == component_best(g, s, i, k - 1);
        assert(0 <= x < k);
    }
}

proof fn lemma_depth_round_path(g: Seq<Seq<usize>>, t: nat, i: int)
    requires
        edges_within(g),
        0 <= i < g.len(),
    ensures
        exists|p: Seq<int>|
            is_condensed_path(g, p) && p[0] == i && p.len() == depth_round(g, t)[i] + 1,
    decreases t,
{
    let d = depth_round(g, t)[i];
    if d == 0 {
        let p = seq![i];
        assert(is_condensed_path(g, p) && p[0] == i && p.len() == d + 1);
    } else {
        let prev = depth_round(g, (t - 1) as nat);
        let steps = Seq::new(g.len(), |x: int| best_step(g, prev, x, g[x].len() as int));
        assert(d == component_best(g, steps, i, g.len() as int));
        lemma_component_best_witness(g, steps, i, g.len() as int);
        let x = choose|x: int|
            0 <= x < g.len() && (x == i || entangled(g, i, x)) && steps[x] == component_best(
                g,
                steps,
                i,
                g.len() as int,
            );
        lemma_best_step_witness(g, prev, x, g[x].len() as int);
        let kk = choose|kk: int|
            0 <= kk < g[x].len() && !reaches(g, g[x][kk] as int, x) && prev[g[x][kk] as int] + 1
                == best_step(g, prev, x, g[x].len() as int);
        let j = g[x][kk] as int;
        assert(j < g.len());
        assert(g[x].contains(j as usize));
        assert(has_edge(g, x, j));
        assert(condensed_step(g, i, j));
        lemma_depth_round_path(g, (t - 1) as nat, j);
        let q = choose|q: Seq<int>|
            is_condensed_path(g, q) && q[0] == j && q.len() == depth_round(g, (t - 1) as nat)[j] + 1;
        let p = seq![i] + q;
        assert forall|k: int| 0 <= k < p.len() implies 0 <= #[trigger] p[k] < g.len() by {
            if k > 0 {
                assert(p[k] == q[k - 1]);
            }
        }
        assert forall|k: int| 0 <= k < p.len() - 1 implies #[trigger] condensed_step(g, p[k], p[k + 1]) by {
            if k > 0 {
                let k2 = k - 1;
                assert(condensed_step(g, q[k2], q[k2 + 1]));
                assert(p[k] == q[k2] && p[k + 1] == q[k2 + 1]);
            } else {
                assert(p[0] == i && p[1] == j);
            }
        }
        assert(is_condensed_path(g, p) && p[0] == i && p.len() == d + 1);
    }
}

proof fn lemma_seq_max_witness(s: Seq<nat>, k: int)
    requires
        seq_max(s, k) > 0,
    ensures
        exists|i: int| 0 <= i < k && s[i] == seq_max(s, k),
    decreases k,
{
    if k > 0 && !(s[k - 1] > seq_max(s, k - 1)) {
        lemma_seq_max_witness(s, k - 1);
    }
}

/// The depth metric is attained: when it is positive, the condensed graph
/// has a path of exactly `max_depth(g)` steps.
pub proof fn lemma_max_depth_attained(g: Seq<Seq<usize>>)
    requires
        edges_within(g),
        max_depth(g) > 0,
    ensures
        exists|p: Seq<int>| is_condensed_path(g, p) && p.len() == max_depth(g) + 1,
{
    let t = depth_round(g, g.len() as nat);
    lemma_seq_max_witness(t, g.len() as int);
    let i = choose|i: int| 0 <= i < g.len() as int && t[i] == seq_max(t, g.len() as int);
    lemma_depth_round_path(g, g.len() as nat, i);
}

proof fn lemma_best_step_ge(g: Seq<Seq<usize>>, prev: Seq<nat>, i: int, k: int, kk: int)
    requires
        0 <= kk < k,
        !reaches(g, g[i][kk] as int, i),
    ensures
        best_step(g, prev, i, k) >= prev[g[i][kk] as int] + 1,
    decreases k,
{
    if kk < k - 1 {
        lemma_best_step_ge(g, prev, i, k - 1, kk);
    }
}

proof fn lemma_component_best_ge(g: Seq<Seq<usize>>, s: Seq<nat>, i: int, k: int, x: int)
    requires
        0 <= x < k,
        x == i || entangled(g, i, x),
    ensures
        component_best(g, s, i, k) >= s[x],
    decreases k,
{
    if x < k - 1 {
        lemma_component_best_ge(g, s, i, k - 1, x);
    }
}

proof fn lemma_seq_max_ge(s: Seq<nat>, k: int, i: int)
    requires
        0 <= i < k,
    ensures
        seq_max(s, k) >= s[i],
    decreases k,
{
    if i < k - 1 {
        lemma_seq_max_ge(s, k - 1, i);
    }
}

proof fn lemma_depth_round_bounds_paths(g: Seq<Seq<usize>>, t: nat, p: Seq<int>)
    requires
        edges_within(g),
        g.len() <= usize::MAX,
        is_condensed_path(g, p),
        p.len() - 1 <= t,
    ensures
        depth_round(g, t)[p[0]] >= p.len() - 1,
    decreases t,
{
    if p.len() > 1 {
        let i = p[0];
        let j = p[1];
        let z = 0int;
        assert(condensed_step(g, p[z], p[z + 1]));
        let x = choose|x: int| (x == i || entangled(g, i, x)) && #[trigger] has_edge(g, x, j) && !reaches(g, j, x);
        assert(0 <= j < g.len());
        let kk = choose|kk: int| 0 <= kk < g[x].len() && g[x][kk] == j as usize;
        assert(g[x][kk] as int == j);
        assert(0 <= x < g.len());
        let q = p.drop_first();
        assert forall|k: int| 0 <= k < q.len() implies 0 <= #[trigger] q[k] < g.len() by {
            assert(q[k] == p[k + 1]);
        }
        assert forall|k: int| 0 <= k < q.len() - 1 implies #[trigger] condensed_step(g, q[k], q[k + 1]) by {
            let k2 = k + 1;
            assert(condensed_step(g, p[k2], p[k2 + 1]));
            assert(q[k] == p[k2] && q[k + 1] == p[k2 + 1]);
        }
        lemma_depth_round_bounds_paths(g, (t - 1) as nat, q);
        let prev = depth_round(g, (t - 1) as nat);
        let steps = Seq::new(g.len(), |y: int| best_step(g, prev, y, g[y].len() as int));
        lemma_best_step_ge(g, prev, x, g[x].len() as int, kk);
        lemma_component_best_ge(g, steps, i, g.len() as int, x);
        assert(depth_round(g, t)[i] == component_best(g, steps, i, g.len() as int));
    }
}

proof fn lemma_max_depth_bounds_paths(g: Seq<Seq<usize>>, p: Seq<int>)
    requires
        edges_within(g),
        g.len() <= usize::MAX,
        is_condensed_path(g, p),
        p.len() - 1 <= g.len(),
    ensures
        p.len() - 1 <= max_depth(g),
{
    lemma_depth_round_bounds_paths(g, g.len() as nat, p);
    let z = 0int;
    assert(0 <= p[z] < g.len());
    lemma_seq_max_ge(depth_round(g, g.len() as nat), g.len() as int, p[0]);
}

proof fn lemma_path_reaches(g: Seq<Seq<usize>>, p: Seq<int>, a: int, b: int)
    requires
        edges_within(g),
        is_condensed_path(g, p),
        0 <= a < b < p.len(),
    ensures
        reaches(g, p[a], p[b]),
    decreases b,
{
    let c = b - 1;
    assert(condensed_step(g, p[c], p[c + 1]));
    let x = choose|x: int| (x == p[c] || entangled(g, p[c], x)) && #[trigger] has_edge(g, x, p[c + 1]) && !reaches(g, p[c + 1], x);
    lemma_edge_reaches_via(g, g.len() as nat, x, p[b]);
    if x != p[c] {
        lemma_reaches_trans(g, p[c], x, p[b]);
    }
    if a < c {
        lemma_path_reaches(g, p, a, c);
        lemma_reaches_trans(g, p[a], p[c], p[b]);
    }
}

proof fn lemma_path_distinct(g: Seq<Seq<usize>>, p: Seq<int>)
    requires
        edges_within(g),
        is_condensed_path(g, p),
    ensures
        p.no_duplicates(),
{
    assert forall|a: int, b: int| 0 <= a < p.len() && 0 <= b < p.len() && a != b implies p[a] != p[b] by {
        let lo = if a < b { a } else { b };
        let hi = if a < b { b } else { a };
        if p[lo] == p[hi] {
            assert(condensed_step(g, p[lo], p[lo + 1]));
            let x = choose|x: int| (x == p[lo] || entangled(g, p[lo], x)) && #[trigger] has_edge(g, x, p[lo + 1]) && !reaches(g, p[lo + 1], x);
            lemma_edge_reaches_via(g, g.len() as nat, x, p[lo + 1]);
            if lo + 1 < hi {
                lemma_path_reaches(g, p, lo + 1, hi);
                if x != p[lo] {
                    lemma_reaches_trans(g, p[lo + 1], p[lo], x);
                }
            }
        }
    }
}

/// A path of the condensed graph visits each node at most once, so it has
/// fewer steps than `g` has nodes.
pub proof fn lemma_condensed_path_short(g: Seq<Seq<usize>>, p: Seq<int>)
    requires
        edges_within(g),
        is_condensed_path(g, p),
    ensures
        p.len() <= g.len(),
{
    lemma_path_distinct(g, p);
    p.unique_seq_to_set();
    lemma_int_range(0, g.len() as int);
    assert(p.to_set().subset_of(set_int_range(0, g.len() as int))) by {
        assert forall|v: int| p.to_set().contains(v) implies set_int_range(0, g.len() as int).contains(v) by {
            let k = choose|k: int| 0 <= k < p.len() && p[k] == v;
        }
    }
    lemma_len_subset(p.to_set(), set_int_range(0, g.len() as int));
}

/// The depth metric is the length of the longest path of the condensed
/// graph: no such path has more steps.
pub proof fn lemma_max_depth_is_longest(g: Seq<Seq<usize>>, p: Seq<int>)
    requires
        edges_within(g),
        g.len() <= usize::MAX,
        is_condensed_path(g, p),
    ensures
        p.len() - 1 <= max_depth(g),
{
    lemma_condensed_path_short(g, p);
    lemma_max_depth_bounds_paths(g, p);
}

/// Row `a` of a matrix holds `reach_via(g, k, a, _)`.
spec fn row_ok(row: Seq<bool>, g: Seq<Seq<usize>>, k: nat, a: int) -> bool {
    row.len() == g.len() && forall|b: int| 0 <= b < g.len() ==> row[b] == reach_via(g, k, a, b)
}

/// The first `upto` rows of a matrix hold `reach_via(g, k, _, _)`.
spec fn rows_ok(m: Seq<Vec<bool>>, g: Seq<Seq<usize>>, k: nat, upto: int) -> bool {
    forall|a: int| 0 <= a < upto ==> #[trigger] row_ok(m[a]@, g, k, a)
}

/// The reachability matrix: `m[i][j]` holds when a path leads from `i` to `j`.
pub struct Reachability {
    matrix: Vec<Vec<bool>>,
    graph: Ghost<Seq<Seq<usize>>>,
}

impl Reachability {
    /// The graph whose reachability this is.
    pub closed spec fn graph(&self) -> Seq<Seq<usize>> {
        self.graph@
    }

    /// The matrix is exactly reachability in `graph()`.
    pub closed spec fn wf(&self) -> bool {
        self.matrix@.len() == self.graph@.len() && rows_ok(
            self.matrix@,
            self.graph@,
            self.graph@.len() as nat,
            self.graph@.len() as int,
        )
    }

    /// Computes reachability of every pair of nodes.
    pub fn of_graph(graph: &DependencyGraph) -> (r: Self)
        requires
            edges_within(graph@),
        ensures
            r.wf(),
            r.graph() == graph@,
    {
        let n = graph.node_count();
        let ghost g = graph@;
        let mut m: Vec<Vec<bool>> = Vec::new();
        let mut i: usize = 0;
        while i < n
            invariant
                n == g.len(),
                g == graph@,
                edges_within(g),
                i <= n,
                m@.len() == i,
                rows_ok(m@, g, 0, i as int),
            decreases n - i,
        {
            let row_src = graph.successors(i);
            let mut row: Vec<bool> = Vec::new();
            let mut b: usize = 0;
            while b < n
                invariant
                    b <= n,
                    row@.len() == b,
                    forall|c: int| 0 <= c < b ==> !row@[c],
                decreases n - b,
            {
                row.push(false);
                b = b + 1;
            }
            let mut p: usize = 0;
            while p < row_src.len()
                invariant
                    n == g.len(),
                    i < n,
                    edges_within(g),
                    row_src@ == g[i as int],
                    p <= row_src@.len(),
                    row@.len() == n,
                    forall|c: int|
                        0 <= c < n ==> row@[c] == row_src@.take(p as int).contains(c as usize),
                decreases row_src@.len() - p,
            {
                let t = row_src[p];
                let ghost before = row@;
                let ghost pre = row_src@.take(p as int);
                assert(row_src@.take(p + 1) =~= pre.push(t));
                row.set(t, true);
                assert forall|c: int| 0 <= c < n implies row@[c] == pre.push(t).contains(
                    c as usize,
                ) by {
                    if c == t as int {
                        assert(pre.push(t)[p as int] == t);
                    } else {
                        assert(row@[c] == before[c]);
                        if pre.contains(c as usize) {
                            let w = choose|w: int| 0 <= w < pre.len() && pre[w] == c as usize;
                            assert(pre.push(t)[w] == c as usize);
                        }
                        if pre.push(t).contains(c as usize) {
                            let w = choose|w: int|
                                0 <= w < pre.push(t).len() && pre.push(t)[w] == c as usize;
                            assert(pre[w] == c as usize);
                        }
                    }
                }
                p = p + 1;
            }
            assert(row_src@.take(p as int) =~= row_src@);
            assert(row_ok(row@, g, 0, i as int));
            let ghost old_m = m@;
            m.push(row);
            assert forall|a: int| 0 <= a < i + 1 implies #[trigger] row_ok(m@[a]@, g, 0, a) by {
                if a < i {
                    assert(m@[a] == old_m[a]);
                }
            }
            i = i + 1;
        }
        let mut k: usize = 0;
        while k < n
            invariant
                n == g.len(),
                k <= n,
                m@.len() == n,
                rows_ok(m@, g, k as nat, n as int),
            decreases n - k,
        {
            let mut next: Vec<Vec<bool>> = Vec::new();
            let mut a: usize = 0;
            assert(row_ok(m@[k as int]@, g, k as nat, k as int));
            while a < n
                invariant
                    n == g.len(),
                    k < n,
                    a <= n,
                    m@.len() == n,
                    rows_ok(m@, g, k as nat, n as int),
                    next@.len() == a,
                    rows_ok(next@, g, (k + 1) as nat, a as int),
                decreases n - a,
            {
                let mut row: Vec<bool> = Vec::new();
                assert(row_ok(m@[a as int]@, g, k as nat, a as int));
                assert(row_ok(m@[k as int]@, g, k as nat, k as int));
                let through = m[a][k];
                let mut b: usize = 0;
                while b < n
                    invariant
                        n == g.len(),
                        k < n,
                        a < n,
                        b <= n,
                        m@.len() == n,
                        row_ok(m@[a as int]@, g, k as nat, a as int),
                        row_ok(m@[k as int]@, g, k as nat, k as int),
                        through == reach_via(g, k as nat, a as int, k as int),
                        row@.len() == b,
                        forall|c: int|
                            0 <= c < b ==> row@[c] == reach_via(g, (k + 1) as nat, a as int, c),
                    decreases n - b,
                {
                    row.push(m[a][b] || (through && m[k][b]));
                    b = b + 1;
                }
                assert(row_ok(row@, g, (k + 1) as nat, a as int));
                let ghost old_next = next@;
                next.push(row);
                assert forall|x: int| 0 <= x < a + 1 implies #[trigger] row_ok(
                    next@[x]@,
                    g,
                    (k + 1) as nat,
                    x,
                ) by {
                    if x < a {
                        assert(next@[x] == old_next[x]);
                    }
                }
                a = a + 1;
            }
            m = next;
            k = k + 1;
        }
        let r = Reachability { matrix: m, graph: Ghost(g) };
        assert forall|x: int| 0 <= x < g.len() implies #[trigger] row_ok(r.matrix@[x]@, g, g.len() as nat, x) by {
            assert(row_ok(m@[x]@, g, k as nat, x));
        }
        r
    }

    /// Number of nodes of the graph.
    pub fn node_count(&self) -> (r: usize)
        requires
            self.wf(),
        ensures
            r == self.graph().len(),
    {
        self.matrix.len()
    }

    /// Whether a path of one or more edges leads from `i` to `j`.
    pub fn reaches(&self, i: usize, j: usize) -> (r: bool)
        requires
            self.wf(),
            i < self.graph().len(),
            j < self.graph().len(),
        ensures
            r == reaches(self.graph(), i as int, j as int),
    {
        assert(row_ok(self.matrix@[i as int]@, self.graph@, self.graph@.len() as nat, i as int));
        self.matrix[i][j]
    }
}

/// Whether the first `k` nodes hold one that shares a component with `i`.
fn entangled_below(reach: &Reachability, i: usize, k: usize) -> (r: bool)
    requires
        reach.wf(),
        i < reach.graph().len(),
        k <= reach.graph().len(),
    ensures
        r == exists|j: int| 0 <= j < k && entangled(reach.graph(), i as int, j),
{
    let mut j: usize = 0;
    while j < k
        invariant
            reach.wf(),
            i < reach.graph().len(),
            k <= reach.graph().len(),
            j <= k,
            forall|x: int| 0 <= x < j ==> !entangled(reach.graph(), i as int, x),
        decreases k - j,
    {
        if reach.reaches(i, j) && reach.reaches(j, i) {
            assert(entangled(reach.graph(), i as int, j as int));
            return true;
        }
        j = j + 1;
    }
    false
}

/// The nodes of the component of `i`, ascending.
fn component_of(reach: &Reachability, i: usize) -> (r: Vec<usize>)
    requires
        reach.wf(),
        i < reach.graph().len(),
    ensures
        r@ == members_below(reach.graph(), i as int, reach.graph().len() as int),
{
    let n = reach.node_count();
    let mut out: Vec<usize> = Vec::new();
    let mut j: usize = 0;
    while j < n
        invariant
            reach.wf(),
            n == reach.graph().len(),
            i < n,
            j <= n,
            out@ == members_below(reach.graph(), i as int, j as int),
        decreases n - j,
    {
        if reach.reaches(i, j) && reach.reaches(j, i) {
            out.push(j);
        }
        j = j + 1;
    }
    out
}

/// Finds the cyclic components, the strongly connected components whose
/// nodes lie on a closed walk, each as its nodes ascending, in order of their
/// smallest node.
pub fn find_cycles(reach: &Reachability) -> (r: Vec<Vec<usize>>)
    requires
        reach.wf(),
    ensures
        r@.map_values(|c: Vec<usize>| c@) == cycles_of(reach.graph()),
{
    let n = reach.node_count();
    let mut out: Vec<Vec<usize>> = Vec::new();
    let mut i: usize = 0;
    while i < n
        invariant
            reach.wf(),
            n == reach.graph().len(),
            i <= n,
            out@.map_values(|c: Vec<usize>| c@) == cycles_below(reach.graph(), i as int),
        decreases n - i,
    {
        if reach.reaches(i, i) && !entangled_below(reach, i, i) {
            let c = component_of(reach, i);
            let ghost before = out@.map_values(|c: Vec<usize>| c@);
            out.push(c);
            assert(out@.map_values(|c: Vec<usize>| c@) =~= before.push(c@));
        }
        i = i + 1;
    }
    out
}

/// Computes the length of the longest path of the condensed graph, where
/// each strongly connected component counts as one node.
pub fn max_dependency_depth(reach: &Reachability, graph: &DependencyGraph) -> (r: usize)
    requires
        reach.wf(),
        reach.graph() == graph@,
        edges_within(graph@),
    ensures
        r == max_depth(graph@),
{
    let n = graph.node_count();
    let ghost g = graph@;
    let mut d: Vec<usize> = Vec::new();
    let mut i: usize = 0;
    while i < n
        invariant
            n == g.len(),
            i <= n,
            d@.len() == i,
            forall|x: int| 0 <= x < i ==> d@[x] == 0,
        decreases n - i,
    {
        d.push(0);
        i = i + 1;
    }
    let mut t: usize = 0;
    while t < n
        invariant
            reach.wf(),
            reach.graph() == g,
            g == graph@,
            edges_within(g),
            n == g.len(),
            t <= n,
            d@.len() == n,
            forall|x: int| 0 <= x < n ==> d@[x] as nat == #[trigger] depth_round(g, t as nat)[x],
            forall|x: int| 0 <= x < n ==> d@[x] <= t,
        decreases n - t,
    {
        let ghost prev = depth_round(g, t as nat);
        let mut steps: Vec<usize> = Vec::new();
        let mut a: usize = 0;
        while a < n
            invariant
                reach.wf(),
                reach.graph() == g,
                g == graph@,
                edges_within(g),
                n == g.len(),
                t < n,
                a <= n,
                d@.len() == n,
                prev == depth_round(g, t as nat),
                forall|x: int| 0 <= x < n ==> d@[x] as nat == prev[x],
                forall|x: int| 0 <= x < n ==> d@[x] <= t,
                steps@.len() == a,
                forall|x: int|
                    0 <= x < a ==> steps@[x] as nat == best_step(g, prev, x, g[x].len() as int),
                forall|x: int| 0 <= x < a ==> steps@[x] <= t + 1,
            decreases n - a,
        {
            let row = graph.successors(a);
            let mut best: usize = 0;
            let mut k: usize = 0;
            while k < row.len()
                invariant
                    reach.wf(),
                    reach.graph() == g,
                    edges_within(g),
                    n == g.len(),
                    t < n,
                    a < n,
                    row@ == g[a as int],
                    k <= row@.len(),
                    d@.len() == n,
                    forall|x: int| 0 <= x < n ==> d@[x] as nat == prev[x],
                    forall|x: int| 0 <= x < n ==> d@[x] <= t,
                    best as nat == best_step(g, prev, a as int, k as int),
                    best <= t + 1,
                decreases row@.len() - k,
            {
                let j = row[k];
                if !reach.reaches(j, a) && d[j] + 1 > best {
                    best = d[j] + 1;
                }
                k = k + 1;
            }
            steps.push(best);
            a = a + 1;
        }
        let ghost step_seq = Seq::new(g.len(), |x: int| best_step(g, prev, x, g[x].len() as int));
        assert(forall|x: int| 0 <= x < n ==> steps@[x] as nat == step_seq[x]);
        let mut next: Vec<usize> = Vec::new();
        let mut i: usize = 0;
        while i < n
            invariant
                reach.wf(),
                reach.graph() == g,
                n == g.len(),
                t < n,
                i <= n,
                steps@.len() == n,
                forall|x: int| 0 <= x < n ==> steps@[x] as nat == step_seq[x],
                forall|x: int| 0 <= x < n ==> steps@[x] <= t + 1,
                next@.len() == i,
                forall|x: int| 0 <= x < i ==> next@[x] as nat == component_best(g, step_seq, x, n as int),
                forall|x: int| 0 <= x < i ==> next@[x] <= t + 1,
            decreases n - i,
        {
            let mut best: usize = 0;
            let mut x: usize = 0;
            while x < n
                invariant
                    reach.wf(),
                    reach.graph() == g,
                    n == g.len(),
                    t < n,
                    i < n,
                    x <= n,
                    steps@.len() == n,
                    forall|y: int| 0 <= y < n ==> steps@[y] as nat == step_seq[y],
                    forall|y: int| 0 <= y < n ==> steps@[y] <= t + 1,
                    best as nat == component_best(g, step_seq, i as int, x as int),
                    best <= t + 1,
                decreases n - x,
            {
                if (x == i || (reach.reaches(i, x) && reach.reaches(x, i))) && steps[x] > best {
                    best = steps[x];
                }
                x = x + 1;
            }
            next.push(best);
            i = i + 1;
        }
        d = next;
        t = t + 1;
        assert forall|x: int| 0 <= x < n implies d@[x] as nat == #[trigger] depth_round(g, t as nat)[x] by {
        }
    }
    let mut best: usize = 0;
    let mut x: usize = 0;
    while x < n
        invariant
            n == g.len(),
            x <= n,
            d@.len() == n,
            forall|y: int| 0 <= y < n ==> d@[y] as nat == #[trigger] depth_round(g, n as nat)[y],
            best as nat == seq_max(depth_round(g, n as nat), x as int),
        decreases n - x,
    {
        if d[x] > best {
            best = d[x];
        }
        x = x + 1;
    }
    best
}

} // verus!
