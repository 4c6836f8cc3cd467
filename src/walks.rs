use vstd::prelude::*;
use vstd::arithmetic::div_mod::lemma_small_mod;
use vstd::set_lib::{lemma_int_range, lemma_len_subset, set_int_range};
use crate::graph::{DependencyGraph, edges_within, has_edge};
use crate::structure::{entangled, is_walk, lemma_reaches_iff_walk, walk_between};

verus! {

/// An edge of `g` between two different nodes of it.
pub open spec fn step_edge(g: Seq<Seq<usize>>, v: int, u: int) -> bool {
    &&& 0 <= v < g.len()
    &&& v != u
    &&& exists|k: int| 0 <= k < g[v].len() && #[trigger] g[v][k] as int == u
}

/// Some successor among the first `k` of `v`, other than `v`, is marked in
/// `prev`.
pub open spec fn any_marked(g: Seq<Seq<usize>>, prev: Seq<bool>, v: int, k: int) -> bool
    decreases k,
{
    if k <= 0 {
        false
    } else {
        any_marked(g, prev, v, k - 1) || (g[v][k - 1] as int != v && prev[g[v][k - 1] as int])
    }
}

/// For each node, whether a walk of between one and `t` edges, none of them
/// a self-loop, leads from it to `s`.
pub open spec fn within_table(g: Seq<Seq<usize>>, s: int, t: nat) -> Seq<bool>
    decreases t,
{
    if t == 0 {
        Seq::new(g.len(), |v: int| false)
    } else {
        let prev = within_table(g, s, (t - 1) as nat);
        Seq::new(g.len(), |v: int| step_edge(g, v, s) || any_marked(g, prev, v, g[v].len() as int))
    }
}

/// A walk of between one and `t` edges, none of them a self-loop, leads
/// from `v` to `s`.
pub open spec fn steps_to(g: Seq<Seq<usize>>, s: int, t: int, v: int) -> bool {
    0 <= v < g.len() && t > 0 && within_table(g, s, t as nat)[v]
}

proof fn lemma_any_marked(g: Seq<Seq<usize>>, prev: Seq<bool>, v: int, k: int)
    ensures
        any_marked(g, prev, v, k) <==> exists|j: int|
            0 <= j < k && #[trigger] g[v][j] as int != v && prev[g[v][j] as int],
    decreases k,
{
    if k > 0 {
        lemma_any_marked(g, prev, v, k - 1);
        if any_marked(g, prev, v, k) && !any_marked(g, prev, v, k - 1) {
            assert(g[v][k - 1] as int != v && prev[g[v][k - 1] as int]);
        }
    }
}

proof fn lemma_steps_via(g: Seq<Seq<usize>>, s: int, t: int, v: int, u: int)
    requires
        t >= 0,
        step_edge(g, v, u),
        steps_to(g, s, t, u),
    ensures
        steps_to(g, s, t + 1, v),
{
    let prev = within_table(g, s, t as nat);
    assert(within_table(g, s, (t + 1) as nat) == Seq::new(
        g.len(),
        |w: int| step_edge(g, w, s) || any_marked(g, prev, w, g[w].len() as int),
    ));
    let k = choose|k: int| 0 <= k < g[v].len() && #[trigger] g[v][k] as int == u;
    assert(g[v][k] as int != v && prev[g[v][k] as int]);
    lemma_any_marked(g, prev, v, g[v].len() as int);
}

/// A walk of two or more steps leaves `v` along an edge to a node with a
/// shorter walk.
proof fn lemma_steps_split(g: Seq<Seq<usize>>, s: int, t: int, v: int)
    requires
        edges_within(g),
        t >= 1,
        steps_to(g, s, t + 1, v),
        !step_edge(g, v, s),
    ensures
        exists|u: int| step_edge(g, v, u) && steps_to(g, s, t, u),
{
    let prev = within_table(g, s, t as nat);
    assert(within_table(g, s, (t + 1) as nat) == Seq::new(
        g.len(),
        |w: int| step_edge(g, w, s) || any_marked(g, prev, w, g[w].len() as int),
    ));
    lemma_any_marked(g, prev, v, g[v].len() as int);
    let j = choose|j: int| 0 <= j < g[v].len() && #[trigger] g[v][j] as int != v && prev[g[v][j] as int];
    let u = g[v][j] as int;
    assert(g[v][j] < g.len());
    assert(prev.len() == g.len());
    assert(step_edge(g, v, u) && steps_to(g, s, t, u));
}

proof fn lemma_steps_one(g: Seq<Seq<usize>>, s: int, v: int)
    requires
        edges_within(g),
        steps_to(g, s, 1, v),
    ensures
        step_edge(g, v, s),
{
    let prev = within_table(g, s, 0);
    assert(prev == Seq::new(g.len(), |w: int| false));
    assert(within_table(g, s, 1) == Seq::new(
        g.len(),
        |w: int| step_edge(g, w, s) || any_marked(g, prev, w, g[w].len() as int),
    ));
    lemma_any_marked(g, prev, v, g[v].len() as int);
    if !step_edge(g, v, s) {
        let j = choose|j: int| 0 <= j < g[v].len() && #[trigger] g[v][j] as int != v && prev[g[v][j] as int];
        assert(g[v][j] < g.len());
    }
}

/// The least `t'` in `1..=t` with `steps_to(g, s, t', v)`, or 0 if none.
pub open spec fn first_within(g: Seq<Seq<usize>>, s: int, v: int, t: nat) -> nat
    decreases t,
{
    if t == 0 {
        0
    } else {
        let p = first_within(g, s, v, (t - 1) as nat);
        if p > 0 {
            p
        } else if steps_to(g, s, t as int, v) {
            t
        } else {
            0
        }
    }
}

/// Length of the shortest walk without self-loops from `v` to `s`, when one
/// of at most `g.len()` edges exists; 0 otherwise.
pub open spec fn dist(g: Seq<Seq<usize>>, s: int, v: int) -> nat {
    first_within(g, s, v, g.len() as nat)
}

/// The first of the successors of `v` from position `k` on that lies one step
/// closer to `s`; -1 if there is none.
pub open spec fn next_from(g: Seq<Seq<usize>>, s: int, v: int, k: int) -> int
    decreases g[v].len() - k,
{
    if k < 0 || k >= g[v].len() {
        -1
    } else {
        let u = g[v][k] as int;
        if u != v && dist(g, s, u) + 1 == dist(g, s, v) {
            u
        } else {
            next_from(g, s, v, k + 1)
        }
    }
}

/// The `x`-th node of the walk from `s` that always steps to the first
/// successor one step closer to `s`.
pub open spec fn walk_node(g: Seq<Seq<usize>>, s: int, x: nat) -> int
    decreases x,
{
    if x == 0 {
        s
    } else {
        next_from(g, s, walk_node(g, s, (x - 1) as nat), 0)
    }
}

/// The shortest cycle without self-loops through `s`, from `s` on, taking the
/// first suitable successor at each step; `None` when there is none.
pub open spec fn cycle_from(g: Seq<Seq<usize>>, s: int) -> Option<Seq<usize>> {
    let d = dist(g, s, s);
    if d == 0 {
        None
    } else {
        Some(Seq::new(d, |x: int| walk_node(g, s, x as nat) as usize))
    }
}

/// `c` is an elementary cycle of `g`: distinct nodes, each with an edge to
/// the next and the last to the first.
pub open spec fn is_elementary_cycle(g: Seq<Seq<usize>>, c: Seq<usize>) -> bool {
    &&& c.len() >= 1
    &&& c.no_duplicates()
    &&& forall|x: int| 0 <= x < c.len() ==> #[trigger] has_edge(g, c[x] as int, c[(x + 1) % (c.len() as int)] as int)
}

proof fn lemma_first_within(g: Seq<Seq<usize>>, s: int, v: int, t: nat)
    ensures
        first_within(g, s, v, t) <= t,
        first_within(g, s, v, t) == 0 ==> forall|t2: int| t2 <= t ==> !steps_to(g, s, t2, v),
        first_within(g, s, v, t) > 0 ==> steps_to(g, s, first_within(g, s, v, t) as int, v)
            && forall|t2: int| t2 < first_within(g, s, v, t) ==> !steps_to(g, s, t2, v),
    decreases t,
{
    if t > 0 {
        lemma_first_within(g, s, v, (t - 1) as nat);
    }
}

/// A node at distance `d > 1` has a successor, not itself, at distance `d - 1`.
proof fn lemma_closer_successor(g: Seq<Seq<usize>>, s: int, v: int)
    requires
        edges_within(g),
        dist(g, s, v) > 1,
    ensures
        exists|k: int|
            0 <= k < g[v].len() && g[v][k] as int != v && dist(g, s, g[v][k] as int) + 1 == dist(
                g,
                s,
                v,
            ),
{
    let n = g.len() as nat;
    let d = dist(g, s, v);
    lemma_first_within(g, s, v, n);
    assert(!steps_to(g, s, 1, v));
    assert(!step_edge(g, v, s));
    lemma_steps_split(g, s, d - 1, v);
    let u = choose|u: int| step_edge(g, v, u) && steps_to(g, s, d - 1, u);
    lemma_first_within(g, s, u, n);
    let du = dist(g, s, u);
    assert(du > 0);
    if du < d - 1 {
        lemma_steps_via(g, s, du as int, v, u);
    }
    let k = choose|k: int| 0 <= k < g[v].len() && #[trigger] g[v][k] as int == u;
}

proof fn lemma_next_from(g: Seq<Seq<usize>>, s: int, v: int, k: int)
    requires
        0 <= k,
        0 <= v < g.len(),
        exists|j: int|
            k <= j < g[v].len() && g[v][j] as int != v && dist(g, s, g[v][j] as int) + 1 == dist(g, s, v),
    ensures
        next_from(g, s, v, k) != v,
        next_from(g, s, v, k) >= 0,
        edges_within(g) ==> next_from(g, s, v, k) < g.len(),
        step_edge(g, v, next_from(g, s, v, k)),
        dist(g, s, next_from(g, s, v, k)) + 1 == dist(g, s, v),
    decreases g[v].len() - k,
{
    let u = g[v][k] as int;
    if !(u != v && dist(g, s, u) + 1 == dist(g, s, v)) {
        let j = choose|j: int|
            k <= j < g[v].len() && g[v][j] as int != v && dist(g, s, g[v][j] as int) + 1 == dist(g, s, v);
        assert(j != k);
        lemma_next_from(g, s, v, k + 1);
    } else {
        assert(g[v][k] as int == u);
        if edges_within(g) {
            assert(g[v][k] < g.len());
        }
    }
}

/// Along the walk from `s`, the distance to `s` drops by one at each node,
/// and each node has an edge to the next.
proof fn lemma_walk_node(g: Seq<Seq<usize>>, s: int, x: nat)
    requires
        edges_within(g),
        0 <= s < g.len(),
        x < dist(g, s, s),
    ensures
        0 <= walk_node(g, s, x) < g.len(),
        dist(g, s, walk_node(g, s, x)) == dist(g, s, s) - x,
        x + 1 < dist(g, s, s) ==> step_edge(g, walk_node(g, s, x), walk_node(g, s, (x + 1) as nat)),
        x + 1 == dist(g, s, s) ==> step_edge(g, walk_node(g, s, x), s),
    decreases x,
{
    let w = walk_node(g, s, x);
    if x > 0 {
        let p = walk_node(g, s, (x - 1) as nat);
        lemma_walk_node(g, s, (x - 1) as nat);
        lemma_closer_successor(g, s, p);
        lemma_next_from(g, s, p, 0);
    }
    if x + 1 < dist(g, s, s) {
        lemma_closer_successor(g, s, w);
        lemma_next_from(g, s, w, 0);
        assert(walk_node(g, s, (x + 1) as nat) == next_from(g, s, w, 0));
        assert(step_edge(g, w, next_from(g, s, w, 0)));
        assert(step_edge(g, w, walk_node(g, s, (x + 1) as nat)));
    }
    if x + 1 == dist(g, s, s) {
        lemma_first_within(g, s, w, g.len() as nat);
        lemma_steps_one(g, s, w);
    }
}

proof fn lemma_step_edge_has_edge(g: Seq<Seq<usize>>, v: int, u: int)
    requires
        step_edge(g, v, u),
    ensures
        has_edge(g, v, u),
{
    let k = choose|k: int| 0 <= k < g[v].len() && #[trigger] g[v][k] as int == u;
    assert(g[v][k] == u as usize);
}

/// The cycle through `s`, when there is one, is elementary, has two or more
/// nodes and starts at `s`.
pub proof fn lemma_cycle_from_elementary(g: Seq<Seq<usize>>, s: int)
    requires
        edges_within(g),
        g.len() <= usize::MAX,
        0 <= s < g.len(),
        cycle_from(g, s) is Some,
    ensures
        is_elementary_cycle(g, cycle_from(g, s)->Some_0),
        cycle_from(g, s)->Some_0.len() >= 2,
        cycle_from(g, s)->Some_0[0] == s,
{
    let c = cycle_from(g, s)->Some_0;
    let d = dist(g, s, s);
    lemma_first_within(g, s, s, g.len() as nat);
    if d == 1 {
        lemma_steps_one(g, s, s);
    }
    assert forall|x: int| 0 <= x < c.len() implies #[trigger] has_edge(
        g,
        c[x] as int,
        c[(x + 1) % (c.len() as int)] as int,
    ) by {
        lemma_walk_node(g, s, x as nat);
        assert(c[x] as int == walk_node(g, s, x as nat));
        if x + 1 < d {
            lemma_walk_node(g, s, (x + 1) as nat);
            assert(c[x + 1] as int == walk_node(g, s, (x + 1) as nat));
            lemma_step_edge_has_edge(g, walk_node(g, s, x as nat), walk_node(g, s, (x + 1) as nat));
            lemma_small_mod((x + 1) as nat, c.len());
        } else {
            assert((x + 1) % (c.len() as int) == 0) by (nonlinear_arith)
                requires
                    x + 1 == c.len(),
                    c.len() > 0,
            ;
            assert(c[0] as int == s);
            lemma_step_edge_has_edge(g, walk_node(g, s, x as nat), s);
        }
    }
    assert forall|a: int, b: int| 0 <= a < c.len() && 0 <= b < c.len() && a != b implies c[a] != c[b] by {
        lemma_walk_node(g, s, a as nat);
        lemma_walk_node(g, s, b as nat);
        assert(c[a] as int == walk_node(g, s, a as nat));
        assert(c[b] as int == walk_node(g, s, b as nat));
    }
}

/// Whether `g` has an edge from `v` to `u`.
pub fn edge_between(graph: &DependencyGraph, v: usize, u: usize) -> (r: bool)
    requires
        v < graph@.len(),
    ensures
        r == has_edge(graph@, v as int, u as int),
{
    let row = graph.successors(v);
    let mut k: usize = 0;
    while k < row.len()
        invariant
            v < graph@.len(),
            row@ == graph@[v as int],
            k <= row@.len(),
            forall|j: int| 0 <= j < k ==> row@[j] != u,
        decreases row@.len() - k,
    {
        if row[k] == u {
            return true;
        }
        k = k + 1;
    }
    false
}

/// Computes the shortest cycle without self-loops through `s`, taking the
/// first suitable successor at each step.
pub fn cycle_through(graph: &DependencyGraph, s: usize) -> (r: Option<Vec<usize>>)
    requires
        edges_within(graph@),
        s < graph@.len(),
    ensures
        match r {
            Some(c) => cycle_from(graph@, s as int) == Some(c@),
            None => cycle_from(graph@, s as int) is None,
        },
{
    let n = graph.node_count();
    let ghost g = graph@;
    // within[v] == steps_to(g, s, t, v); first[v] == first_within(g, s, v, t)
    let mut within: Vec<bool> = Vec::new();
    let mut first: Vec<usize> = Vec::new();
    let mut v: usize = 0;
    while v < n
        invariant
            n == g.len(),
            v <= n,
            within@.len() == v,
            first@.len() == v,
            forall|x: int| 0 <= x < v ==> !within@[x] && first@[x] == 0,
            within_table(g, s as int, 0) == Seq::new(g.len(), |w: int| false),
        decreases n - v,
    {
        within.push(false);
        first.push(0);
        v = v + 1;
    }
    assert(within@ =~= within_table(g, s as int, 0));
    let mut t: usize = 0;
    while t < n
        invariant
            n == g.len(),
            g == graph@,
            edges_within(g),
            s < n,
            t <= n,
            within@ == within_table(g, s as int, t as nat),
            first@.len() == n,
            forall|x: int| 0 <= x < n ==> first@[x] as nat == first_within(g, s as int, x, t as nat),
            forall|x: int| 0 <= x < n ==> first@[x] <= t,
        decreases n - t,
    {
        let ghost prev = within_table(g, s as int, t as nat);
        let ghost want = within_table(g, s as int, (t + 1) as nat);
        assert(want == Seq::new(
            g.len(),
            |w: int| step_edge(g, w, s as int) || any_marked(g, prev, w, g[w].len() as int),
        ));
        let mut next: Vec<bool> = Vec::new();
        let mut v: usize = 0;
        while v < n
            invariant
                n == g.len(),
                g == graph@,
                edges_within(g),
                s < n,
                t < n,
                v <= n,
                within@ == prev,
                prev.len() == n,
                want.len() == n,
                forall|x: int| 0 <= x < n ==> want[x] == (step_edge(g, x, s as int) || any_marked(g, prev, x, g[x].len() as int)),
                next@.len() == v,
                forall|x: int| 0 <= x < v ==> next@[x] == want[x],
            decreases n - v,
        {
            let mut found = v != s && edge_between(graph, v, s);
            proof {
                if has_edge(g, v as int, s as int) {
                    let k = choose|k: int| 0 <= k < g[v as int].len() && g[v as int][k] == s;
                    assert(g[v as int][k] as int == s as int);
                }
                if step_edge(g, v as int, s as int) {
                    let k = choose|k: int| 0 <= k < g[v as int].len() && #[trigger] g[v as int][k] as int == s as int;
                    assert(g[v as int][k] == s);
                }
            }
            let row = graph.successors(v);
            let mut k: usize = 0;
            while k < row.len()
                invariant
                    n == g.len(),
                    g == graph@,
                    edges_within(g),
                    s < n,
                    v < n,
                    row@ == g[v as int],
                    k <= row@.len(),
                    within@ == prev,
                    prev.len() == n,
                    found == (step_edge(g, v as int, s as int) || any_marked(g, prev, v as int, k as int)),
                decreases row@.len() - k,
            {
                let u = row[k];
                assert(u < n);
                if u != v && within[u] {
                    found = true;
                }
                k = k + 1;
            }
            next.push(found);
            v = v + 1;
        }
        assert(next@ =~= want);
        let mut v: usize = 0;
        while v < n
            invariant
                n == g.len(),
                t < n,
                v <= n,
                first@.len() == n,
                next@ == want,
                want == within_table(g, s as int, (t + 1) as nat),
                forall|x: int| 0 <= x < v ==> first@[x] as nat == first_within(g, s as int, x, (t + 1) as nat),
                forall|x: int| v <= x < n ==> first@[x] as nat == first_within(g, s as int, x, t as nat),
                forall|x: int| 0 <= x < n ==> first@[x] <= t + 1,
            decreases n - v,
        {
            if first[v] == 0 && next[v] {
                first.set(v, t + 1);
            }
            v = v + 1;
        }
        within = next;
        t = t + 1;
    }
    let d = first[s];
    if d == 0 {
        return None;
    }
    let ghost dd = dist(g, s as int, s as int);
    let mut path: Vec<usize> = Vec::new();
    path.push(s);
    let mut cur: usize = s;
    let mut x: usize = 1;
    while x < d
        invariant
            n == g.len(),
            g == graph@,
            edges_within(g),
            s < n,
            first@.len() == n,
            forall|y: int| 0 <= y < n ==> first@[y] as nat == dist(g, s as int, y),
            d as nat == dd,
            dd == dist(g, s as int, s as int),
            1 <= x <= d,
            cur as int == walk_node(g, s as int, (x - 1) as nat),
            path@ == Seq::new(x as nat, |y: int| walk_node(g, s as int, y as nat) as usize),
        decreases d - x,
    {
        proof {
            lemma_walk_node(g, s as int, (x - 1) as nat);
            lemma_closer_successor(g, s as int, cur as int);
        }
        let row = graph.successors(cur);
        let mut k: usize = 0;
        let mut pick: usize = 0;
        let mut got = false;
        while k < row.len() && !got
            invariant
                n == g.len(),
                g == graph@,
                edges_within(g),
                cur < n,
                row@ == g[cur as int],
                k <= row@.len(),
                first@.len() == n,
                forall|y: int| 0 <= y < n ==> first@[y] as nat == dist(g, s as int, y),
                got ==> pick as int == next_from(g, s as int, cur as int, 0),
                !got ==> next_from(g, s as int, cur as int, 0) == next_from(g, s as int, cur as int, k as int),
            decreases row@.len() - k,
        {
            let u = row[k];
            assert(u < n);
            if u != cur && first[cur] > 0 && first[u] == first[cur] - 1 {
                pick = u;
                got = true;
            }
            k = k + 1;
        }
        proof {
            lemma_next_from(g, s as int, cur as int, 0);
            if !got {
                assert(next_from(g, s as int, cur as int, k as int) == -1);
            }
        }
        let ghost before = path@;
        path.push(pick);
        assert(path@ =~= Seq::new((x + 1) as nat, |y: int| walk_node(g, s as int, y as nat) as usize));
        cur = pick;
        x = x + 1;
    }
    Some(path)
}

/// `w` is a walk of one or more edges of `g`, none of them a self-loop.
pub open spec fn is_step_walk(g: Seq<Seq<usize>>, w: Seq<int>) -> bool {
    w.len() >= 2 && forall|x: int| 0 <= x < w.len() - 1 ==> #[trigger] step_edge(g, w[x], w[x + 1])
}

proof fn lemma_step_edge_steps(g: Seq<Seq<usize>>, s: int, t: int, v: int)
    requires
        t >= 1,
        step_edge(g, v, s),
    ensures
        steps_to(g, s, t, v),
{
    let prev = within_table(g, s, (t - 1) as nat);
    assert(within_table(g, s, t as nat) == Seq::new(
        g.len(),
        |w: int| step_edge(g, w, s) || any_marked(g, prev, w, g[w].len() as int),
    ));
}

proof fn lemma_step_walk_steps(g: Seq<Seq<usize>>, s: int, w: Seq<int>)
    requires
        is_step_walk(g, w),
        w.last() == s,
    ensures
        steps_to(g, s, w.len() - 1, w[0]),
    decreases w.len(),
{
    let z = 0int;
    assert(step_edge(g, w[z], w[z + 1]));
    if w.len() == 2 {
        lemma_step_edge_steps(g, s, 1, w[0]);
    } else {
        let q = w.drop_first();
        assert forall|x: int| 0 <= x < q.len() - 1 implies #[trigger] step_edge(g, q[x], q[x + 1]) by {
            let y = x + 1;
            assert(step_edge(g, w[y], w[y + 1]));
        }
        lemma_step_walk_steps(g, s, q);
        lemma_steps_via(g, s, q.len() - 1, w[0], w[1]);
    }
}

proof fn lemma_shorten(g: Seq<Seq<usize>>, w: Seq<int>)
    requires
        is_step_walk(g, w),
        0 <= w.last() < g.len(),
    ensures
        exists|v: Seq<int>|
            is_step_walk(g, v) && v[0] == w[0] && v.last() == w.last() && v.len() <= g.len() + 1,
    decreases w.len(),
{
    let n = g.len() as int;
    if w.len() > n + 1 {
        let h = w.take(n + 1);
        if h.no_duplicates() {
            h.unique_seq_to_set();
            lemma_int_range(0, n);
            assert(h.to_set().subset_of(set_int_range(0, n))) by {
                assert forall|v: int| h.to_set().contains(v) implies set_int_range(0, n).contains(v) by {
                    let k = choose|k: int| 0 <= k < h.len() && h[k] == v;
                    assert(step_edge(g, w[k], w[k + 1]));
                }
            }
            lemma_len_subset(h.to_set(), set_int_range(0, n));
        }
        let (a, b) = choose|a: int, b: int| 0 <= a < h.len() && 0 <= b < h.len() && a != b && h[a] == h[b];
        let lo = if a < b { a } else { b };
        let hi = if a < b { b } else { a };
        let v = w.subrange(0, lo + 1) + w.subrange(hi + 1, w.len() as int);
        assert forall|x: int| 0 <= x < v.len() - 1 implies #[trigger] step_edge(g, v[x], v[x + 1]) by {
            if x < lo {
                assert(step_edge(g, w[x], w[x + 1]));
            } else if x == lo {
                assert(step_edge(g, w[hi], w[hi + 1]));
                assert(v[x] == w[hi] && v[x + 1] == w[hi + 1]);
            } else {
                let y = x + hi - lo;
                assert(step_edge(g, w[y], w[y + 1]));
                assert(v[x] == w[y] && v[x + 1] == w[y + 1]);
            }
        }
        assert(v.last() == w.last());
        lemma_shorten(g, v);
    } else {
        assert(is_step_walk(g, w) && w[0] == w[0] && w.last() == w.last() && w.len() <= g.len() + 1);
    }
}

proof fn lemma_drop_self_loops(g: Seq<Seq<usize>>, w: Seq<int>)
    requires
        is_walk(g, w),
        g.len() <= usize::MAX,
        0 <= w.last() < g.len(),
        w[0] != w.last(),
    ensures
        exists|v: Seq<int>| is_step_walk(g, v) && v[0] == w[0] && v.last() == w.last(),
    decreases w.len(),
{
    let z = 0int;
    assert(has_edge(g, w[z], w[z + 1]));
    let q = w.drop_first();
    if w.len() > 2 {
        assert forall|x: int| 0 <= x < q.len() - 1 implies #[trigger] has_edge(g, q[x], q[x + 1]) by {
            let y = x + 1;
            assert(has_edge(g, w[y], w[y + 1]));
        }
    }
    if w.len() > 2 {
        let o = 1int;
        assert(has_edge(g, w[o], w[o + 1]));
    }
    assert(0 <= w[1] < g.len());
    let k = choose|k: int| 0 <= k < g[w[0]].len() && g[w[0]][k] == w[1] as usize;
    assert(g[w[0]][k] as int == w[1]);
    if w[0] == w[1] {
        lemma_drop_self_loops(g, q);
    } else if w[1] == w.last() {
        let v = seq![w[0], w[1]];
        assert(step_edge(g, v[z], v[z + 1]));
        assert(is_step_walk(g, v) && v[0] == w[0] && v.last() == w.last());
    } else {
        lemma_drop_self_loops(g, q);
        let r = choose|r: Seq<int>| is_step_walk(g, r) && r[0] == q[0] && r.last() == q.last();
        let v = seq![w[0]] + r;
        assert forall|x: int| 0 <= x < v.len() - 1 implies #[trigger] step_edge(g, v[x], v[x + 1]) by {
            if x > 0 {
                let y = x - 1;
                assert(step_edge(g, r[y], r[y + 1]));
                assert(v[x] == r[y] && v[x + 1] == r[y + 1]);
            } else {
                assert(v[x] == w[0] && v[x + 1] == w[1]);
            }
        }
        assert(is_step_walk(g, v) && v[0] == w[0] && v.last() == w.last());
    }
}

/// Every node that shares its component with another node lies on a cycle
/// without self-loops of at most `g.len()` steps, so it gets one.
pub proof fn lemma_component_has_cycle(g: Seq<Seq<usize>>, s: int, j: int)
    requires
        edges_within(g),
        g.len() <= usize::MAX,
        0 <= s < g.len(),
        0 <= j < g.len(),
        j != s,
        entangled(g, s, j),
    ensures
        cycle_from(g, s) is Some,
{
    lemma_reaches_iff_walk(g, s, j);
    lemma_reaches_iff_walk(g, j, s);
    let a = choose|w: Seq<int>| is_walk(g, w) && w[0] == s && w.last() == j;
    let b = choose|w: Seq<int>| is_walk(g, w) && w[0] == j && w.last() == s;
    lemma_drop_self_loops(g, a);
    lemma_drop_self_loops(g, b);
    let x = choose|v: Seq<int>| is_step_walk(g, v) && v[0] == s && v.last() == j;
    let y = choose|v: Seq<int>| is_step_walk(g, v) && v[0] == j && v.last() == s;
    let w = x + y.drop_first();
    assert forall|k: int| 0 <= k < w.len() - 1 implies #[trigger] step_edge(g, w[k], w[k + 1]) by {
        if k < x.len() - 1 {
            assert(step_edge(g, x[k], x[k + 1]));
        } else if k == x.len() - 1 {
            let z = 0int;
            assert(step_edge(g, y[z], y[z + 1]));
        } else {
            let m = k - x.len() + 1;
            assert(step_edge(g, y[m], y[m + 1]));
            assert(w[k] == y[m] && w[k + 1] == y[m + 1]);
        }
    }
    assert(w.last() == s && w[0] == s);
    lemma_shorten(g, w);
    let v = choose|v: Seq<int>| is_step_walk(g, v) && v[0] == s && v.last() == s && v.len() <= g.len() + 1;
    lemma_step_walk_steps(g, s, v);
    lemma_first_within(g, s, s, g.len() as nat);
}

} // verus!
