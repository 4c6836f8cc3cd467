use vstd::prelude::*;
use crate::dot::{dot_graph, dot_of};
use crate::graph::{DependencyGraph, edges_within, detect_violations, findings, graph_of, lemma_graph_edges_within};
use crate::metrics::{
    ArchitectureMetrics, compute_metrics, counts_match, is_simple, lemma_coupling_at_most_one,
};
use crate::model::{DependencyViolation, ModuleInfo, names_of};
use crate::ordering::{least_pos, least_position, lemma_least_pos_in_range};
use crate::walks::{
    lemma_component_has_cycle,
    cycle_from, cycle_through, edge_between, is_elementary_cycle, lemma_cycle_from_elementary,
};
use crate::graph::has_edge;
use crate::registry::{ModuleRegistry, collisions_of, first_seen};
use crate::structure::{
    Reachability, cycles_below, cycles_of, lemma_cycle_members_within, entangled,
    lemma_cycles_below_leader, lemma_members_below_contains, lemma_reaches_trans, leads_cycle,
    members_below, find_cycles, max_dependency_depth, max_depth, reaches,
    lemma_reaches_iff_walk, walk_between,
};

verus! {

/// The complete outcome of one analysis run.
#[derive(Debug)]
pub struct AnalysisResult {
    pub modules: Vec<ModuleInfo>,
    /// Records dropped because an earlier record had the same name.
    pub name_collisions: Vec<ModuleInfo>,
    pub dependency_violations: Vec<DependencyViolation>,
    pub circular_dependencies: Vec<Vec<String>>,
    pub metrics: ArchitectureMetrics,
}

/// The module names of a cycle.
pub open spec fn named_cycle(ms: Seq<ModuleInfo>, c: Seq<usize>) -> Seq<Seq<char>> {
    c.map_values(|j: usize| names_of(ms)[j as int])
}

/// The member of a component with the least name.
pub open spec fn least_member(ms: Seq<ModuleInfo>, group: Seq<usize>) -> int {
    group[least_pos(named_cycle(ms, group), group.len() as int)] as int
}

/// For each of the first `k` cyclic components of two or more modules, the
/// shortest cycle without self-loops through its least-named member.
pub open spec fn component_cycles(ms: Seq<ModuleInfo>, k: int) -> Seq<Seq<usize>>
    decreases k,
{
    if k <= 0 {
        seq![]
    } else {
        let r = component_cycles(ms, k - 1);
        let group = cycles_of(graph_of(ms))[k - 1];
        if group.len() >= 2 {
            match cycle_from(graph_of(ms), least_member(ms, group)) {
                Some(c) => r.push(c),
                None => r,
            }
        } else {
            r
        }
    }
}

/// One single-node cycle for each of the first `k` nodes with an edge to
/// itself.
pub open spec fn self_loops(g: Seq<Seq<usize>>, k: int) -> Seq<Seq<usize>>
    decreases k,
{
    if k <= 0 {
        seq![]
    } else if has_edge(g, k - 1, k - 1) {
        self_loops(g, k - 1).push(seq![(k - 1) as usize])
    } else {
        self_loops(g, k - 1)
    }
}

/// The reported cycles: one per cyclic component of two or more modules,
/// then one per module that depends on itself.
pub open spec fn reported_cycles(ms: Seq<ModuleInfo>) -> Seq<Seq<usize>> {
    component_cycles(ms, cycles_of(graph_of(ms)).len() as int) + self_loops(
        graph_of(ms),
        ms.len() as int,
    )
}

/// The reported cycles, by module name.
pub open spec fn cycle_names(ms: Seq<ModuleInfo>) -> Seq<Seq<Seq<char>>> {
    reported_cycles(ms).map_values(|c: Seq<usize>| named_cycle(ms, c))
}

impl AnalysisResult {
    /// The cycles as name sequences.
    pub open spec fn cycles_view(&self) -> Seq<Seq<Seq<char>>> {
        self.circular_dependencies@.map_values(|c: Vec<String>| c@.map_values(|s: String| s@))
    }

    /// Everything the result states, as mathematical values.
    pub open spec fn outcome(&self) -> (
        Seq<ModuleInfo>,
        Seq<ModuleInfo>,
        Seq<(Seq<char>, Seq<char>, crate::model::ViolationType, Seq<char>)>,
        Seq<Seq<Seq<char>>>,
        ArchitectureMetrics,
    ) {
        (
            self.modules@,
            self.name_collisions@,
            self.dependency_violations@.map_values(|v: DependencyViolation| v@),
            self.cycles_view(),
            self.metrics,
        )
    }
}

/// What the analysis of `records` yields.
pub open spec fn is_analysis_of(records: Seq<ModuleInfo>, r: AnalysisResult) -> bool {
    let ms = first_seen(records);
    let g = graph_of(ms);
    &&& r.modules@ == ms
    &&& r.name_collisions@ == collisions_of(records)
    &&& r.dependency_violations@.map_values(|v: DependencyViolation| v@) == findings(ms, g)
    &&& r.cycles_view() == cycle_names(ms)
    &&& counts_match(r.metrics, ms, g)
    &&& r.metrics.max_dependency_depth == max_depth(g)
}

/// Determinism: two analyses of the same records agree in every part.
pub proof fn lemma_analysis_deterministic(records: Seq<ModuleInfo>, a: AnalysisResult, b: AnalysisResult)
    requires
        is_analysis_of(records, a),
        is_analysis_of(records, b),
    ensures
        a.outcome() == b.outcome(),
{
}

/// The coupling factor of an analysis lies in [0, 1] when there are at least
/// two modules and the graph has no self-loop or repeated edge.
pub proof fn lemma_coupling_bounds(records: Seq<ModuleInfo>, r: AnalysisResult)
    requires
        is_analysis_of(records, r),
        r.metrics.total_modules > 1,
        is_simple(graph_of(first_seen(records))),
    ensures
        0 <= r.metrics.dependency_edges <= r.metrics.total_modules * (r.metrics.total_modules - 1),
{
    let ms = first_seen(records);
    assert(ms.len() <= usize::MAX);
    lemma_graph_edges_within(ms);
    lemma_coupling_at_most_one(graph_of(ms));
}

/// An acyclic graph, one without a closed walk, has no cyclic component.
pub proof fn lemma_acyclic_has_no_cycles(g: Seq<Seq<usize>>)
    requires
        edges_within(g),
        forall|i: int| 0 <= i < g.len() ==> !walk_between(g, i, i),
    ensures
        cycles_of(g).len() == 0,
{
    assert forall|i: int| 0 <= i < g.len() implies !reaches(g, i, i) by {
        lemma_reaches_iff_walk(g, i, i);
    }
    lemma_no_cycles_below(g, g.len() as int);
}

proof fn lemma_no_cycles_below(g: Seq<Seq<usize>>, k: int)
    requires
        k <= g.len(),
        forall|i: int| 0 <= i < g.len() ==> !reaches(g, i, i),
    ensures
        cycles_below(g, k).len() == 0,
    decreases k,
{
    if k > 0 {
        lemma_no_cycles_below(g, k - 1);
    }
}

/// With no records there are no modules, findings or cycles, and the
/// coupling factor is the zero fraction.
pub proof fn lemma_empty_input(r: AnalysisResult)
    requires
        is_analysis_of(seq![], r),
    ensures
        r.modules@.len() == 0,
        r.metrics.total_modules == 0,
        r.metrics.dependency_edges == 0,
        r.metrics.max_dependency_depth == 0,
        r.dependency_violations@.len() == 0,
        r.circular_dependencies@.len() == 0,
{
    let ms = first_seen(Seq::<ModuleInfo>::empty());
    assert(ms.len() == 0);
    assert(graph_of(ms).len() == 0);
    assert(r.dependency_violations@.map_values(|v: DependencyViolation| v@).len() == 0);
    assert(r.cycles_view().len() == 0);
}

/// The cycles, with each node index replaced by its module's name.
fn name_cycles(modules: &Vec<ModuleInfo>, cycles: &Vec<Vec<usize>>) -> (r: Vec<Vec<String>>)
    requires
        forall|c: int, k: int|
            0 <= c < cycles@.len() && 0 <= k < cycles@[c]@.len() ==> cycles@[c]@[k]
                < modules@.len(),
    ensures
        r@.map_values(|c: Vec<String>| c@.map_values(|s: String| s@)) == cycles@.map_values(
            |c: Vec<usize>| c@,
        ).map_values(|c: Seq<usize>| named_cycle(modules@, c)),
{
    let ghost want = cycles@.map_values(|c: Vec<usize>| c@).map_values(
        |c: Seq<usize>| named_cycle(modules@, c),
    );
    let mut out: Vec<Vec<String>> = Vec::new();
    let mut c: usize = 0;
    while c < cycles.len()
        invariant
            c <= cycles@.len(),
            want == cycles@.map_values(|c: Vec<usize>| c@).map_values(
                |c: Seq<usize>| named_cycle(modules@, c),
            ),
            forall|c: int, k: int|
                0 <= c < cycles@.len() && 0 <= k < cycles@[c]@.len() ==> cycles@[c]@[k]
                    < modules@.len(),
            out@.map_values(|c: Vec<String>| c@.map_values(|s: String| s@)) =~= want.take(
                c as int,
            ),
        decreases cycles@.len() - c,
    {
        let members = &cycles[c];
        let mut names: Vec<String> = Vec::new();
        let mut k: usize = 0;
        while k < members.len()
            invariant
                c < cycles@.len(),
                members@ == cycles@[c as int]@,
                k <= members@.len(),
                forall|k: int| 0 <= k < members@.len() ==> members@[k] < modules@.len(),
                names@.map_values(|s: String| s@) =~= members@.take(k as int).map_values(
                    |j: usize| names_of(modules@)[j as int],
                ),
            decreases members@.len() - k,
        {
            let j = members[k];
            let s = modules[j].name.clone();
            let ghost before = names@.map_values(|s: String| s@);
            names.push(s);
            assert(names@.map_values(|s: String| s@) =~= before.push(s@));
            assert(names_of(modules@)[j as int] == s@);
            assert(members@.take(k + 1) =~= members@.take(k as int).push(j));
            k = k + 1;
        }
        assert(members@.take(k as int) =~= members@);
        let cycle = names;
        let ghost before = out@.map_values(|c: Vec<String>| c@.map_values(|s: String| s@));
        out.push(cycle);
        assert(out@.map_values(|c: Vec<String>| c@.map_values(|s: String| s@)) =~= before.push(
            cycle@.map_values(|s: String| s@),
        ));
        assert(want.take(c + 1) =~= want.take(c as int).push(want[c as int]));
        c = c + 1;
    }
    out
}

proof fn lemma_component_cycles(ms: Seq<ModuleInfo>, k: int)
    requires
        ms.len() <= usize::MAX,
        k <= cycles_of(graph_of(ms)).len(),
    ensures
        forall|c: int|
            0 <= c < component_cycles(ms, k).len() ==> is_elementary_cycle(
                graph_of(ms),
                #[trigger] component_cycles(ms, k)[c],
            ) && component_cycles(ms, k)[c].len() >= 2,
    decreases k,
{
    let g = graph_of(ms);
    if k > 0 {
        lemma_component_cycles(ms, k - 1);
        let r = component_cycles(ms, k - 1);
        let group = cycles_of(g)[k - 1];
        if group.len() >= 2 {
            lemma_graph_edges_within(ms);
            lemma_cycle_members_within(g);
            lemma_least_pos_in_range(named_cycle(ms, group), group.len() as int);
            let s = least_member(ms, group);
            assert(0 <= s < g.len());
            if cycle_from(g, s) is Some {
                lemma_cycle_from_elementary(g, s);
                let cy = cycle_from(g, s)->Some_0;
                assert forall|c: int| 0 <= c < r.push(cy).len() implies is_elementary_cycle(
                    g,
                    #[trigger] r.push(cy)[c],
                ) && r.push(cy)[c].len() >= 2 by {
                    if c < r.len() {
                        assert(r.push(cy)[c] == r[c]);
                    }
                }
            }
        }
    }
}

proof fn lemma_self_loops(g: Seq<Seq<usize>>, k: int)
    requires
        k <= g.len(),
        g.len() <= usize::MAX,
    ensures
        forall|c: int|
            0 <= c < self_loops(g, k).len() ==> is_elementary_cycle(g, #[trigger] self_loops(g, k)[c]),
        forall|v: int| 0 <= v < k && has_edge(g, v, v) ==> self_loops(g, k).contains(seq![v as usize]),
    decreases k,
{
    if k > 0 {
        lemma_self_loops(g, k - 1);
        let r = self_loops(g, k - 1);
        if has_edge(g, k - 1, k - 1) {
            let one = seq![(k - 1) as usize];
            assert(is_elementary_cycle(g, one)) by {
                assert forall|x: int| 0 <= x < one.len() implies #[trigger] has_edge(
                    g,
                    one[x] as int,
                    one[(x + 1) % (one.len() as int)] as int,
                ) by {
                    assert(x == 0 && (x + 1) % 1 == 0);
                }
            }
            assert forall|c: int| 0 <= c < r.push(one).len() implies is_elementary_cycle(
                g,
                #[trigger] r.push(one)[c],
            ) by {
                if c < r.len() {
                    assert(r.push(one)[c] == r[c]);
                }
            }
            assert forall|v: int| 0 <= v < k && has_edge(g, v, v) implies r.push(one).contains(
                seq![v as usize],
            ) by {
                if v < k - 1 {
                    let w = choose|w: int| 0 <= w < r.len() && r[w] == seq![v as usize];
                    assert(r.push(one)[w] == seq![v as usize]);
                } else {
                    assert(r.push(one)[r.len() as int] == one);
                }
            }
        }
    }
}

/// Every reported cycle is an elementary cycle of the dependency graph:
/// distinct modules, each depending on the next and the last on the first,
/// so every name in it is a registered module. Each one for a component of
/// two or more modules has two or more, starting at the least name. Each
/// module that depends on itself is reported as a one-module cycle.
pub proof fn lemma_reported_cycles_are_cycles(ms: Seq<ModuleInfo>)
    requires
        ms.len() <= usize::MAX,
    ensures
        forall|c: int|
            0 <= c < reported_cycles(ms).len() ==> is_elementary_cycle(
                graph_of(ms),
                #[trigger] reported_cycles(ms)[c],
            ),
        forall|c: int, x: int|
            0 <= c < reported_cycles(ms).len() && 0 <= x < reported_cycles(ms)[c].len()
                ==> reported_cycles(ms)[c][x] < ms.len(),
        forall|v: int|
            0 <= v < ms.len() && has_edge(graph_of(ms), v, v) ==> reported_cycles(ms).contains(
                seq![v as usize],
            ),
{
    let g = graph_of(ms);
    let a = component_cycles(ms, cycles_of(g).len() as int);
    let b = self_loops(g, ms.len() as int);
    lemma_graph_edges_within(ms);
    lemma_component_cycles(ms, cycles_of(g).len() as int);
    lemma_self_loops(g, ms.len() as int);
    assert forall|c: int| 0 <= c < (a + b).len() implies is_elementary_cycle(g, #[trigger] (a + b)[c]) by {
        if c < a.len() {
            assert((a + b)[c] == a[c]);
        } else {
            assert((a + b)[c] == b[c - a.len()]);
        }
    }
    assert forall|c: int, x: int| 0 <= c < (a + b).len() && 0 <= x < (a + b)[c].len() implies (a
        + b)[c][x] < ms.len() by {
        assert(is_elementary_cycle(g, (a + b)[c]));
        let cy = (a + b)[c];
        assert(has_edge(g, cy[x] as int, cy[(x + 1) % (cy.len() as int)] as int));
    }
    assert forall|v: int| 0 <= v < ms.len() && has_edge(g, v, v) implies (a + b).contains(
        seq![v as usize],
    ) by {
        let w = choose|w: int| 0 <= w < b.len() && b[w] == seq![v as usize];
        assert((a + b)[a.len() + w] == b[w]);
    }
}

/// Every cyclic component of two or more modules has a reported cycle,
/// through its least-named member.
pub proof fn lemma_components_get_cycles(ms: Seq<ModuleInfo>, c: int)
    requires
        ms.len() <= usize::MAX,
        0 <= c < cycles_of(graph_of(ms)).len(),
        cycles_of(graph_of(ms))[c].len() >= 2,
    ensures
        cycles_of(graph_of(ms))[c].contains(least_member(ms, cycles_of(graph_of(ms))[c]) as usize),
        cycle_from(graph_of(ms), least_member(ms, cycles_of(graph_of(ms))[c])) is Some,
        reported_cycles(ms).contains(
            cycle_from(graph_of(ms), least_member(ms, cycles_of(graph_of(ms))[c]))->Some_0,
        ),
{
    let g = graph_of(ms);
    let n = g.len() as int;
    let group = cycles_of(g)[c];
    lemma_graph_edges_within(ms);
    lemma_cycle_members_within(g);
    lemma_least_pos_in_range(named_cycle(ms, group), group.len() as int);
    let p = least_pos(named_cycle(ms, group), group.len() as int);
    let s = least_member(ms, group);
    assert(group[p] as int == s);
    lemma_cycles_below_leader(g, n, c);
    let l = choose|l: int| 0 <= l < n && leads_cycle(g, l) && group == members_below(g, l, n);
    let other = if p == 0 { 1int } else { 0int };
    let j = group[other] as int;
    lemma_members_below_contains(g, l, n, s);
    lemma_members_below_contains(g, l, n, j);
    lemma_members_below_strict(g, l, n);
    assert(j != s);
    lemma_reaches_trans(g, s, l, j);
    lemma_reaches_trans(g, j, l, s);
    assert(entangled(g, s, j));
    lemma_component_has_cycle(g, s, j);
    lemma_component_cycles_contains(ms, cycles_of(g).len() as int, c);
    let cy = cycle_from(g, s)->Some_0;
    let a = component_cycles(ms, cycles_of(g).len() as int);
    let w = choose|w: int| 0 <= w < a.len() && a[w] == cy;
    assert(reported_cycles(ms)[w] == cy);
}

proof fn lemma_members_below_strict(g: Seq<Seq<usize>>, l: int, k: int)
    requires
        k <= usize::MAX,
    ensures
        forall|a: int, b: int|
            0 <= a < b < members_below(g, l, k).len() ==> members_below(g, l, k)[a] < members_below(
                g,
                l,
                k,
            )[b],
        forall|a: int| 0 <= a < members_below(g, l, k).len() ==> members_below(g, l, k)[a] < k,
    decreases k,
{
    if k > 0 {
        lemma_members_below_strict(g, l, k - 1);
        let r = members_below(g, l, k - 1);
        if entangled(g, l, k - 1) {
            let q = r.push((k - 1) as usize);
            assert forall|a: int, b: int| 0 <= a < b < q.len() implies q[a] < q[b] by {
                assert(q[a] == r[a]);
                if b < r.len() {
                    assert(q[b] == r[b]);
                }
            }
            assert forall|a: int| 0 <= a < q.len() implies q[a] < k by {
                if a < r.len() {
                    assert(q[a] == r[a]);
                }
            }
        }
    }
}

proof fn lemma_component_cycles_contains(ms: Seq<ModuleInfo>, k: int, c: int)
    requires
        0 <= c < k <= cycles_of(graph_of(ms)).len(),
        cycles_of(graph_of(ms))[c].len() >= 2,
        cycle_from(graph_of(ms), least_member(ms, cycles_of(graph_of(ms))[c])) is Some,
    ensures
        component_cycles(ms, k).contains(
            cycle_from(graph_of(ms), least_member(ms, cycles_of(graph_of(ms))[c]))->Some_0,
        ),
    decreases k,
{
    let g = graph_of(ms);
    let cy = cycle_from(g, least_member(ms, cycles_of(g)[c]))->Some_0;
    let r = component_cycles(ms, k - 1);
    if c < k - 1 {
        lemma_component_cycles_contains(ms, k - 1, c);
        let w = choose|w: int| 0 <= w < r.len() && r[w] == cy;
        let group = cycles_of(g)[k - 1];
        if group.len() >= 2 {
            match cycle_from(g, least_member(ms, group)) {
                Some(d) => {
                    assert(r.push(d)[w] == cy);
                },
                None => {},
            }
        }
    } else {
        assert(r.push(cy)[r.len() as int] == cy);
    }
}

/// Picks the representative cycles: for each cyclic component of two or
/// more modules, the shortest cycle without self-loops through its
/// least-named member; then `[v]` for each module `v` that depends on itself.
fn representative_cycles(modules: &Vec<ModuleInfo>, graph: &DependencyGraph, groups: &Vec<
    Vec<usize>,
>) -> (r: Vec<Vec<usize>>)
    requires
        graph@ == graph_of(modules@),
        edges_within(graph@),
        graph@.len() == modules@.len(),
        groups@.map_values(|c: Vec<usize>| c@) == cycles_of(graph@),
        forall|c: int, k: int|
            0 <= c < cycles_of(graph@).len() && 0 <= k < cycles_of(graph@)[c].len()
                ==> cycles_of(graph@)[c][k] < graph@.len(),
    ensures
        r@.map_values(|c: Vec<usize>| c@) == reported_cycles(modules@),
{
    let ghost ms = modules@;
    let ghost g = graph@;
    let mut out: Vec<Vec<usize>> = Vec::new();
    let mut c: usize = 0;
    while c < groups.len()
        invariant
            ms == modules@,
            g == graph@,
            g == graph_of(ms),
            edges_within(g),
            g.len() == ms.len(),
            groups@.map_values(|c: Vec<usize>| c@) == cycles_of(g),
            forall|c: int, k: int|
                0 <= c < cycles_of(g).len() && 0 <= k < cycles_of(g)[c].len() ==> cycles_of(g)[c][k]
                    < g.len(),
            c <= groups@.len(),
            out@.map_values(|c: Vec<usize>| c@) == component_cycles(ms, c as int),
        decreases groups@.len() - c,
    {
        let group = &groups[c];
        assert(group@ == cycles_of(g)[c as int]);
        if group.len() >= 2 {
            let mut names: Vec<String> = Vec::new();
            let mut k: usize = 0;
            while k < group.len()
                invariant
                    group@ == cycles_of(g)[c as int],
                    forall|k: int| 0 <= k < group@.len() ==> group@[k] < modules@.len(),
                    k <= group@.len(),
                    names@.map_values(|s: String| s@) =~= named_cycle(ms, group@.take(k as int)),
                    ms == modules@,
                decreases group@.len() - k,
            {
                let j = group[k];
                let nm = modules[j].name.clone();
                let ghost before = names@.map_values(|s: String| s@);
                names.push(nm);
                assert(names@.map_values(|s: String| s@) =~= before.push(nm@));
                assert(group@.take(k + 1) =~= group@.take(k as int).push(j));
                assert(names_of(ms)[j as int] == nm@);
                k = k + 1;
            }
            assert(group@.take(k as int) =~= group@);
            let p = least_position(&names);
            let s = group[p];
            assert(s as int == least_member(ms, group@));
            let ghost before = out@.map_values(|c: Vec<usize>| c@);
            match cycle_through(graph, s) {
                Some(cy) => {
                    out.push(cy);
                    assert(out@.map_values(|c: Vec<usize>| c@) =~= before.push(cy@));
                },
                None => {},
            }
        }
        c = c + 1;
    }
    let ghost base = out@.map_values(|c: Vec<usize>| c@);
    let n = modules.len();
    let mut v: usize = 0;
    while v < n
        invariant
            n == g.len(),
            g == graph@,
            v <= n,
            base == component_cycles(ms, cycles_of(g).len() as int),
            out@.map_values(|c: Vec<usize>| c@) == base + self_loops(g, v as int),
        decreases n - v,
    {
        if edge_between(graph, v, v) {
            let mut one: Vec<usize> = Vec::new();
            one.push(v);
            let ghost before = out@.map_values(|c: Vec<usize>| c@);
            out.push(one);
            assert(out@.map_values(|c: Vec<usize>| c@) =~= before.push(seq![v]));
            assert(base + self_loops(g, v + 1) =~= (base + self_loops(g, v as int)).push(seq![v]));
        }
        v = v + 1;
    }
    out
}

/// The analyzer of one project; the records it analyzes are handed in by
/// the module extractor.
pub struct AngularAnalyzer {
    project_path: String,
}

impl AngularAnalyzer {
    /// The project root, as characters.
    pub closed spec fn path_view(&self) -> Seq<char> {
        self.project_path@
    }

    pub fn new(project_path: &str) -> (r: Self)
        ensures
            r.path_view() == project_path@,
    {
        AngularAnalyzer { project_path: project_path.to_owned() }
    }

    /// The root directory of the analyzed project.
    pub fn project_path(&self) -> (r: &String)
        ensures
            r@ == self.path_view(),
    {
        &self.project_path
    }

    /// Registers the records, builds the graph, and reports findings,
    /// cyclic components and metrics.
    pub fn analyze(&self, records: Vec<ModuleInfo>) -> (r: AnalysisResult)
        ensures
            is_analysis_of(records@, r),
    {
        let registry = ModuleRegistry::register(records);
        let (modules, name_collisions) = registry.into_parts();
        let n = modules.len();
        let graph = DependencyGraph::build(&modules);
        proof {
            assert(n == modules@.len());
            lemma_graph_edges_within(modules@);
        }
        let dependency_violations = detect_violations(&modules, &graph);
        let reach = Reachability::of_graph(&graph);
        let groups = find_cycles(&reach);
        proof {
            lemma_cycle_members_within(graph@);
        }
        let cycles = representative_cycles(&modules, &graph, &groups);
        proof {
            lemma_reported_cycles_are_cycles(modules@);
        }
        proof {
            assert forall|c: int, k: int|
                0 <= c < cycles@.len() && 0 <= k < cycles@[c]@.len() implies cycles@[c]@[k]
                < modules@.len() by {
                assert(cycles@.map_values(|c: Vec<usize>| c@)[c] == cycles@[c]@);
            }
        }
        let circular_dependencies = name_cycles(&modules, &cycles);
        let depth = max_dependency_depth(&reach, &graph);
        let metrics = compute_metrics(&modules, &graph, depth);
        AnalysisResult { modules, name_collisions, dependency_violations, circular_dependencies, metrics }
    }

    /// Renders the modules and the edges among them as a DOT digraph,
    /// coloured by layer.
    pub fn generate_dot_graph(&self, modules: &Vec<ModuleInfo>) -> (r: String)
        ensures
            r@ == dot_of(modules@),
    {
        dot_graph(modules)
    }
}

} // verus!
