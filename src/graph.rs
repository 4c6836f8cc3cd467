use vstd::prelude::*;
use crate::model::{
    DependencyViolation, ModuleInfo, ModuleType, ViolationType, index_in, layers_of, names_of,
    position_of,
};

verus! {

/// The module indices that the declared dependencies resolve to, in order;
/// a name that no module has is left out.
pub open spec fn resolved(names: Seq<Seq<char>>, deps: Seq<Seq<char>>) -> Seq<usize>
    decreases deps.len(),
{
    if deps.len() == 0 {
        seq![]
    } else {
        let r = resolved(names, deps.drop_last());
        if names.contains(deps.last()) {
            r.push(index_in(names, deps.last()) as usize)
        } else {
            r
        }
    }
}

/// Adjacency of the dependency graph of `ms`: row `i` lists the targets of
/// module `i`, in declaration order.
pub open spec fn graph_of(ms: Seq<ModuleInfo>) -> Seq<Seq<usize>> {
    Seq::new(ms.len(), |i: int| resolved(names_of(ms), ms[i].dependency_names()))
}

/// Every edge of `g` ends at one of its `g.len()` nodes.
pub open spec fn edges_within(g: Seq<Seq<usize>>) -> bool {
    forall|i: int, k: int| 0 <= i < g.len() && 0 <= k < g[i].len() ==> g[i][k] < g.len()
}

/// Whether `g` has an edge from `i` to `j`.
pub open spec fn has_edge(g: Seq<Seq<usize>>, i: int, j: int) -> bool {
    0 <= i < g.len() && 0 <= j && g[i].contains(j as usize)
}

proof fn lemma_resolved_within(names: Seq<Seq<char>>, deps: Seq<Seq<char>>)
    requires
        names.len() <= usize::MAX,
    ensures
        forall|k: int| 0 <= k < resolved(names, deps).len() ==> resolved(names, deps)[k] < names.len(),
    decreases deps.len(),
{
    if deps.len() > 0 {
        lemma_resolved_within(names, deps.drop_last());
        if names.contains(deps.last()) {
            let w = choose|k: int| 0 <= k < names.len() && names[k] == deps.last();
            assert(0 <= index_in(names, deps.last()) < names.len());
            let r = resolved(names, deps.drop_last());
            let x = index_in(names, deps.last()) as usize;
            assert(resolved(names, deps) == r.push(x));
            assert forall|k: int| 0 <= k < r.push(x).len() implies r.push(x)[k] < names.len() by {
                if k < r.len() {
                    assert(r.push(x)[k] == r[k]);
                }
            }
        } else {
            assert(resolved(names, deps) == resolved(names, deps.drop_last()));
        }
    }
}

/// No dangling edges: every edge of the graph of `ms` joins two of its modules.
pub proof fn lemma_graph_edges_within(ms: Seq<ModuleInfo>)
    requires
        ms.len() <= usize::MAX,
    ensures
        edges_within(graph_of(ms)),
        graph_of(ms).len() == ms.len(),
{
    assert forall|i: int, k: int|
        0 <= i < graph_of(ms).len() && 0 <= k < graph_of(ms)[i].len() implies graph_of(
        ms,
    )[i][k] < ms.len() by {
        lemma_resolved_within(names_of(ms), ms[i].dependency_names());
    }
}

/// The resolved targets of one module.
fn resolve_targets(modules: &Vec<ModuleInfo>, m: &ModuleInfo) -> (r: Vec<usize>)
    requires
        names_of(modules@).no_duplicates(),
    ensures
        r@ == resolved(names_of(modules@), m.dependency_names()),
{
    let mut r: Vec<usize> = Vec::new();
    let mut p: usize = 0;
    let ghost names = names_of(modules@);
    while p < m.dependencies.len()
        invariant
            p <= m.dependencies@.len(),
            names == names_of(modules@),
            names.no_duplicates(),
            r@ == resolved(names, m.dependency_names().take(p as int)),
        decreases m.dependencies@.len() - p,
    {
        let ghost deps = m.dependency_names();
        assert(deps.take(p + 1).drop_last() =~= deps.take(p as int));
        assert(deps.take(p + 1).last() == m.dependencies@[p as int]@);
        match position_of(modules, &m.dependencies[p]) {
            Some(k) => {
                proof {
                    let d = m.dependencies@[p as int]@;
                    assert(names[k as int] == d);
                    let c = index_in(names, d);
                    assert(0 <= c < names.len() && names[c] == d);
                }
                r.push(k);
            },
            None => {},
        }
        p = p + 1;
    }
    assert(m.dependency_names().take(p as int) =~= m.dependency_names());
    r
}

/// The directed dependency graph over the modules of one registry, by index.
pub struct DependencyGraph {
    adjacency: Vec<Vec<usize>>,
}

impl View for DependencyGraph {
    type V = Seq<Seq<usize>>;

    closed spec fn view(&self) -> Seq<Seq<usize>> {
        self.adjacency@.map_values(|row: Vec<usize>| row@)
    }
}

impl DependencyGraph {
    /// Builds the graph: an edge `i -> t` for each declared dependency of
    /// module `i` that names module `t`; other names are dropped.
    pub fn build(modules: &Vec<ModuleInfo>) -> (g: Self)
        requires
            names_of(modules@).no_duplicates(),
        ensures
            g@ == graph_of(modules@),
            edges_within(g@),
    {
        let mut adjacency: Vec<Vec<usize>> = Vec::new();
        let mut i: usize = 0;
        while i < modules.len()
            invariant
                i <= modules@.len(),
                names_of(modules@).no_duplicates(),
                adjacency@.len() == i,
                forall|j: int| 0 <= j < i ==> adjacency@[j]@ == graph_of(modules@)[j],
            decreases modules@.len() - i,
        {
            let row = resolve_targets(modules, &modules[i]);
            adjacency.push(row);
            i = i + 1;
        }
        let g = DependencyGraph { adjacency };
        assert(g@ =~= graph_of(modules@));
        proof {
            lemma_graph_edges_within(modules@);
        }
        g
    }

    /// Number of nodes.
    pub fn node_count(&self) -> (r: usize)
        ensures
            r == self@.len(),
    {
        self.adjacency.len()
    }

    /// The targets of node `i`, in declaration order.
    pub fn successors(&self, i: usize) -> (r: &Vec<usize>)
        requires
            i < self@.len(),
        ensures
            r@ == self@[i as int],
    {
        &self.adjacency[i]
    }
}

/// The rule table: which layer pairs are forbidden along an edge.
pub open spec fn rule_for(from: ModuleType, to: ModuleType, same_module: bool) -> Option<ViolationType> {
    match (from, to) {
        (ModuleType::Core, ModuleType::Feature) => Some(ViolationType::CoreDependsOnFeature),
        (ModuleType::Shared, ModuleType::Feature) => Some(ViolationType::SharedDependsOnFeature),
        (ModuleType::Feature, ModuleType::Feature) => if same_module {
            None
        } else {
            Some(ViolationType::FeatureToFeatureDirect)
        },
        _ => None,
    }
}

/// The fixed description of each kind of finding.
pub open spec fn description_of(kind: ViolationType) -> Seq<char> {
    match kind {
        ViolationType::CoreDependsOnFeature => "Core module depends on Feature module"@,
        ViolationType::SharedDependsOnFeature => "Shared module depends on Feature module"@,
        ViolationType::FeatureToFeatureDirect => "Feature module depends directly on another Feature module"@,
        ViolationType::CircularDependency => "Module takes part in a circular dependency"@,
    }
}

/// Findings on the first `k` edges of module `i`.
pub open spec fn edge_findings(
    ms: Seq<ModuleInfo>,
    g: Seq<Seq<usize>>,
    i: int,
    k: int,
) -> Seq<(Seq<char>, Seq<char>, ViolationType, Seq<char>)>
    decreases k,
{
    if k <= 0 {
        seq![]
    } else {
        let prev = edge_findings(ms, g, i, k - 1);
        let t = g[i][k - 1] as int;
        match rule_for(layers_of(ms)[i], layers_of(ms)[t], i == t) {
            Some(v) => prev.push((names_of(ms)[i], names_of(ms)[t], v, description_of(v))),
            None => prev,
        }
    }
}

/// Findings on every edge of the first `n` modules, module by module.
pub open spec fn findings_upto(ms: Seq<ModuleInfo>, g: Seq<Seq<usize>>, n: int) -> Seq<
    (Seq<char>, Seq<char>, ViolationType, Seq<char>),
>
    decreases n,
{
    if n <= 0 {
        seq![]
    } else {
        findings_upto(ms, g, n - 1) + edge_findings(ms, g, n - 1, g[n - 1].len() as int)
    }
}

/// Every finding of the graph `g` over `ms`, in edge order.
pub open spec fn findings(ms: Seq<ModuleInfo>, g: Seq<Seq<usize>>) -> Seq<
    (Seq<char>, Seq<char>, ViolationType, Seq<char>),
> {
    findings_upto(ms, g, ms.len() as int)
}

fn description(kind: ViolationType) -> (r: String)
    ensures
        r@ == description_of(kind),
{
    match kind {
        ViolationType::CoreDependsOnFeature => "Core module depends on Feature module".to_owned(),
        ViolationType::SharedDependsOnFeature => "Shared module depends on Feature module".to_owned(),
        ViolationType::FeatureToFeatureDirect => "Feature module depends directly on another Feature module".to_owned(),
        ViolationType::CircularDependency => "Module takes part in a circular dependency".to_owned(),
    }
}

fn rule(from: ModuleType, to: ModuleType, same_module: bool) -> (r: Option<ViolationType>)
    ensures
        r == rule_for(from, to, same_module),
{
    match (from, to) {
        (ModuleType::Core, ModuleType::Feature) => Some(ViolationType::CoreDependsOnFeature),
        (ModuleType::Shared, ModuleType::Feature) => Some(ViolationType::SharedDependsOnFeature),
        (ModuleType::Feature, ModuleType::Feature) => if same_module {
            None
        } else {
            Some(ViolationType::FeatureToFeatureDirect)
        },
        _ => None,
    }
}

/// Evaluates the layering rules over every edge, in registry order and then
/// declaration order.
pub fn detect_violations(modules: &Vec<ModuleInfo>, graph: &DependencyGraph) -> (r: Vec<
    DependencyViolation,
>)
    requires
        graph@.len() == modules@.len(),
        edges_within(graph@),
    ensures
        r@.map_values(|v: DependencyViolation| v@) == findings(modules@, graph@),
{
    let mut out: Vec<DependencyViolation> = Vec::new();
    let mut i: usize = 0;
    while i < modules.len()
        invariant
            i <= modules@.len(),
            graph@.len() == modules@.len(),
            edges_within(graph@),
            out@.map_values(|v: DependencyViolation| v@) == findings_upto(modules@, graph@, i as int),
        decreases modules@.len() - i,
    {
        let row = graph.successors(i);
        let ghost base = out@.map_values(|v: DependencyViolation| v@);
        let mut k: usize = 0;
        while k < row.len()
            invariant
                i < modules@.len(),
                k <= row@.len(),
                row@ == graph@[i as int],
                graph@.len() == modules@.len(),
                edges_within(graph@),
                out@.map_values(|v: DependencyViolation| v@) == base + edge_findings(
                    modules@,
                    graph@,
                    i as int,
                    k as int,
                ),
            decreases row@.len() - k,
        {
            let t = row[k];
            assert(t < modules@.len());
            let from = &modules[i];
            let to = &modules[t];
            match rule(from.module_type, to.module_type, i == t) {
                Some(kind) => {
                    let v = DependencyViolation {
                        from_module: from.name.clone(),
                        to_module: to.name.clone(),
                        violation_type: kind,
                        description: description(kind),
                    };
                    let ghost before = out@.map_values(|v: DependencyViolation| v@);
                    out.push(v);
                    assert(out@.map_values(|v: DependencyViolation| v@) =~= before.push(v@));
                    assert(layers_of(modules@)[i as int] == from.module_type);
                    assert(layers_of(modules@)[t as int] == to.module_type);
                    assert(names_of(modules@)[i as int] == from.name@);
                    assert(names_of(modules@)[t as int] == to.name@);
                },
                None => {
                    assert(layers_of(modules@)[i as int] == from.module_type);
                    assert(layers_of(modules@)[t as int] == to.module_type);
                },
            }
            k = k + 1;
        }
        i = i + 1;
    }
    out
}

/// A finding names two registered modules, the first of which declares the
/// second as a dependency, and is a layering finding.
pub open spec fn joins_modules(
    ms: Seq<ModuleInfo>,
    f: (Seq<char>, Seq<char>, ViolationType, Seq<char>),
) -> bool {
    &&& exists|i: int, j: int|
        0 <= i < ms.len() && 0 <= j < ms.len() && ms[i].name@ == f.0 && ms[j].name@ == f.1
            && ms[i].dependency_names().contains(f.1)
    &&& f.2 != ViolationType::CircularDependency
}

proof fn lemma_resolved_declared(names: Seq<Seq<char>>, deps: Seq<Seq<char>>)
    requires
        names.len() <= usize::MAX,
    ensures
        forall|k: int|
            0 <= k < resolved(names, deps).len() ==> deps.contains(names[resolved(names, deps)[k] as int])
                && resolved(names, deps)[k] < names.len(),
    decreases deps.len(),
{
    lemma_resolved_within(names, deps);
    if deps.len() > 0 {
        let d = deps.drop_last();
        lemma_resolved_declared(names, d);
        let r = resolved(names, d);
        assert forall|k: int| 0 <= k < r.len() implies deps.contains(names[r[k] as int]) by {
            let w = choose|w: int| 0 <= w < d.len() && d[w] == names[r[k] as int];
            assert(deps[w] == d[w]);
        }
        if names.contains(deps.last()) {
            let x = index_in(names, deps.last()) as usize;
            let w = choose|w: int| 0 <= w < names.len() && names[w] == deps.last();
            assert(0 <= index_in(names, deps.last()) < names.len());
            assert(names[x as int] == deps.last());
            assert(deps[deps.len() - 1] == deps.last());
            assert forall|k: int| 0 <= k < r.push(x).len() implies deps.contains(names[r.push(x)[k] as int]) by {
                if k < r.len() {
                    assert(r.push(x)[k] == r[k]);
                }
            }
        }
    }
}

proof fn lemma_edge_findings_join(ms: Seq<ModuleInfo>, i: int, k: int)
    requires
        ms.len() <= usize::MAX,
        0 <= i < ms.len(),
        k <= graph_of(ms)[i].len(),
    ensures
        forall|x: int|
            0 <= x < edge_findings(ms, graph_of(ms), i, k).len() ==> joins_modules(
                ms,
                #[trigger] edge_findings(ms, graph_of(ms), i, k)[x],
            ),
    decreases k,
{
    let g = graph_of(ms);
    if k > 0 {
        lemma_edge_findings_join(ms, i, k - 1);
        lemma_resolved_declared(names_of(ms), ms[i].dependency_names());
        let prev = edge_findings(ms, g, i, k - 1);
        let t = g[i][k - 1] as int;
        match rule_for(layers_of(ms)[i], layers_of(ms)[t], i == t) {
            Some(v) => {
                let f = (names_of(ms)[i], names_of(ms)[t], v, description_of(v));
                assert(ms[i].name@ == f.0 && ms[t].name@ == f.1);
                assert(joins_modules(ms, f));
                assert forall|x: int| 0 <= x < prev.push(f).len() implies joins_modules(
                    ms,
                    #[trigger] prev.push(f)[x],
                ) by {
                    if x < prev.len() {
                        assert(prev.push(f)[x] == prev[x]);
                    }
                }
            },
            None => {},
        }
    }
}

proof fn lemma_findings_upto_join(ms: Seq<ModuleInfo>, n: int)
    requires
        ms.len() <= usize::MAX,
        n <= ms.len(),
    ensures
        forall|x: int|
            0 <= x < findings_upto(ms, graph_of(ms), n).len() ==> joins_modules(
                ms,
                #[trigger] findings_upto(ms, graph_of(ms), n)[x],
            ),
    decreases n,
{
    let g = graph_of(ms);
    if n > 0 {
        lemma_findings_upto_join(ms, n - 1);
        lemma_edge_findings_join(ms, n - 1, g[n - 1].len() as int);
        let a = findings_upto(ms, g, n - 1);
        let b = edge_findings(ms, g, n - 1, g[n - 1].len() as int);
        assert forall|x: int| 0 <= x < (a + b).len() implies joins_modules(ms, #[trigger] (a + b)[x]) by {
            if x < a.len() {
                assert((a + b)[x] == a[x]);
            } else {
                assert((a + b)[x] == b[x - a.len()]);
            }
        }
    }
}

/// No dangling findings: each finding names two registered modules, the
/// first of which declares the second as a dependency, and none is a cycle
/// finding.
pub proof fn lemma_findings_join_modules(ms: Seq<ModuleInfo>)
    requires
        ms.len() <= usize::MAX,
    ensures
        forall|x: int|
            0 <= x < findings(ms, graph_of(ms)).len() ==> joins_modules(
                ms,
                #[trigger] findings(ms, graph_of(ms))[x],
            ),
{
    lemma_findings_upto_join(ms, ms.len() as int);
}

} // verus!
