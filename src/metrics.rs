use vstd::prelude::*;
use vstd::set_lib::{lemma_int_range, lemma_len_subset, set_int_range};
use crate::graph::{DependencyGraph, edges_within};
use crate::model::{ModuleInfo, ModuleType};

verus! {

/// Number of modules of layer `t`.
pub open spec fn count_layer(ms: Seq<ModuleInfo>, t: ModuleType) -> nat
    decreases ms.len(),
{
    if ms.len() == 0 {
        0
    } else {
        count_layer(ms.drop_last(), t) + if ms.last().module_type == t {
            1nat
        } else {
            0nat
        }
    }
}

/// Number of edges: the sum of the out-degrees.
pub open spec fn edge_count(g: Seq<Seq<usize>>) -> nat
    decreases g.len(),
{
    if g.len() == 0 {
        0
    } else {
        edge_count(g.drop_last()) + g.last().len()
    }
}

/// A graph without self-loops and without two edges between the same pair.
pub open spec fn is_simple(g: Seq<Seq<usize>>) -> bool {
    forall|i: int|
        0 <= i < g.len() ==> {
            &&& (#[trigger] g[i]).no_duplicates()
            &&& forall|k: int| 0 <= k < g[i].len() ==> g[i][k] != i
        }
}

/// Every module falls in exactly one of the four layers.
pub proof fn lemma_layer_counts_sum(ms: Seq<ModuleInfo>)
    ensures
        count_layer(ms, ModuleType::Core) + count_layer(ms, ModuleType::Shared) + count_layer(
            ms,
            ModuleType::Feature,
        ) + count_layer(ms, ModuleType::Unknown) == ms.len(),
    decreases ms.len(),
{
    if ms.len() > 0 {
        lemma_layer_counts_sum(ms.drop_last());
    }
}

proof fn lemma_row_bound(row: Seq<usize>, i: int, n: int)
    requires
        0 <= i < n,
        row.no_duplicates(),
        forall|k: int| 0 <= k < row.len() ==> row[k] < n && row[k] != i,
    ensures
        row.len() <= n - 1,
{
    let ints = row.map_values(|x: usize| x as int);
    assert(ints.no_duplicates()) by {
        assert forall|a: int, b: int| 0 <= a < ints.len() && 0 <= b < ints.len() && a != b implies ints[a]
            != ints[b] by {
            assert(row[a] != row[b]);
        }
    }
    ints.unique_seq_to_set();
    lemma_int_range(0, n);
    let allowed = set_int_range(0, n).remove(i);
    assert(ints.to_set().subset_of(allowed)) by {
        assert forall|x: int| ints.to_set().contains(x) implies allowed.contains(x) by {
            let k = choose|k: int| 0 <= k < ints.len() && ints[k] == x;
        }
    }
    lemma_len_subset(ints.to_set(), allowed);
}

proof fn lemma_edge_count_bound(g: Seq<Seq<usize>>, b: int)
    requires
        b >= 0,
        forall|i: int| 0 <= i < g.len() ==> #[trigger] g[i].len() <= b,
    ensures
        edge_count(g) <= g.len() * b,
    decreases g.len(),
{
    if g.len() > 0 {
        lemma_edge_count_bound(g.drop_last(), b);
        assert(g.last().len() <= b);
        assert((g.len() - 1) * b + b == g.len() * b) by (nonlinear_arith);
    }
}

/// Density bound: in a graph without self-loops or repeated edges there are
/// at most `n * (n - 1)` edges, so the coupling factor lies in [0, 1].
pub proof fn lemma_coupling_at_most_one(g: Seq<Seq<usize>>)
    requires
        g.len() > 1,
        edges_within(g),
        is_simple(g),
    ensures
        edge_count(g) <= g.len() * (g.len() - 1),
{
    assert forall|i: int| 0 <= i < g.len() implies #[trigger] g[i].len() <= g.len() - 1 by {
        lemma_row_bound(g[i], i, g.len() as int);
    }
    lemma_edge_count_bound(g, g.len() - 1);
}

/// Aggregate structural values of one analysis run.
#[derive(Clone, Copy, Debug, PartialEq, Eq, Structural)]
pub struct ArchitectureMetrics {
    pub total_modules: usize,
    pub core_modules: usize,
    pub shared_modules: usize,
    pub feature_modules: usize,
    pub unknown_modules: usize,
    /// Number of edges of the dependency graph, self-loops included.
    pub dependency_edges: u128,
    pub max_dependency_depth: usize,
}

impl ArchitectureMetrics {
    /// Average out-degree as a fraction `(numerator, denominator)`;
    /// `(0, 1)` when there is no module.
    pub fn average_dependencies_per_module(&self) -> (r: (u128, u128))
        ensures
            self.total_modules == 0 ==> r == (0u128, 1u128),
            self.total_modules > 0 ==> r == (self.dependency_edges, self.total_modules as u128),
    {
        if self.total_modules == 0 {
            (0, 1)
        } else {
            (self.dependency_edges, self.total_modules as u128)
        }
    }

    /// Edge density `edges / (n * (n - 1))` as a fraction
    /// `(numerator, denominator)`; `(0, 1)` when there are fewer than two
    /// modules.
    pub fn coupling_factor(&self) -> (r: (u128, u128))
        ensures
            self.total_modules <= 1 ==> r == (0u128, 1u128),
            self.total_modules > 1 ==> r == (
                self.dependency_edges,
                (self.total_modules * (self.total_modules - 1)) as u128,
            ),
    {
        if self.total_modules <= 1 {
            (0, 1)
        } else {
            let n = self.total_modules as u128;
            assert(n * (n - 1) <= u128::MAX) by (nonlinear_arith)
                requires
                    n <= usize::MAX,
                    n > 1,
            ;
            (self.dependency_edges, n * (n - 1))
        }
    }
}

/// The counts and the edge total that `compute_metrics` reports.
pub open spec fn counts_match(m: ArchitectureMetrics, ms: Seq<ModuleInfo>, g: Seq<Seq<usize>>) -> bool {
    &&& m.total_modules == ms.len()
    &&& m.core_modules == count_layer(ms, ModuleType::Core)
    &&& m.shared_modules == count_layer(ms, ModuleType::Shared)
    &&& m.feature_modules == count_layer(ms, ModuleType::Feature)
    &&& m.unknown_modules == count_layer(ms, ModuleType::Unknown)
    &&& m.dependency_edges == edge_count(g)
}

/// Counts the modules by layer and the edges of the graph; the depth is
/// handed in.
pub fn compute_metrics(modules: &Vec<ModuleInfo>, graph: &DependencyGraph, depth: usize) -> (r:
    ArchitectureMetrics)
    requires
        graph@.len() == modules@.len(),
    ensures
        counts_match(r, modules@, graph@),
        r.max_dependency_depth == depth,
        r.total_modules == r.core_modules + r.shared_modules + r.feature_modules
            + r.unknown_modules,
{
    let n = modules.len();
    let ghost ms = modules@;
    let ghost g = graph@;
    let mut core: usize = 0;
    let mut shared: usize = 0;
    let mut feature: usize = 0;
    let mut unknown: usize = 0;
    let mut edges: u128 = 0;
    let mut i: usize = 0;
    while i < n
        invariant
            n == ms.len(),
            ms == modules@,
            g == graph@,
            g.len() == n,
            i <= n,
            core == count_layer(ms.take(i as int), ModuleType::Core),
            shared == count_layer(ms.take(i as int), ModuleType::Shared),
            feature == count_layer(ms.take(i as int), ModuleType::Feature),
            unknown == count_layer(ms.take(i as int), ModuleType::Unknown),
            core + shared + feature + unknown == i,
            edges == edge_count(g.take(i as int)),
            edges <= i * (usize::MAX as int),
        decreases n - i,
    {
        assert(ms.take(i + 1).drop_last() =~= ms.take(i as int));
        assert(g.take(i + 1).drop_last() =~= g.take(i as int));
        match modules[i].module_type {
            ModuleType::Core => core = core + 1,
            ModuleType::Shared => shared = shared + 1,
            ModuleType::Feature => feature = feature + 1,
            ModuleType::Unknown => unknown = unknown + 1,
        }
        let deg = graph.successors(i).len();
        assert(edges + deg <= (i + 1) * (usize::MAX as int) <= u128::MAX) by (nonlinear_arith)
            requires
                edges <= i * (usize::MAX as int),
                deg <= usize::MAX,
                i < usize::MAX,
        ;
        edges = edges + deg as u128;
        i = i + 1;
    }
    assert(ms.take(n as int) =~= ms);
    assert(g.take(n as int) =~= g);
    ArchitectureMetrics {
        total_modules: n,
        core_modules: core,
        shared_modules: shared,
        feature_modules: feature,
        unknown_modules: unknown,
        dependency_edges: edges,
        max_dependency_depth: depth,
    }
}

} // verus!
