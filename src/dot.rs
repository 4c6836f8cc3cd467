use vstd::prelude::*;
use vstd::string::StringExecFns;
use crate::model::{ModuleInfo, ModuleType, names_of, position_of};

verus! {

/// Fill colour of a node, by layer.
pub open spec fn color_of(t: ModuleType) -> Seq<char> {
    match t {
        ModuleType::Core => "lightblue"@,
        ModuleType::Shared => "lightgreen"@,
        ModuleType::Feature => "lightyellow"@,
        ModuleType::Unknown => "lightgray"@,
    }
}

/// The node statement of one module.
pub open spec fn node_line(m: ModuleInfo) -> Seq<char> {
    "  \""@ + m.name@ + "\" [fillcolor="@ + color_of(m.module_type) + " style=filled];\n"@
}

/// The node statements of the first `k` modules.
pub open spec fn node_lines(ms: Seq<ModuleInfo>, k: int) -> Seq<char>
    decreases k,
{
    if k <= 0 {
        seq![]
    } else {
        node_lines(ms, k - 1) + node_line(ms[k - 1])
    }
}

/// The edge statements of module `from` for the first `k` of its declared
/// dependencies; a name that no module has gets none.
pub open spec fn dep_lines(names: Seq<Seq<char>>, from: Seq<char>, deps: Seq<Seq<char>>, k: int) -> Seq<
    char,
>
    decreases k,
{
    if k <= 0 {
        seq![]
    } else {
        let prev = dep_lines(names, from, deps, k - 1);
        if names.contains(deps[k - 1]) {
            prev + "  \""@ + from + "\" -> \""@ + deps[k - 1] + "\";\n"@
        } else {
            prev
        }
    }
}

/// The edge statements of the first `k` modules.
pub open spec fn edge_lines(ms: Seq<ModuleInfo>, k: int) -> Seq<char>
    decreases k,
{
    if k <= 0 {
        seq![]
    } else {
        edge_lines(ms, k - 1) + dep_lines(
            names_of(ms),
            ms[k - 1].name@,
            ms[k - 1].dependency_names(),
            ms[k - 1].dependencies@.len() as int,
        )
    }
}

/// The whole graph description of `ms`.
pub open spec fn dot_of(ms: Seq<ModuleInfo>) -> Seq<char> {
    "digraph AngularModules {\n  rankdir=TB;\n  node [shape=box];\n\n"@ + node_lines(ms, ms.len() as int)
        + "\n"@ + edge_lines(ms, ms.len() as int) + "}\n"@
}

fn color(t: ModuleType) -> (r: &'static str)
    ensures
        r@ == color_of(t),
{
    match t {
        ModuleType::Core => "lightblue",
        ModuleType::Shared => "lightgreen",
        ModuleType::Feature => "lightyellow",
        ModuleType::Unknown => "lightgray",
    }
}

/// Renders the modules and the edges among them as a DOT digraph.
pub fn dot_graph(modules: &Vec<ModuleInfo>) -> (r: String)
    ensures
        r@ == dot_of(modules@),
{
    let mut dot = String::from_str("digraph AngularModules {\n");
    dot.append("  rankdir=TB;\n");
    dot.append("  node [shape=box];\n\n");
    proof {
        reveal_strlit("digraph AngularModules {\n");
        reveal_strlit("  rankdir=TB;\n");
        reveal_strlit("  node [shape=box];\n\n");
        reveal_strlit("digraph AngularModules {\n  rankdir=TB;\n  node [shape=box];\n\n");
        assert(dot@ =~= "digraph AngularModules {\n  rankdir=TB;\n  node [shape=box];\n\n"@);
    }
    let ghost head = dot@;
    let mut i: usize = 0;
    while i < modules.len()
        invariant
            i <= modules@.len(),
            dot@ == head + node_lines(modules@, i as int),
        decreases modules@.len() - i,
    {
        let m = &modules[i];
        dot.append("  \"");
        dot.append(m.name.as_str());
        dot.append("\" [fillcolor=");
        dot.append(color(m.module_type));
        dot.append(" style=filled];\n");
        assert(dot@ =~= head + node_lines(modules@, i + 1));
        i = i + 1;
    }
    dot.append("\n");
    let ghost mid = dot@;
    assert(mid =~= head + node_lines(modules@, modules@.len() as int) + "\n"@);
    let mut i: usize = 0;
    while i < modules.len()
        invariant
            i <= modules@.len(),
            dot@ == mid + edge_lines(modules@, i as int),
        decreases modules@.len() - i,
    {
        let m = &modules[i];
        let ghost before = dot@;
        let mut k: usize = 0;
        while k < m.dependencies.len()
            invariant
                k <= m.dependencies@.len(),
                dot@ == before + dep_lines(names_of(modules@), m.name@, m.dependency_names(), k as int),
            decreases m.dependencies@.len() - k,
        {
            let d = &m.dependencies[k];
            assert(m.dependency_names()[k as int] == d@);
            if let Some(p) = position_of(modules, d) {
                assert(names_of(modules@)[p as int] == d@);
                dot.append("  \"");
                dot.append(m.name.as_str());
                dot.append("\" -> \"");
                dot.append(d.as_str());
                dot.append("\";\n");
                assert(dot@ =~= before + dep_lines(names_of(modules@), m.name@, m.dependency_names(), k + 1));
            }
            k = k + 1;
        }
        assert(dot@ =~= mid + edge_lines(modules@, i + 1));
        i = i + 1;
    }
    dot.append("}\n");
    assert(dot@ =~= dot_of(modules@));
    dot
}

/// The edge statement from `from` to `to`.
pub open spec fn edge_line(from: Seq<char>, to: Seq<char>) -> Seq<char> {
    "  \""@ + from + "\" -> \""@ + to + "\";\n"@
}

/// The edge statements from `from` to each of `ds`, in order.
pub open spec fn lines_to(from: Seq<char>, ds: Seq<Seq<char>>) -> Seq<char>
    decreases ds.len(),
{
    if ds.len() == 0 {
        seq![]
    } else {
        lines_to(from, ds.drop_last()) + edge_line(from, ds.last())
    }
}

/// The first `k` declared dependencies that name a module, in order.
pub open spec fn known_deps(names: Seq<Seq<char>>, deps: Seq<Seq<char>>, k: int) -> Seq<Seq<char>>
    decreases k,
{
    if k <= 0 {
        seq![]
    } else if names.contains(deps[k - 1]) {
        known_deps(names, deps, k - 1).push(deps[k - 1])
    } else {
        known_deps(names, deps, k - 1)
    }
}

/// No dangling edges in the graph description: the edge statements of a
/// module are one line per declared dependency that names a registered
/// module, in declaration order, and nothing else.
pub proof fn lemma_dot_edges_join_modules(
    names: Seq<Seq<char>>,
    from: Seq<char>,
    deps: Seq<Seq<char>>,
    k: int,
)
    requires
        0 <= k <= deps.len(),
    ensures
        dep_lines(names, from, deps, k) == lines_to(from, known_deps(names, deps, k)),
        forall|x: int|
            0 <= x < known_deps(names, deps, k).len() ==> names.contains(
                #[trigger] known_deps(names, deps, k)[x],
            ) && deps.contains(known_deps(names, deps, k)[x]),
    decreases k,
{
    if k > 0 {
        lemma_dot_edges_join_modules(names, from, deps, k - 1);
        let r = known_deps(names, deps, k - 1);
        if names.contains(deps[k - 1]) {
            let d = deps[k - 1];
            assert(r.push(d).drop_last() =~= r);
            assert(dep_lines(names, from, deps, k) =~= lines_to(from, r.push(d)));
            assert forall|x: int| 0 <= x < r.push(d).len() implies names.contains(
                #[trigger] r.push(d)[x],
            ) && deps.contains(r.push(d)[x]) by {
                if x < r.len() {
                    assert(r.push(d)[x] == r[x]);
                }
            }
        }
    }
}

} // verus!
