use angular_analyzer::analyzer::{AnalysisResult, AngularAnalyzer};
use angular_analyzer::graph::{detect_violations, DependencyGraph};
use angular_analyzer::model::{ModuleInfo, ModuleType, ViolationType};
use angular_analyzer::registry::ModuleRegistry;

fn module(name: &str, layer: ModuleType, deps: &[&str]) -> ModuleInfo {
    ModuleInfo {
        path: format!("src/app/{}.module.ts", name.to_lowercase()),
        name: name.to_string(),
        module_type: layer,
        imports: Vec::new(),
        exports: Vec::new(),
        providers: Vec::new(),
        declarations: Vec::new(),
        dependencies: deps.iter().map(|d| d.to_string()).collect(),
    }
}

fn run(records: Vec<ModuleInfo>) -> AnalysisResult {
    AngularAnalyzer::new("/project").analyze(records)
}

fn names(cycle: &[String]) -> Vec<&str> {
    cycle.iter().map(|s| s.as_str()).collect()
}

#[test]
fn layer_counts_add_up() {
    let r = run(vec![
        module("CoreModule", ModuleType::Core, &[]),
        module("SharedModule", ModuleType::Shared, &[]),
        module("UsersModule", ModuleType::Feature, &[]),
        module("AdminModule", ModuleType::Feature, &[]),
        module("MiscModule", ModuleType::Unknown, &[]),
    ]);
    let m = r.metrics;
    assert_eq!(m.total_modules, 5);
    assert_eq!(m.core_modules, 1);
    assert_eq!(m.shared_modules, 1);
    assert_eq!(m.feature_modules, 2);
    assert_eq!(m.unknown_modules, 1);
    assert_eq!(
        m.total_modules,
        m.core_modules + m.shared_modules + m.feature_modules + m.unknown_modules
    );
}

#[test]
fn edges_stay_within_registered_modules() {
    let records = vec![
        module("A", ModuleType::Feature, &["B", "rxjs", "lodash"]),
        module("B", ModuleType::Shared, &["@ngrx/store", "A", "Missing"]),
    ];
    let reg = ModuleRegistry::register(records);
    let g = DependencyGraph::build(reg.all());
    assert_eq!(g.node_count(), 2);
    assert_eq!(g.successors(0), &vec![1usize]);
    assert_eq!(g.successors(1), &vec![0usize]);
    for i in 0..g.node_count() {
        for &t in g.successors(i) {
            assert!(t < g.node_count());
        }
    }
}

#[test]
fn unresolved_dependencies_are_not_edges() {
    let r = run(vec![
        module("A", ModuleType::Core, &["rxjs", "@angular/common"]),
        module("B", ModuleType::Feature, &["C"]),
    ]);
    assert_eq!(r.metrics.dependency_edges, 0);
    assert!(r.dependency_violations.is_empty());
    assert!(r.circular_dependencies.is_empty());
}

#[test]
fn analysis_is_deterministic() {
    let records = || {
        vec![
            module("A", ModuleType::Core, &["B", "C"]),
            module("B", ModuleType::Feature, &["C", "A"]),
            module("C", ModuleType::Feature, &["B"]),
            module("D", ModuleType::Shared, &["C", "D"]),
        ]
    };
    let first = run(records());
    let second = run(records());
    assert_eq!(format!("{:?}", first), format!("{:?}", second));
}

#[test]
fn three_cycle_is_reported_once() {
    let r = run(vec![
        module("A", ModuleType::Feature, &["B"]),
        module("B", ModuleType::Feature, &["C"]),
        module("C", ModuleType::Feature, &["A"]),
        module("D", ModuleType::Shared, &[]),
        module("E", ModuleType::Core, &["D"]),
    ]);
    assert_eq!(r.circular_dependencies.len(), 1);
    assert_eq!(names(&r.circular_dependencies[0]), vec!["A", "B", "C"]);
}

#[test]
fn acyclic_graph_has_no_cycles() {
    let r = run(vec![
        module("A", ModuleType::Core, &["B", "C"]),
        module("B", ModuleType::Shared, &["C"]),
        module("C", ModuleType::Shared, &[]),
    ]);
    assert!(r.circular_dependencies.is_empty());
}

#[test]
fn two_separate_cycles_in_registry_order() {
    let r = run(vec![
        module("P", ModuleType::Shared, &["Q"]),
        module("X", ModuleType::Shared, &["Y"]),
        module("Q", ModuleType::Shared, &["P"]),
        module("Y", ModuleType::Shared, &["X"]),
    ]);
    assert_eq!(r.circular_dependencies.len(), 2);
    assert_eq!(names(&r.circular_dependencies[0]), vec!["P", "Q"]);
    assert_eq!(names(&r.circular_dependencies[1]), vec!["X", "Y"]);
}

#[test]
fn self_loop_is_a_one_node_cycle() {
    let r = run(vec![module("A", ModuleType::Shared, &["A"])]);
    assert_eq!(r.circular_dependencies.len(), 1);
    assert_eq!(names(&r.circular_dependencies[0]), vec!["A"]);
    assert_eq!(r.metrics.dependency_edges, 1);
    assert_eq!(r.metrics.average_dependencies_per_module(), (1, 1));
}

#[test]
fn feature_self_loop_is_no_violation() {
    let r = run(vec![module("A", ModuleType::Feature, &["A"])]);
    assert!(r.dependency_violations.is_empty());
    assert_eq!(r.circular_dependencies.len(), 1);
}

#[test]
fn core_on_feature_is_one_violation() {
    let r = run(vec![
        module("X", ModuleType::Core, &["Y"]),
        module("Y", ModuleType::Feature, &[]),
    ]);
    assert_eq!(r.dependency_violations.len(), 1);
    let v = &r.dependency_violations[0];
    assert_eq!(v.from_module, "X");
    assert_eq!(v.to_module, "Y");
    assert_eq!(v.violation_type, ViolationType::CoreDependsOnFeature);
    assert_eq!(v.description, "Core module depends on Feature module");
}

#[test]
fn shared_on_feature_is_a_violation() {
    let r = run(vec![
        module("S", ModuleType::Shared, &["F", "C"]),
        module("F", ModuleType::Feature, &[]),
        module("C", ModuleType::Core, &[]),
    ]);
    assert_eq!(r.dependency_violations.len(), 1);
    let v = &r.dependency_violations[0];
    assert_eq!((v.from_module.as_str(), v.to_module.as_str()), ("S", "F"));
    assert_eq!(v.violation_type, ViolationType::SharedDependsOnFeature);
    assert_eq!(v.description, "Shared module depends on Feature module");
}

#[test]
fn feature_on_feature_is_a_violation() {
    let r = run(vec![
        module("F1", ModuleType::Feature, &["F2", "S"]),
        module("F2", ModuleType::Feature, &[]),
        module("S", ModuleType::Shared, &[]),
    ]);
    assert_eq!(r.dependency_violations.len(), 1);
    let v = &r.dependency_violations[0];
    assert_eq!((v.from_module.as_str(), v.to_module.as_str()), ("F1", "F2"));
    assert_eq!(v.violation_type, ViolationType::FeatureToFeatureDirect);
    assert_eq!(
        v.description,
        "Feature module depends directly on another Feature module"
    );
}

#[test]
fn violations_follow_edge_order() {
    let records = vec![
        module("S", ModuleType::Shared, &["F2", "F1"]),
        module("C", ModuleType::Core, &["F1"]),
        module("F1", ModuleType::Feature, &[]),
        module("F2", ModuleType::Feature, &[]),
    ];
    let reg = ModuleRegistry::register(records);
    let g = DependencyGraph::build(reg.all());
    let vs = detect_violations(reg.all(), &g);
    let got: Vec<(&str, &str, ViolationType)> = vs
        .iter()
        .map(|v| (v.from_module.as_str(), v.to_module.as_str(), v.violation_type))
        .collect();
    assert_eq!(
        got,
        vec![
            ("S", "F2", ViolationType::SharedDependsOnFeature),
            ("S", "F1", ViolationType::SharedDependsOnFeature),
            ("C", "F1", ViolationType::CoreDependsOnFeature),
        ]
    );
}

#[test]
fn coupling_of_complete_graph_is_one() {
    let r = run(vec![
        module("A", ModuleType::Shared, &["B", "C"]),
        module("B", ModuleType::Shared, &["A", "C"]),
        module("C", ModuleType::Shared, &["A", "B"]),
    ]);
    assert_eq!(r.metrics.coupling_factor(), (6, 6));
}

#[test]
fn coupling_stays_in_unit_range() {
    let r = run(vec![
        module("A", ModuleType::Shared, &["B"]),
        module("B", ModuleType::Shared, &[]),
        module("C", ModuleType::Shared, &["A"]),
        module("D", ModuleType::Shared, &[]),
    ]);
    let (num, den) = r.metrics.coupling_factor();
    assert_eq!((num, den), (2, 12));
    assert!(num <= den);
    assert_eq!(r.metrics.average_dependencies_per_module(), (2, 4));
}

#[test]
fn single_module_has_zero_coupling() {
    let r = run(vec![module("A", ModuleType::Core, &["rxjs"])]);
    assert_eq!(r.metrics.coupling_factor(), (0, 1));
}

#[test]
fn empty_input_gives_empty_result() {
    let r = run(Vec::new());
    assert_eq!(r.metrics.total_modules, 0);
    assert!(r.modules.is_empty());
    assert!(r.dependency_violations.is_empty());
    assert!(r.circular_dependencies.is_empty());
    assert_eq!(r.metrics.coupling_factor(), (0, 1));
    assert_eq!(r.metrics.average_dependencies_per_module(), (0, 1));
    assert_eq!(r.metrics.max_dependency_depth, 0);
}

#[test]
fn chain_depth_is_three() {
    let r = run(vec![
        module("A", ModuleType::Shared, &["B"]),
        module("B", ModuleType::Shared, &["C"]),
        module("C", ModuleType::Shared, &["D"]),
        module("D", ModuleType::Shared, &[]),
    ]);
    assert_eq!(r.metrics.max_dependency_depth, 3);
}

#[test]
fn collapsed_cycle_shortens_depth() {
    let r = run(vec![
        module("A", ModuleType::Shared, &["B"]),
        module("B", ModuleType::Shared, &["C"]),
        module("C", ModuleType::Shared, &["B", "D"]),
        module("D", ModuleType::Shared, &[]),
    ]);
    assert_eq!(r.metrics.max_dependency_depth, 2);
    assert_eq!(r.circular_dependencies.len(), 1);
    assert_eq!(names(&r.circular_dependencies[0]), vec!["B", "C"]);
}

#[test]
fn depth_takes_longest_branch() {
    let r = run(vec![
        module("D", ModuleType::Shared, &[]),
        module("A", ModuleType::Shared, &["D", "B"]),
        module("B", ModuleType::Shared, &["C"]),
        module("C", ModuleType::Shared, &["D"]),
    ]);
    assert_eq!(r.metrics.max_dependency_depth, 3);
}

#[test]
fn duplicate_names_keep_first_record() {
    let r = run(vec![
        module("A", ModuleType::Core, &[]),
        module("B", ModuleType::Shared, &[]),
        module("A", ModuleType::Feature, &["B"]),
    ]);
    assert_eq!(r.modules.len(), 2);
    assert_eq!(r.modules[0].module_type, ModuleType::Core);
    assert_eq!(r.name_collisions.len(), 1);
    assert_eq!(r.name_collisions[0].module_type, ModuleType::Feature);
    assert_eq!(r.metrics.dependency_edges, 0);
}

#[test]
fn registry_lookup_finds_registered_names() {
    let reg = ModuleRegistry::register(vec![
        module("A", ModuleType::Core, &[]),
        module("B", ModuleType::Shared, &[]),
    ]);
    assert_eq!(reg.lookup(&"B".to_string()).map(|m| m.module_type), Some(ModuleType::Shared));
    assert!(reg.lookup(&"C".to_string()).is_none());
    assert_eq!(reg.all().len(), 2);
    assert!(reg.collisions().is_empty());
}

#[test]
fn dot_graph_lists_nodes_and_known_edges() {
    let analyzer = AngularAnalyzer::new("/project");
    let modules = vec![
        module("CoreModule", ModuleType::Core, &["SharedModule", "rxjs"]),
        module("SharedModule", ModuleType::Shared, &[]),
    ];
    let dot = analyzer.generate_dot_graph(&modules);
    assert_eq!(
        dot,
        "digraph AngularModules {\n  rankdir=TB;\n  node [shape=box];\n\n  \"CoreModule\" [fillcolor=lightblue style=filled];\n  \"SharedModule\" [fillcolor=lightgreen style=filled];\n\n  \"CoreModule\" -> \"SharedModule\";\n}\n"
    );
}

#[test]
fn analyzer_keeps_project_path() {
    let analyzer = AngularAnalyzer::new("/work/app");
    assert_eq!(analyzer.project_path(), "/work/app");
}

#[test]
fn reported_cycle_follows_edges() {
    let r = run(vec![
        module("A", ModuleType::Shared, &["C"]),
        module("B", ModuleType::Shared, &["A"]),
        module("C", ModuleType::Shared, &["B"]),
    ]);
    assert_eq!(r.circular_dependencies.len(), 1);
    assert_eq!(names(&r.circular_dependencies[0]), vec!["A", "C", "B"]);
}

#[test]
fn self_loop_inside_component_is_reported_too() {
    let r = run(vec![
        module("A", ModuleType::Shared, &["A", "B"]),
        module("B", ModuleType::Shared, &["A"]),
    ]);
    assert_eq!(r.circular_dependencies.len(), 2);
    assert_eq!(names(&r.circular_dependencies[0]), vec!["A", "B"]);
    assert_eq!(names(&r.circular_dependencies[1]), vec!["A"]);
}

#[test]
fn cycle_is_shortest_through_least_name() {
    let r = run(vec![
        module("D", ModuleType::Shared, &["A"]),
        module("A", ModuleType::Shared, &["B", "D"]),
        module("B", ModuleType::Shared, &["C"]),
        module("C", ModuleType::Shared, &["A"]),
    ]);
    assert_eq!(r.circular_dependencies.len(), 1);
    assert_eq!(names(&r.circular_dependencies[0]), vec!["A", "D"]);
}
