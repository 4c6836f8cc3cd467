use angular_analyzer::analyzer::AngularAnalyzer;
use angular_analyzer::model::{ModuleInfo, ModuleType};
use angular_analyzer::ordering::{least_position, name_less};

fn strings(v: &[&str]) -> Vec<String> {
    v.iter().map(|s| s.to_string()).collect()
}

fn shared(name: &str, deps: &[&str]) -> ModuleInfo {
    ModuleInfo {
        path: String::new(),
        name: name.to_string(),
        module_type: ModuleType::Shared,
        imports: Vec::new(),
        exports: Vec::new(),
        providers: Vec::new(),
        declarations: Vec::new(),
        dependencies: strings(deps),
    }
}

#[test]
fn name_order_is_lexicographic() {
    let s = |x: &str| x.to_string();
    assert!(name_less(&s("Alpha"), &s("Beta")));
    assert!(!name_less(&s("Beta"), &s("Alpha")));
    assert!(name_less(&s("Core"), &s("CoreModule")));
    assert!(!name_less(&s("CoreModule"), &s("Core")));
    assert!(!name_less(&s("Same"), &s("Same")));
    assert!(name_less(&s("Zeta"), &s("alpha")));
    assert!(name_less(&s(""), &s("a")));
}

#[test]
fn least_position_picks_first_least() {
    assert_eq!(least_position(&strings(&["C", "A", "B"])), 1);
    assert_eq!(least_position(&strings(&["B", "C", "A"])), 2);
    assert_eq!(least_position(&strings(&["A"])), 0);
    assert_eq!(least_position(&strings(&["b", "a", "a"])), 1);
}

#[test]
fn reported_cycle_starts_at_least_name() {
    let r = AngularAnalyzer::new("/p").analyze(vec![
        shared("Zeta", &["Mid"]),
        shared("Mid", &["Alpha"]),
        shared("Alpha", &["Zeta"]),
    ]);
    assert_eq!(r.circular_dependencies, vec![strings(&["Alpha", "Zeta", "Mid"])]);
}
