use angular_analyzer::classify::{classify_lowercase_path, contains_infix, determine_module_type};
use angular_analyzer::model::ModuleType;

fn chars(s: &str) -> Vec<char> {
    s.chars().collect()
}

#[test]
fn core_paths_are_core() {
    assert_eq!(determine_module_type("src/app/core/auth.module.ts"), ModuleType::Core);
    assert_eq!(determine_module_type("src/app/core.module.ts"), ModuleType::Core);
}

#[test]
fn shared_paths_are_shared() {
    assert_eq!(determine_module_type("src/app/shared/ui.module.ts"), ModuleType::Shared);
    assert_eq!(determine_module_type("src/app/shared.module.ts"), ModuleType::Shared);
}

#[test]
fn other_paths_are_feature() {
    assert_eq!(determine_module_type("src/app/features/users.module.ts"), ModuleType::Feature);
    assert_eq!(determine_module_type("src/app/admin/admin.module.ts"), ModuleType::Feature);
}

#[test]
fn classification_ignores_case() {
    assert_eq!(determine_module_type("SRC/APP/CORE/Auth.Module.ts"), ModuleType::Core);
    assert_eq!(determine_module_type("src/Shared.Module.ts"), ModuleType::Shared);
    assert_eq!(classify_lowercase_path(&chars("src/CORE/x.module.ts")), ModuleType::Feature);
}

#[test]
fn infix_search() {
    assert!(contains_infix(&chars("abc/core/x"), &chars("/core/")));
    assert!(!contains_infix(&chars("abc/cor/x"), &chars("/core/")));
    assert!(contains_infix(&chars("abc"), &chars("")));
    assert!(!contains_infix(&chars("ab"), &chars("abc")));
    assert!(contains_infix(&chars("core.module"), &chars("core.module")));
}
