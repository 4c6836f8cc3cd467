use angular_analyzer::extract::{
    extract_dependencies, extract_module_name, is_module_file_name, extract_ngmodule_array, filter_package_imports,
    parse_module, split_array_items,
};
use angular_analyzer::model::ModuleType;

const SOURCE: &str = r#"import { NgModule } from '@angular/core';
import { CommonModule } from "@angular/common";
import { StoreModule } from '@ngrx/store';
import { SharedModule } from 'shared-lib';
import { LocalThing } from './local';

@NgModule({
  declarations: [UserListComponent, UserDetailComponent],
  imports: [ CommonModule , SharedModule, ],
  exports: [],
  providers: [UserService]
})
export class UsersModule {}
"#;

fn strings(v: &[&str]) -> Vec<String> {
    v.iter().map(|s| s.to_string()).collect()
}

#[test]
fn module_name_comes_from_class() {
    assert_eq!(extract_module_name("src/app/users/users.module.ts", SOURCE), "UsersModule");
}

#[test]
fn module_name_falls_back_to_file_stem() {
    assert_eq!(extract_module_name("src/app/users/users.module.ts", "const x = 1;"), "users.module");
}

#[test]
fn dependencies_skip_relative_and_framework_imports() {
    assert_eq!(extract_dependencies(SOURCE), strings(&["@ngrx/store", "shared-lib"]));
}

#[test]
fn package_filter_keeps_order() {
    let got = filter_package_imports(&strings(&["./a", "b", "@angular/core", "@x/y", "../c", "d"]));
    assert_eq!(got, strings(&["b", "@x/y", "d"]));
}

#[test]
fn array_fields_are_split_and_trimmed() {
    assert_eq!(
        extract_ngmodule_array(SOURCE, "imports"),
        strings(&["CommonModule", "SharedModule"])
    );
    assert_eq!(
        extract_ngmodule_array(SOURCE, "declarations"),
        strings(&["UserListComponent", "UserDetailComponent"])
    );
    assert!(extract_ngmodule_array(SOURCE, "exports").is_empty());
    assert!(extract_ngmodule_array(SOURCE, "bootstrap").is_empty());
}

#[test]
fn array_items_drop_empty_pieces() {
    assert_eq!(split_array_items(" a ,, b,"), strings(&["a", "b"]));
    assert!(split_array_items("").is_empty());
    assert_eq!(split_array_items("single"), strings(&["single"]));
}

#[test]
fn parse_builds_full_record() {
    let m = parse_module("src/app/Features/users/users.module.ts", SOURCE);
    assert_eq!(m.path, "src/app/Features/users/users.module.ts");
    assert_eq!(m.name, "UsersModule");
    assert_eq!(m.module_type, ModuleType::Feature);
    assert_eq!(m.providers, strings(&["UserService"]));
    assert_eq!(m.dependencies, strings(&["@ngrx/store", "shared-lib"]));
}

#[test]
fn module_files_are_recognised_by_name() {
    assert!(is_module_file_name("users.module.ts"));
    assert!(is_module_file_name(".module.ts"));
    assert!(!is_module_file_name("users.component.ts"));
    assert!(!is_module_file_name("users.module.js"));
    assert!(!is_module_file_name("module.ts"));
}
