use moli::collector::{ManagedFile, PathCollector};
use moli::commands::{
    filter_redundant_removals, generate_new_moli_yml, generate_new_project_yaml, get_main_file_name, resolve_project,
    would_produce_changes,
};
use moli::editor::AddChild;
use moli::model::{CodeFile, MoliConfig, Module, Project};
use moli::scanner::UnmanagedEntry;

fn project(name: &str, root: bool, lang: &str) -> Project {
    Project { name: name.to_string(), root, lang: lang.to_string(), file: vec![], tree: vec![] }
}

fn entry(path: &[&str], is_directory: bool) -> UnmanagedEntry {
    UnmanagedEntry {
        display_path: path.join("/"),
        relative_path: path.iter().map(|s| s.to_string()).collect(),
        is_directory,
    }
}

#[test]
fn resolve_prefers_root_then_named_then_dot() {
    let root = MoliConfig { projects: vec![project("web", false, "javascript"), project("app", true, "rust")] };
    assert_eq!(resolve_project(&root, &entry(&["src", "a.rs"], false)).unwrap(), (1, vec!["src".to_string(), "a.rs".to_string()]));
    let multi = MoliConfig { projects: vec![project("web", false, "javascript"), project("api", false, "go")] };
    assert_eq!(resolve_project(&multi, &entry(&["api", "main.go"], false)).unwrap(), (1, vec!["main.go".to_string()]));
    assert!(resolve_project(&multi, &entry(&["docs", "x.md"], false)).is_err());
    assert!(resolve_project(&multi, &entry(&[], true)).is_err());
    let dot = MoliConfig { projects: vec![project("web", false, "javascript"), project(".", false, "any")] };
    assert_eq!(resolve_project(&dot, &entry(&["docs"], true)).unwrap(), (1, vec!["docs".to_string()]));
}

#[test]
fn changes_are_detected_against_the_text() {
    let config = MoliConfig {
        projects: vec![Project {
            name: "app".to_string(),
            root: true,
            lang: "rust".to_string(),
            file: vec![],
            tree: vec![Module {
                name: Some("src".to_string()),
                from: None,
                visibility: None,
                tree: vec![],
                file: vec![CodeFile { name: "main".to_string(), visibility: None }],
            }],
        }],
    };
    let yaml = "- name: app\n  root: true\n  lang: rust\n  tree:\n    - name: src\n      file:\n        - name: main\n";
    assert!(!would_produce_changes(&config, yaml, &entry(&["src", "main.rs"], false), &[]));
    assert!(would_produce_changes(&config, yaml, &entry(&["src", "lib.rs"], false), &[]));
    let children = vec![AddChild { name: "src".to_string(), is_directory: true, children: vec![] }];
    assert!(!would_produce_changes(&config, yaml, &entry(&[], true), &children));
    let more = vec![AddChild { name: "tests".to_string(), is_directory: true, children: vec![] }];
    assert!(would_produce_changes(&config, yaml, &entry(&[], true), &more));
}

#[test]
fn removals_below_a_removed_directory_are_dropped() {
    let config = MoliConfig {
        projects: vec![Project {
            name: "app".to_string(),
            root: true,
            lang: "rust".to_string(),
            file: vec![CodeFile { name: "build".to_string(), visibility: None }],
            tree: vec![Module {
                name: Some("src".to_string()),
                from: None,
                visibility: None,
                tree: vec![],
                file: vec![CodeFile { name: "main".to_string(), visibility: None }],
            }],
        }],
    };
    let entries: Vec<ManagedFile> = PathCollector::collect_all_entries(&config);
    let kept = filter_redundant_removals(&entries);
    let paths: Vec<&str> = kept.iter().map(|e| e.display_path.as_str()).collect();
    assert_eq!(paths, vec!["build.rs", "src/"]);
}

#[test]
fn new_project_layouts() {
    assert_eq!(get_main_file_name("rust", false), "lib");
    assert_eq!(get_main_file_name("any", true), "README.md");
    assert_eq!(
        generate_new_moli_yml("app_1", "rust"),
        "- name: app_1\n  root: true\n  lang: rust\n  tree:\n    - name: src\n      file:\n        - name: main\n"
    );
    assert_eq!(generate_new_project_yaml("api", "go", false), "- name: api\n  lang: go\n  file:\n    - name: main\n");
}

#[test]
fn unmanaged_entries_are_added_to_their_project() {
    let config = MoliConfig { projects: vec![project("web", false, "javascript"), project("api", false, "go")] };
    let yaml = "- name: web\n  lang: javascript\n\n- name: api\n  lang: go\n";
    let added = moli::commands::add_unmanaged(&config, yaml, &entry(&["api", "main.go"], false), &[]).unwrap();
    assert_eq!(added, "- name: web\n  lang: javascript\n\n- name: api\n  lang: go\n  file:\n    - name: main\n");
    assert!(matches!(
        moli::commands::add_unmanaged(&config, yaml, &entry(&["docs", "x.md"], false), &[]),
        Err(moli::commands::LoadError::NoProject(_))
    ));
}

#[test]
fn next_project_number_follows_the_largest() {
    assert_eq!(moli::commands::next_app_number(""), 1);
    assert_eq!(moli::commands::next_app_number("- name: app_1\n  lang: rust\n- name: app_7\n- name: app_x\n"), 8);
    assert_eq!(moli::commands::next_app_number("- name: app_+3\n- name: app_99999999999\n"), 4);
}
