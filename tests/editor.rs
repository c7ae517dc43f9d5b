use moli::collector::ManagedFile;
use moli::editor::{AddChild, EditError, YamlModifier};

fn make_file_target(
    file_name: &str,
    parent_modules: Vec<String>,
    project_index: usize,
    is_project_level: bool,
) -> ManagedFile {
    ManagedFile {
        display_path: String::new(),
        project_index,
        file_name: file_name.to_string(),
        parent_modules,
        is_project_level,
        is_directory: false,
    }
}

fn make_dir_target(module_name: &str, parent_path: Vec<String>, project_index: usize) -> ManagedFile {
    ManagedFile {
        display_path: String::new(),
        project_index,
        file_name: module_name.to_string(),
        parent_modules: parent_path,
        is_project_level: false,
        is_directory: true,
    }
}

#[test]
fn test_remove_file_from_tree() {
    let yaml = "\
- name: app
  root: true
  lang: rust
  tree:
    - name: src
      file:
        - name: main
      tree:
        - name: domain
          file:
            - name: model
            - name: repository
";
    let target = make_file_target("model", vec!["src".to_string(), "domain".to_string()], 0, false);
    let result = YamlModifier::remove_entry(yaml, &target).unwrap();
    assert!(result.contains("- name: repository"));
    assert!(!result.contains("- name: model"));
    assert!(result.contains("file:"));
}

#[test]
fn test_remove_last_file_removes_file_section() {
    let yaml = "\
- name: app
  root: true
  lang: rust
  tree:
    - name: src
      file:
        - name: main
      tree:
        - name: domain
          file:
            - name: model
";
    let target = make_file_target("model", vec!["src".to_string(), "domain".to_string()], 0, false);
    let result = YamlModifier::remove_entry(yaml, &target).unwrap();
    let domain_section: String = result
        .lines()
        .skip_while(|l| !l.contains("- name: domain"))
        .take(3)
        .collect::<Vec<_>>()
        .join("\n");
    assert!(!domain_section.contains("file:"));
}

#[test]
fn test_remove_project_level_file() {
    let yaml = "\
- name: docs
  root: true
  lang: any
  file:
    - name: README.md
    - name: CHANGELOG.md
";
    let target = make_file_target("README.md", vec![], 0, true);
    let result = YamlModifier::remove_entry(yaml, &target).unwrap();
    assert!(!result.contains("README.md"));
    assert!(result.contains("CHANGELOG.md"));
}

#[test]
fn test_remove_file_with_pub_attribute() {
    let yaml = "\
- name: app
  root: true
  lang: rust
  tree:
    - name: src
      tree:
        - name: domain
          file:
            - name: model
              pub: crate
            - name: repository
";
    let target = make_file_target("model", vec!["src".to_string(), "domain".to_string()], 0, false);
    let result = YamlModifier::remove_entry(yaml, &target).unwrap();
    assert!(!result.contains("- name: model"));
    assert!(!result.contains("pub: crate"));
    assert!(result.contains("- name: repository"));
}

#[test]
fn test_preserves_trailing_newline() {
    let yaml = "\
- name: app
  root: true
  lang: rust
  tree:
    - name: src
      file:
        - name: main
        - name: lib
";
    let target = make_file_target("lib", vec!["src".to_string()], 0, false);
    let result = YamlModifier::remove_entry(yaml, &target).unwrap();
    assert!(result.ends_with('\n'));
}

#[test]
fn test_remove_module_with_files() {
    let yaml = "\
- name: app
  root: true
  lang: rust
  tree:
    - name: src
      file:
        - name: main
      tree:
        - name: domain
          file:
            - name: model
            - name: repository
        - name: api
          file:
            - name: handler
";
    let target = make_dir_target("domain", vec!["src".to_string()], 0);
    let result = YamlModifier::remove_entry(yaml, &target).unwrap();
    assert!(!result.contains("domain"));
    assert!(!result.contains("model"));
    assert!(!result.contains("repository"));
    assert!(result.contains("- name: api"));
    assert!(result.contains("- name: handler"));
    assert!(result.contains("- name: main"));
}

#[test]
fn test_remove_module_with_subtree() {
    let yaml = "\
- name: app
  root: true
  lang: rust
  tree:
    - name: src
      file:
        - name: main
      tree:
        - name: domain
          file:
            - name: model
          tree:
            - name: entity
              file:
                - name: user
                - name: order
        - name: api
          file:
            - name: handler
";
    let target = make_dir_target("domain", vec!["src".to_string()], 0);
    let result = YamlModifier::remove_entry(yaml, &target).unwrap();
    assert!(!result.contains("domain"));
    assert!(!result.contains("model"));
    assert!(!result.contains("entity"));
    assert!(!result.contains("user"));
    assert!(!result.contains("order"));
    assert!(result.contains("- name: api"));
    assert!(result.contains("- name: handler"));
}

#[test]
fn test_remove_last_module_removes_tree_section() {
    let yaml = "\
- name: app
  root: true
  lang: rust
  tree:
    - name: src
      file:
        - name: main
      tree:
        - name: domain
          file:
            - name: model
";
    let target = make_dir_target("domain", vec!["src".to_string()], 0);
    let result = YamlModifier::remove_entry(yaml, &target).unwrap();
    assert!(!result.contains("domain"));
    assert!(!result.contains("model"));
    let src_section: String =
        result.lines().skip_while(|l| !l.contains("- name: src")).collect::<Vec<_>>().join("\n");
    assert!(!src_section.contains("tree:"));
}

#[test]
fn test_remove_top_level_module() {
    let yaml = "\
- name: app
  root: true
  lang: rust
  tree:
    - name: src
      file:
        - name: main
    - name: tests
      file:
        - name: integration
";
    let target = make_dir_target("tests", vec![], 0);
    let result = YamlModifier::remove_entry(yaml, &target).unwrap();
    assert!(!result.contains("tests"));
    assert!(!result.contains("integration"));
    assert!(result.contains("- name: src"));
    assert!(result.contains("- name: main"));
}

#[test]
fn test_add_file_to_existing_module() {
    let yaml = "\
- name: app
  root: true
  lang: rust
  tree:
    - name: src
      file:
        - name: main
      tree:
        - name: domain
          file:
            - name: model
";
    let result = YamlModifier::add_entry(
        yaml,
        0,
        &["src".to_string(), "domain".to_string(), "repository.rs".to_string()],
        false,
        "rust",
        &[],
    )
    .unwrap();
    assert!(result.contains("- name: repository"));
    assert!(result.contains("- name: model"));
}

#[test]
fn test_add_file_creates_file_section() {
    let yaml = "\
- name: app
  root: true
  lang: rust
  tree:
    - name: src
      tree:
        - name: domain
";
    let result = YamlModifier::add_entry(
        yaml,
        0,
        &["src".to_string(), "domain".to_string(), "model.rs".to_string()],
        false,
        "rust",
        &[],
    )
    .unwrap();
    assert!(result.contains("file:"));
    assert!(result.contains("- name: model"));
}

#[test]
fn test_add_new_module() {
    let yaml = "\
- name: app
  root: true
  lang: rust
  tree:
    - name: src
      file:
        - name: main
";
    let result =
        YamlModifier::add_entry(yaml, 0, &["src".to_string(), "api".to_string()], true, "rust", &[]).unwrap();
    assert!(result.contains("- name: api"));
    assert!(result.contains("- name: src"));
}

#[test]
fn test_add_directory_with_children() {
    let yaml = "\
- name: app
  root: true
  lang: rust
  tree:
    - name: src
      file:
        - name: main
";
    let children = vec![
        AddChild { name: "handler.rs".to_string(), is_directory: false, children: vec![] },
        AddChild { name: "router.rs".to_string(), is_directory: false, children: vec![] },
    ];
    let result = YamlModifier::add_entry(
        yaml,
        0,
        &["src".to_string(), "api".to_string()],
        true,
        "rust",
        &children,
    )
    .unwrap();
    assert!(result.contains("- name: api"));
    assert!(result.contains("- name: handler"));
    assert!(result.contains("- name: router"));
}

#[test]
fn test_add_project_level_file() {
    let yaml = "\
- name: docs
  root: true
  lang: any
  tree:
    - name: src
";
    let result = YamlModifier::add_entry(yaml, 0, &["README.md".to_string()], false, "any", &[]).unwrap();
    assert!(result.contains("file:"));
    assert!(result.contains("- name: README.md"));
}

#[test]
fn test_add_duplicate_file_is_noop() {
    let yaml = "\
- name: app
  root: true
  lang: rust
  tree:
    - name: src
      file:
        - name: main
";
    let result =
        YamlModifier::add_entry(yaml, 0, &["src".to_string(), "main.rs".to_string()], false, "rust", &[])
            .unwrap();
    assert_eq!(result, yaml);
}

#[test]
fn test_add_top_level_module_creates_tree() {
    let yaml = "\
- name: app
  root: true
  lang: rust
";
    let result = YamlModifier::add_entry(yaml, 0, &["src".to_string()], true, "rust", &[]).unwrap();
    assert!(result.contains("tree:"));
    assert!(result.contains("- name: src"));
}

const SCENARIO: &str = "\
- name: app
  root: true
  lang: rust
  tree:
    - name: src
      file:
        - name: main
      tree:
        - name: domain
          file:
            - name: model
";

#[test]
fn removing_domain_drops_its_block_and_empty_tree_key() {
    let target = make_dir_target("domain", vec!["src".to_string()], 0);
    let result = YamlModifier::remove_entry(SCENARIO, &target).unwrap();
    assert_eq!(
        result,
        "- name: app\n  root: true\n  lang: rust\n  tree:\n    - name: src\n      file:\n        - name: main\n"
    );
}

#[test]
fn adding_file_to_module_without_files_puts_section_before_tree() {
    let yaml = "\
- name: app
  root: true
  lang: rust
  tree:
    - name: src
      tree:
        - name: domain
          tree:
            - name: entity
";
    let result = YamlModifier::add_entry(
        yaml,
        0,
        &["src".to_string(), "domain".to_string(), "repository.rs".to_string()],
        false,
        "rust",
        &[],
    )
    .unwrap();
    assert_eq!(
        result,
        "- name: app\n  root: true\n  lang: rust\n  tree:\n    - name: src\n      tree:\n        - name: domain\n          file:\n            - name: repository\n          tree:\n            - name: entity\n"
    );
}

#[test]
fn adding_twice_equals_adding_once() {
    let children = vec![
        AddChild {
            name: "entity".to_string(),
            is_directory: true,
            children: vec![AddChild { name: "user.rs".to_string(), is_directory: false, children: vec![] }],
        },
        AddChild { name: "service.rs".to_string(), is_directory: false, children: vec![] },
    ];
    let path = ["src".to_string(), "domain".to_string()];
    let once = YamlModifier::add_entry(SCENARIO, 0, &path, true, "rust", &children).unwrap();
    let twice = YamlModifier::add_entry(&once, 0, &path, true, "rust", &children).unwrap();
    assert_eq!(once, twice);
    assert!(once.contains("            - name: service"));
    assert!(once.contains("                - name: user"));
    let file_once =
        YamlModifier::add_entry(SCENARIO, 0, &["README.md".to_string()], false, "rust", &[]).unwrap();
    let file_twice = YamlModifier::add_entry(&file_once, 0, &["README.md".to_string()], false, "rust", &[])
        .unwrap();
    assert_eq!(file_once, file_twice);
}

#[test]
fn add_then_remove_restores_the_text() {
    let added = YamlModifier::add_entry(
        SCENARIO,
        0,
        &["src".to_string(), "api".to_string(), "handler.rs".to_string()],
        false,
        "rust",
        &[],
    )
    .unwrap();
    assert!(added.contains("        - name: api\n          file:\n            - name: handler\n"));
    let removed = YamlModifier::remove_entry(&added, &make_dir_target("api", vec!["src".to_string()], 0)).unwrap();
    assert_eq!(removed, SCENARIO);
    let with_file =
        YamlModifier::add_entry(SCENARIO, 0, &["src".to_string(), "lib.rs".to_string()], false, "rust", &[])
            .unwrap();
    let without = YamlModifier::remove_entry(
        &with_file,
        &make_file_target("lib", vec!["src".to_string()], 0, false),
    )
    .unwrap();
    assert_eq!(without, SCENARIO);
}

#[test]
fn edit_errors_name_what_is_missing() {
    let missing_parent = make_file_target("x", vec!["src".to_string(), "nope".to_string()], 0, false);
    match YamlModifier::remove_entry(SCENARIO, &missing_parent) {
        Err(EditError::MissingSegment(s)) => assert_eq!(s, "nope"),
        other => panic!("unexpected {:?}", other),
    }
    let missing_entry = make_file_target("ghost", vec!["src".to_string()], 0, false);
    match YamlModifier::remove_entry(SCENARIO, &missing_entry) {
        Err(EditError::EntryNotFound(s)) => assert_eq!(s, "ghost"),
        other => panic!("unexpected {:?}", other),
    }
    match YamlModifier::remove_entry(SCENARIO, &make_dir_target("src", vec![], 3)) {
        Err(EditError::ProjectNotFound(i)) => assert_eq!(i, 3),
        other => panic!("unexpected {:?}", other),
    }
    match YamlModifier::add_entry(SCENARIO, 0, &[], true, "rust", &[]) {
        Err(EditError::EmptyPath) => {}
        other => panic!("unexpected {:?}", other),
    }
}

#[test]
fn edits_stay_within_their_project() {
    let yaml = "\
- name: web
  lang: javascript
  tree:
    - name: src

- name: api
  lang: go
  tree:
    - name: src
";
    let result =
        YamlModifier::add_entry(yaml, 1, &["src".to_string(), "main.go".to_string()], false, "go", &[]).unwrap();
    assert_eq!(
        result,
        "- name: web\n  lang: javascript\n  tree:\n    - name: src\n\n- name: api\n  lang: go\n  tree:\n    - name: src\n      file:\n        - name: main\n"
    );
}

#[test]
fn adding_a_new_path_twice_is_stable() {
    let path = ["src".to_string(), "infra".to_string(), "db".to_string(), "pool.rs".to_string()];
    let once = YamlModifier::add_entry(SCENARIO, 0, &path, false, "rust", &[]).unwrap();
    assert_eq!(
        once,
        "- name: app\n  root: true\n  lang: rust\n  tree:\n    - name: src\n      file:\n        - name: main\n      tree:\n        - name: domain\n          file:\n            - name: model\n        - name: infra\n          tree:\n            - name: db\n              file:\n                - name: pool\n"
    );
    let twice = YamlModifier::add_entry(&once, 0, &path, false, "rust", &[]).unwrap();
    assert_eq!(once, twice);
    let dir = ["tests".to_string(), "fixtures".to_string()];
    let d1 = YamlModifier::add_entry(SCENARIO, 0, &dir, true, "rust", &[]).unwrap();
    let d2 = YamlModifier::add_entry(&d1, 0, &dir, true, "rust", &[]).unwrap();
    assert_eq!(d1, d2);
    assert!(d1.ends_with("    - name: tests\n      tree:\n        - name: fixtures\n"));
}

#[test]
fn removing_a_just_added_file_gives_the_text_back() {
    let added = YamlModifier::add_entry(
        SCENARIO,
        0,
        &["src".to_string(), "domain".to_string(), "service.rs".to_string()],
        false,
        "rust",
        &[],
    )
    .unwrap();
    assert!(added.contains("            - name: model\n            - name: service\n"));
    let target = make_file_target("service", vec!["src".to_string(), "domain".to_string()], 0, false);
    assert_eq!(YamlModifier::remove_entry(&added, &target).unwrap(), SCENARIO);
}

#[test]
fn no_op_edit_keeps_trailing_blank_lines() {
    let yaml = "- name: app\n  root: true\n  lang: rust\n  tree:\n    - name: src\n\n\n";
    let same = YamlModifier::add_entry(yaml, 0, &["src".to_string()], true, "rust", &[]).unwrap();
    assert_eq!(same, yaml);
}

#[test]
fn final_blank_line_survives_edits() {
    let added = YamlModifier::add_entry("- name: a\n\n", 0, &["b".to_string()], false, "any", &[]).unwrap();
    assert_eq!(added, "- name: a\n  file:\n    - name: b\n\n");
    let removed =
        YamlModifier::remove_entry("- name: a\n  file:\n    - name: b\n\n", &make_file_target("b", vec![], 0, true))
            .unwrap();
    assert_eq!(removed, "- name: a\n\n");
}

#[test]
fn removal_leaves_other_empty_sections_alone() {
    let yaml = "- name: app\n  tree:\n    - name: api\n      file:\n    - name: src\n      file:\n        - name: main\n        - name: lib\n";
    let result =
        YamlModifier::remove_entry(yaml, &make_file_target("lib", vec!["src".to_string()], 0, false)).unwrap();
    assert_eq!(result, "- name: app\n  tree:\n    - name: api\n      file:\n    - name: src\n      file:\n        - name: main\n");
    let emptied =
        YamlModifier::remove_entry(&result, &make_file_target("main", vec!["src".to_string()], 0, false)).unwrap();
    assert_eq!(emptied, "- name: app\n  tree:\n    - name: api\n      file:\n    - name: src\n");
}
