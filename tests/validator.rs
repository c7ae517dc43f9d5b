use moli::model::{MoliConfig, Module, Project};
use moli::validator::ConfigValidator;

fn project(name: &str, root: bool, lang: &str) -> Project {
    Project { name: name.to_string(), root, lang: lang.to_string(), tree: vec![], file: vec![] }
}

#[test]
fn test_valid_single_project() {
    let config = MoliConfig { projects: vec![project("app", true, "rust")] };
    assert!(ConfigValidator::validate(&config).is_ok());
}

#[test]
fn test_valid_multi_project() {
    let config =
        MoliConfig { projects: vec![project("backend", false, "rust"), project("frontend", false, "javascript")] };
    assert!(ConfigValidator::validate(&config).is_ok());
}

#[test]
fn test_multiple_root_projects_invalid() {
    let config = MoliConfig { projects: vec![project("app1", true, "rust"), project("app2", true, "go")] };
    assert!(ConfigValidator::validate(&config).is_err());
}

#[test]
fn test_duplicate_project_names_invalid() {
    let config = MoliConfig { projects: vec![project("app", false, "rust"), project("app", false, "go")] };
    assert!(ConfigValidator::validate(&config).is_err());
}

#[test]
fn test_unsupported_language_invalid() {
    let config = MoliConfig { projects: vec![project("app", true, "cobol")] };
    assert!(ConfigValidator::validate(&config).is_err());
}

#[test]
fn two_roots_reported_at_projects() {
    let config = MoliConfig { projects: vec![project("app1", true, "rust"), project("app2", true, "go")] };
    let errors = ConfigValidator::validate(&config).unwrap_err();
    assert!(errors.iter().any(|e| e.path == "projects"));
    assert_eq!(errors.len(), 1);
    assert_eq!(
        errors[0].describe(),
        "Validation error at projects: Only one project can be marked as root"
    );
}

#[test]
fn empty_layout_is_rejected() {
    let config = MoliConfig { projects: vec![] };
    let errors = ConfigValidator::validate(&config).unwrap_err();
    assert_eq!(errors[0].path, "projects");
}

#[test]
fn every_violation_is_collected() {
    let mut bad = project("", false, "rust");
    bad.tree = vec![
        Module { name: Some("a/b".to_string()), from: None, visibility: None, tree: vec![], file: vec![] },
        Module {
            name: None,
            from: Some("https://example.com/x.git".to_string()),
            visibility: None,
            tree: vec![],
            file: vec![],
        },
    ];
    let config = MoliConfig { projects: vec![bad, project("web", false, "")] };
    let errors = ConfigValidator::validate(&config).unwrap_err();
    let paths: Vec<&str> = errors.iter().map(|e| e.path.as_str()).collect();
    assert_eq!(
        paths,
        vec!["projects[0].name", "projects[0].tree[0].name", "projects[0].tree[1].from", "projects[1].lang"]
    );
}

#[test]
fn clone_target_with_content_is_rejected() {
    let mut p = project("skills", false, "any");
    p.tree = vec![Module {
        name: None,
        from: Some("https://example.com/x.git".to_string()),
        visibility: None,
        tree: vec![Module { name: Some("inner".to_string()), from: None, visibility: None, tree: vec![], file: vec![] }],
        file: vec![],
    }];
    let errors = ConfigValidator::validate(&MoliConfig { projects: vec![p] }).unwrap_err();
    assert_eq!(errors.len(), 1);
    assert_eq!(errors[0].path, "projects[0].tree[0].tree");
}

#[test]
fn each_violation_is_reported_at_its_place() {
    let config = MoliConfig { projects: vec![project("app", false, "cobol"), project("app", false, "rust")] };
    let errors = ConfigValidator::validate(&config).unwrap_err();
    let paths: Vec<&str> = errors.iter().map(|e| e.path.as_str()).collect();
    assert!(paths.contains(&"projects[0].lang"));
    assert!(paths.contains(&"projects[1].name"));
}
