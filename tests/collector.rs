use moli::collector::PathCollector;
use moli::model::{CodeFile, MoliConfig, Module, Project};

fn make_config(projects: Vec<Project>) -> MoliConfig {
    MoliConfig { projects }
}

fn module(name: &str, tree: Vec<Module>, file: Vec<CodeFile>) -> Module {
    Module { name: Some(name.to_string()), from: None, visibility: None, tree, file }
}

fn code(name: &str) -> CodeFile {
    CodeFile { name: name.to_string(), visibility: None }
}

#[test]
fn test_collect_root_project_files() {
    let config = make_config(vec![Project {
        name: "app".to_string(),
        root: true,
        lang: "rust".to_string(),
        file: vec![],
        tree: vec![module(
            "src",
            vec![module("domain", vec![], vec![code("model"), code("repository")])],
            vec![code("main")],
        )],
    }]);

    let files = PathCollector::collect_all_files(&config);
    let paths: Vec<&str> = files.iter().map(|f| f.display_path.as_str()).collect();

    assert_eq!(files.len(), 3);
    assert!(paths.contains(&"src/main.rs"));
    assert!(paths.contains(&"src/domain/model.rs"));
    assert!(paths.contains(&"src/domain/repository.rs"));
}

#[test]
fn test_collect_entries_includes_directories() {
    let config = make_config(vec![Project {
        name: "app".to_string(),
        root: true,
        lang: "rust".to_string(),
        file: vec![],
        tree: vec![module("src", vec![module("domain", vec![], vec![code("model")])], vec![])],
    }]);

    let entries = PathCollector::collect_all_entries(&config);
    let dirs: Vec<&str> =
        entries.iter().filter(|e| e.is_directory).map(|e| e.display_path.as_str()).collect();
    let files: Vec<&str> =
        entries.iter().filter(|e| !e.is_directory).map(|e| e.display_path.as_str()).collect();

    assert!(dirs.contains(&"src/"));
    assert!(dirs.contains(&"src/domain/"));
    assert!(files.contains(&"src/domain/model.rs"));
}

#[test]
fn test_directory_module_path() {
    let config = make_config(vec![Project {
        name: "app".to_string(),
        root: true,
        lang: "rust".to_string(),
        file: vec![],
        tree: vec![module("src", vec![module("domain", vec![], vec![])], vec![])],
    }]);

    let entries = PathCollector::collect_all_entries(&config);
    let domain_dir = entries.iter().find(|e| e.is_directory && e.file_name == "domain").unwrap();

    assert_eq!(domain_dir.parent_modules, vec!["src"]);
    assert!(domain_dir.is_directory);
}

#[test]
fn test_collect_non_root_project_files() {
    let config = make_config(vec![Project {
        name: "backend".to_string(),
        root: false,
        lang: "go".to_string(),
        file: vec![code("main")],
        tree: vec![module("pkg", vec![], vec![code("handler")])],
    }]);

    let files = PathCollector::collect_all_files(&config);
    let paths: Vec<&str> = files.iter().map(|f| f.display_path.as_str()).collect();

    assert_eq!(files.len(), 2);
    assert!(paths.contains(&"backend/main.go"));
    assert!(paths.contains(&"backend/pkg/handler.go"));
}

#[test]
fn test_collect_project_level_files() {
    let config = make_config(vec![Project {
        name: "docs".to_string(),
        root: true,
        lang: "any".to_string(),
        file: vec![code("README.md")],
        tree: vec![],
    }]);

    let files = PathCollector::collect_all_files(&config);

    assert_eq!(files.len(), 1);
    assert_eq!(files[0].display_path, "README.md");
    assert!(files[0].is_project_level);
}

#[test]
fn test_module_path_tracking() {
    let config = make_config(vec![Project {
        name: "app".to_string(),
        root: true,
        lang: "rust".to_string(),
        file: vec![],
        tree: vec![module("src", vec![module("domain", vec![], vec![code("model")])], vec![])],
    }]);

    let files = PathCollector::collect_all_files(&config);
    let model_file = files.iter().find(|f| f.file_name == "model").unwrap();

    assert_eq!(model_file.parent_modules, vec!["src", "domain"]);
    assert!(!model_file.is_project_level);
}

#[test]
fn test_file_with_explicit_extension() {
    let config = make_config(vec![Project {
        name: "app".to_string(),
        root: true,
        lang: "typescript".to_string(),
        file: vec![],
        tree: vec![module("src", vec![], vec![code("App.tsx")])],
    }]);

    let files = PathCollector::collect_all_files(&config);

    assert_eq!(files.len(), 1);
    assert_eq!(files[0].display_path, "src/App.tsx");
}

#[test]
fn directories_precede_their_contents() {
    let config = make_config(vec![Project {
        name: "app".to_string(),
        root: true,
        lang: "rust".to_string(),
        file: vec![code("build")],
        tree: vec![
            module("src", vec![module("domain", vec![module("entity", vec![], vec![code("user")])], vec![code("model")])], vec![code("main")]),
            module("tests", vec![], vec![code("integration")]),
        ],
    }]);

    let entries = PathCollector::collect_all_entries(&config);
    let order: Vec<&str> = entries.iter().map(|e| e.display_path.as_str()).collect();
    assert_eq!(
        order,
        vec![
            "build.rs",
            "src/",
            "src/main.rs",
            "src/domain/",
            "src/domain/model.rs",
            "src/domain/entity/",
            "src/domain/entity/user.rs",
            "tests/",
            "tests/integration.rs",
        ]
    );
    for (i, d) in entries.iter().enumerate() {
        if d.is_directory {
            for (j, e) in entries.iter().enumerate() {
                if e.display_path.starts_with(&d.display_path) && e.display_path != d.display_path {
                    assert!(i < j);
                }
            }
        }
    }
}

#[test]
fn clone_target_named_after_repository() {
    let config = make_config(vec![Project {
        name: ".agents".to_string(),
        root: false,
        lang: "any".to_string(),
        file: vec![],
        tree: vec![module(
            "skills",
            vec![Module {
                name: None,
                from: Some("https://github.com/org/tool-skill.git".to_string()),
                visibility: None,
                tree: vec![],
                file: vec![],
            }],
            vec![],
        )],
    }]);
    let entries = PathCollector::collect_all_entries(&config);
    let paths: Vec<&str> = entries.iter().map(|e| e.display_path.as_str()).collect();
    assert_eq!(paths, vec![".agents/skills/", ".agents/skills/tool-skill/"]);
}
