use moli::generation::{
    decide, merge_block, Action, Comment, FileBuilder, GoPackageGenerator, ManifestRole, OnDisk, RustModuleGenerator,
    Step, StepKind,
};
use moli::model::{CodeFile, Module, Project};

fn module(name: &str, tree: Vec<Module>, file: Vec<CodeFile>) -> Module {
    Module { name: Some(name.to_string()), from: None, visibility: None, tree, file }
}

fn code(name: &str) -> CodeFile {
    CodeFile { name: name.to_string(), visibility: None }
}

fn scenario_a() -> Project {
    Project {
        name: "app".to_string(),
        root: true,
        lang: "rust".to_string(),
        file: vec![],
        tree: vec![module("src", vec![module("domain", vec![], vec![code("model")])], vec![code("main")])],
    }
}

fn written(step: &Step) -> String {
    match decide(step, &OnDisk::Absent) {
        Action::Write(s) => s,
        other => panic!("expected a write for {}, got {:?}", step.path, other),
    }
}

#[test]
fn scenario_a_generates_main_model_and_mod() {
    let steps = FileBuilder::build_project_files(&scenario_a());
    let paths: Vec<&str> = steps.iter().map(|s| s.path.as_str()).collect();
    assert_eq!(
        paths,
        vec!["Cargo.toml", "src", "src/domain", "src/domain/model.rs", "src/domain/mod.rs", "src/main.rs"]
    );
    assert!(!paths.contains(&"src/mod.rs"));
    assert_eq!(written(&steps[3]), "");
    assert_eq!(
        written(&steps[4]),
        "// start auto exported by moli.\npub mod model;\n// end auto exported by moli.\n\n"
    );
    let main = written(&steps[5]);
    assert_eq!(
        main,
        "// start auto exported by moli.\nmod domain;\n// end auto exported by moli.\n\nfn main() {\n    println!(\"Hello, world!\");\n}\n"
    );
}

#[test]
fn existing_code_file_is_never_written() {
    let step = Step { path: "src/domain/model.rs".to_string(), kind: StepKind::CodeFile(String::new()) };
    assert!(matches!(decide(&step, &OnDisk::File("pub struct Model;\n".to_string())), Action::Nothing));
    let project_file = Step { path: "Cargo.toml".to_string(), kind: StepKind::ProjectFile("x".to_string()) };
    assert!(matches!(decide(&project_file, &OnDisk::File("[package]\n".to_string())), Action::Nothing));
    match decide(&project_file, &OnDisk::Absent) {
        Action::Write(s) => assert_eq!(s, "x"),
        other => panic!("unexpected {:?}", other),
    }
}

#[test]
fn existing_clone_target_is_skipped() {
    let step = Step { path: "skills/tool".to_string(), kind: StepKind::Clone("https://example.com/tool.git".to_string()) };
    assert!(matches!(decide(&step, &OnDisk::Directory), Action::SkipClone));
    match decide(&step, &OnDisk::Absent) {
        Action::Clone(url) => assert_eq!(url, "https://example.com/tool.git"),
        other => panic!("unexpected {:?}", other),
    }
}

#[test]
fn manifest_block_is_replaced_and_the_rest_kept() {
    let content = "// header\n// start auto exported by moli.\npub mod old;\n// end auto exported by moli.\n\nfn helper() {}\n";
    let merged = merge_block(content, Comment::Slash, &vec!["pub mod model;".to_string(), "pub mod repo;".to_string()]);
    assert_eq!(
        merged,
        "// header\n// start auto exported by moli.\npub mod model;\npub mod repo;\n// end auto exported by moli.\n\nfn helper() {}\n"
    );
    let unmarked = merge_block("fn main() {}\n", Comment::Hash, &vec!["from .a import *".to_string()]);
    assert_eq!(unmarked, "# start auto exported by moli.\nfrom .a import *\n# end auto exported by moli.\n\nfn main() {}\n");
    let step = Step {
        path: "src/domain/mod.rs".to_string(),
        kind: StepKind::Manifest(vec!["pub mod model;".to_string()], Comment::Slash, ManifestRole::ModuleIndex),
    };
    match decide(&step, &OnDisk::File(content.to_string())) {
        Action::Write(s) => assert!(s.starts_with("// header\n") && s.ends_with("fn helper() {}\n")),
        other => panic!("unexpected {:?}", other),
    }
}

#[test]
fn test_build_go_project_files() {
    let project = Project {
        name: "app".to_string(),
        root: true,
        lang: "go".to_string(),
        file: vec![],
        tree: vec![module("src", vec![], vec![code("main"), code("utils")])],
    };
    let steps = FileBuilder::build_project_files(&project);
    let main_go = steps.iter().find(|s| s.path == "src/main.go").unwrap();
    let utils_go = steps.iter().find(|s| s.path == "src/utils.go").unwrap();
    let main_text = written(main_go);
    assert!(main_text.contains("package main"));
    assert!(main_text.contains("func main()"));
    assert!(written(utils_go).contains("package main"));
    assert!(!GoPackageGenerator::should_generate_main_go(&project));
    assert!(steps.iter().all(|s| s.path != "main.go"));
    assert!(steps.iter().any(|s| s.path == "go.mod"));
}

#[test]
fn test_build_rust_project_files() {
    let project = Project {
        name: "app".to_string(),
        root: true,
        lang: "rust".to_string(),
        file: vec![],
        tree: vec![module(
            "src",
            vec![module("domain", vec![], vec![code("model"), code("repository")])],
            vec![code("main")],
        )],
    };
    let steps = FileBuilder::build_project_files(&project);
    let paths: Vec<&str> = steps.iter().map(|s| s.path.as_str()).collect();
    assert!(paths.contains(&"src/main.rs"));
    assert!(!paths.contains(&"src/mod.rs"));
    assert!(paths.contains(&"src/domain/mod.rs"));
    assert!(paths.contains(&"src/domain/model.rs"));
    assert!(paths.contains(&"src/domain/repository.rs"));
    let domain_mod = written(steps.iter().find(|s| s.path == "src/domain/mod.rs").unwrap());
    assert!(domain_mod.contains("pub mod model;"));
    assert!(domain_mod.contains("pub mod repository;"));
    let main_rs = written(steps.iter().find(|s| s.path == "src/main.rs").unwrap());
    assert!(main_rs.contains("mod domain;"));
}

#[test]
fn test_main_rs_generation() {
    let modules = vec![module("src", vec![module("domain", vec![], vec![])], vec![])];
    let decls = RustModuleGenerator::generate_main_rs(&modules);
    assert_eq!(decls, vec!["mod domain;"]);
    let lib = RustModuleGenerator::generate_lib_rs(&modules);
    assert_eq!(lib, vec!["pub mod domain;"]);
}

#[test]
fn visibility_hints_shape_rust_declarations() {
    let mut domain = module("domain", vec![], vec![code("model"), CodeFile { name: "repo".to_string(), visibility: Some("crate".to_string()) }]);
    domain.tree = vec![Module { name: Some("inner".to_string()), from: None, visibility: Some("super".to_string()), tree: vec![], file: vec![] }];
    let project = Project {
        name: "lib".to_string(),
        root: false,
        lang: "rust".to_string(),
        file: vec![],
        tree: vec![module("src", vec![domain], vec![code("lib")])],
    };
    assert!(RustModuleGenerator::should_generate_lib_rs(&project));
    assert!(!RustModuleGenerator::should_generate_main_rs(&project));
    let steps = FileBuilder::build_project_files(&project);
    assert_eq!(steps[0].path, "lib");
    let m = written(steps.iter().find(|s| s.path == "lib/src/domain/mod.rs").unwrap());
    assert!(m.contains("pub mod model;\npub(crate) mod repo;\npub(super) mod inner;\n"));
    let lib = written(steps.iter().find(|s| s.path == "lib/src/lib.rs").unwrap());
    assert!(lib.contains("pub mod domain;"));
}

#[test]
fn python_and_any_layouts() {
    let py = Project {
        name: "svc".to_string(),
        root: true,
        lang: "python".to_string(),
        file: vec![],
        tree: vec![module("pkg", vec![module("sub", vec![], vec![])], vec![code("model")])],
    };
    let steps = FileBuilder::build_project_files(&py);
    let init = written(steps.iter().find(|s| s.path == "pkg/__init__.py").unwrap());
    assert_eq!(init, "# start auto exported by moli.\nfrom .model import *\nfrom .sub import *\n# end auto exported by moli.\n\n");
    assert!(steps.iter().any(|s| s.path == "main.py"));
    let any = Project {
        name: "docs".to_string(),
        root: true,
        lang: "any".to_string(),
        file: vec![code("notes")],
        tree: vec![],
    };
    let steps = FileBuilder::build_project_files(&any);
    let paths: Vec<&str> = steps.iter().map(|s| s.path.as_str()).collect();
    assert_eq!(paths, vec!["README.md", "notes"]);
}

#[test]
fn test_get_project_directories() {
    let project = Project {
        name: "app".to_string(),
        root: true,
        lang: "rust".to_string(),
        file: vec![],
        tree: vec![module("src", vec![module("domain", vec![module("model", vec![], vec![])], vec![])], vec![])],
    };
    let directories = moli::generation::DirectoryBuilder::get_project_directories(&project);
    assert_eq!(directories.len(), 3);
    assert!(directories.contains(&"src".to_string()));
    assert!(directories.contains(&"src/domain".to_string()));
    assert!(directories.contains(&"src/domain/model".to_string()));
}

#[test]
fn test_get_project_files() {
    let project = Project {
        name: "app".to_string(),
        root: true,
        lang: "rust".to_string(),
        file: vec![],
        tree: vec![module("src", vec![module("domain", vec![], vec![code("model")])], vec![])],
    };
    let files = FileBuilder::get_project_files(&project);
    // the entry module is made only when the layout names a main or lib file
    assert!(!files.contains(&"src/main.rs".to_string()));
    assert!(!files.contains(&"src/mod.rs".to_string()));
    assert!(files.contains(&"src/domain/mod.rs".to_string()));
    assert!(files.contains(&"src/domain/model.rs".to_string()));
}
