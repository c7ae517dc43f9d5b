use moli::scanner::FilesystemScanner;

#[test]
fn test_strip_standard_extension() {
    assert_eq!(FilesystemScanner::strip_standard_extension("model.rs"), Some("model".to_string()));
    assert_eq!(FilesystemScanner::strip_standard_extension("handler.go"), Some("handler".to_string()));
    assert_eq!(FilesystemScanner::strip_standard_extension("App.tsx"), None);
    assert_eq!(FilesystemScanner::strip_standard_extension("README.md"), None);
}

#[test]
fn test_filename_without_standard_extension() {
    assert_eq!(FilesystemScanner::filename_without_standard_extension("model.rs", "rust"), "model");
    assert_eq!(FilesystemScanner::filename_without_standard_extension("handler.go", "go"), "handler");
    assert_eq!(
        FilesystemScanner::filename_without_standard_extension("App.tsx", "typescript"),
        "App.tsx"
    );
    assert_eq!(FilesystemScanner::filename_without_standard_extension("main.py", "python"), "main");
    assert_eq!(
        FilesystemScanner::filename_without_standard_extension("config.yaml", "rust"),
        "config.yaml"
    );
}
