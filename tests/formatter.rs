use moli::formatter::add_project_spacing;

#[test]
fn test_add_project_spacing() {
    let input = "- name: project1\n  lang: rust\n- name: project2\n  lang: go\n";
    let expected = "- name: project1\n  lang: rust\n\n\n\n- name: project2\n  lang: go\n";
    assert_eq!(add_project_spacing(input), expected);
}

#[test]
fn test_add_project_spacing_single_project() {
    let input = "- name: project1\n  lang: rust\n";
    let expected = "- name: project1\n  lang: rust\n";
    assert_eq!(add_project_spacing(input), expected);
}

#[test]
fn spacing_adds_final_newline() {
    assert_eq!(add_project_spacing("- name: a\n- name: b"), "- name: a\n\n\n\n- name: b\n");
    assert_eq!(add_project_spacing(""), "");
}
