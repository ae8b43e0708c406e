use lunafinder::listing::{
    build_open_paths, is_readme_file, is_readme_name, is_text_file, is_text_name,
    pathbuf_to_string, text_of_part,
};
use lunafinder::paths::{normalize_relative_path, ComponentPath, PathPart};

fn strings(items: &[&str]) -> Vec<String> {
    items.iter().map(|s| s.to_string()).collect()
}

#[test]
fn empty_path_is_shown_as_dot() {
    assert_eq!(pathbuf_to_string(&ComponentPath { parts: Vec::new() }), ".");
}

#[test]
fn components_are_shown_with_slashes() {
    let path = normalize_relative_path("a/b/./c").unwrap();
    assert_eq!(pathbuf_to_string(&path), "a/b/c");
    let one = normalize_relative_path("a").unwrap();
    assert_eq!(pathbuf_to_string(&one), "a");
}

#[test]
fn every_kind_of_component_has_a_text() {
    assert_eq!(text_of_part(&PathPart::RootDir), "/");
    assert_eq!(text_of_part(&PathPart::CurDir), ".");
    assert_eq!(text_of_part(&PathPart::ParentDir), "..");
    assert_eq!(text_of_part(&PathPart::Normal("n".to_string())), "n");
    assert_eq!(text_of_part(&PathPart::Prefix("C:".to_string())), "C:");
    let path = ComponentPath {
        parts: vec![PathPart::ParentDir, PathPart::Normal("x".to_string()), PathPart::CurDir],
    };
    assert_eq!(pathbuf_to_string(&path), "../x/.");
}

#[test]
fn open_paths_of_the_root() {
    assert_eq!(build_open_paths("."), strings(&["."]));
    assert_eq!(build_open_paths(""), strings(&["."]));
    assert_eq!(build_open_paths("/"), strings(&["."]));
}

#[test]
fn open_paths_lead_down_to_the_current_one() {
    assert_eq!(build_open_paths("a/b/c"), strings(&[".", "a", "a/b", "a/b/c"]));
    assert_eq!(build_open_paths("a"), strings(&[".", "a"]));
}

#[test]
fn open_paths_skip_empty_pieces_and_dots() {
    assert_eq!(build_open_paths("a//./b/"), strings(&[".", "a", "a/b"]));
    assert_eq!(build_open_paths("./a"), strings(&[".", "a"]));
}

#[test]
fn readme_names_are_known_in_any_case() {
    assert!(is_readme_file("README.md"));
    assert!(is_readme_file("readme"));
    assert!(is_readme_file("ReadMe.TXT"));
    assert!(is_readme_file("readme.rst"));
    assert!(!is_readme_file("readme.html"));
    assert!(!is_readme_file("my-readme.md"));
    assert!(is_readme_name("readme.md"));
    assert!(!is_readme_name("README.md"));
}

#[test]
fn text_files_are_known_by_their_ending() {
    for name in
        ["a.txt", "b.MD", "c.rst", "d.log", "e.cfg", "f.conf", "g.toml", "h.JSON", "i.xml", "j.csv"]
    {
        assert!(is_text_file(name));
    }
    assert!(is_text_file(".txt"));
    assert!(!is_text_file("a.png"));
    assert!(!is_text_file("txt"));
    assert!(!is_text_file("a.txt.bak"));
    assert!(is_text_name("a.md"));
    assert!(!is_text_name("a.MD"));
}
