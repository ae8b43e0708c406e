use lunafinder::paths::{
    copy_part, is_anchored, is_safe_path, normalize_components, normalize_relative_path,
    resolve_path, same_part, sanitize_component, sanitize_file_name, ComponentPath,
    ContainmentError, PathPart,
};

fn normal(name: &str) -> PathPart {
    PathPart::Normal(name.to_string())
}

fn names(items: &[&str]) -> ComponentPath {
    ComponentPath { parts: items.iter().map(|s| normal(s)).collect() }
}

fn rooted(items: &[&str]) -> ComponentPath {
    let mut parts = vec![PathPart::RootDir];
    parts.extend(items.iter().map(|s| normal(s)));
    ComponentPath { parts }
}

#[test]
fn empty_and_dot_are_the_root() {
    assert_eq!(normalize_relative_path(""), Some(names(&[])));
    assert_eq!(normalize_relative_path("."), Some(names(&[])));
}

#[test]
fn plain_path_is_kept() {
    assert_eq!(normalize_relative_path("docs/a.txt"), Some(names(&["docs", "a.txt"])));
    assert_eq!(normalize_relative_path("docs"), Some(names(&["docs"])));
}

#[test]
fn dot_segments_collapse() {
    assert_eq!(normalize_relative_path("a/./b/../c"), Some(names(&["a", "c"])));
    assert_eq!(normalize_relative_path("./a"), Some(names(&["a"])));
    assert_eq!(normalize_relative_path("a//b/"), Some(names(&["a", "b"])));
}

#[test]
fn parent_may_return_to_the_root() {
    assert_eq!(normalize_relative_path("a/.."), Some(names(&[])));
    assert_eq!(normalize_relative_path("a/b/../.."), Some(names(&[])));
}

#[test]
fn escape_is_refused() {
    assert_eq!(normalize_relative_path("../../etc/passwd"), None);
    assert_eq!(normalize_relative_path(".."), None);
    assert_eq!(normalize_relative_path("a/../.."), None);
    assert_eq!(normalize_relative_path("a/../../b"), None);
    assert_eq!(normalize_relative_path("./.."), None);
}

#[test]
fn absolute_path_is_refused() {
    assert_eq!(normalize_relative_path("/etc/passwd"), None);
    assert_eq!(normalize_relative_path("/"), None);
}

#[test]
fn normalize_components_follows_each_kind() {
    let parts = vec![normal("a"), PathPart::CurDir, normal("b"), PathPart::ParentDir, normal("c")];
    assert_eq!(normalize_components(&parts), Some(names(&["a", "c"])));
    assert_eq!(normalize_components(&Vec::new()), Some(names(&[])));
    assert_eq!(normalize_components(&vec![PathPart::ParentDir]), None);
    assert_eq!(normalize_components(&vec![normal("a"), PathPart::RootDir]), None);
    assert_eq!(normalize_components(&vec![PathPart::Prefix("C:".to_string()), normal("a")]), None);
    assert_eq!(
        normalize_components(&vec![PathPart::ParentDir, normal("a"), normal("b")]),
        None
    );
}

#[test]
fn sanitize_trims_the_name() {
    assert_eq!(sanitize_file_name("  report.pdf  "), Some("report.pdf".to_string()));
    assert_eq!(sanitize_file_name("notes.txt"), Some("notes.txt".to_string()));
}

#[test]
fn sanitize_keeps_only_the_last_component() {
    assert_eq!(sanitize_file_name("../evil.sh"), Some("evil.sh".to_string()));
    assert_eq!(sanitize_file_name("/etc/passwd"), Some("passwd".to_string()));
    assert_eq!(sanitize_file_name("a/b/c.txt"), Some("c.txt".to_string()));
}

#[test]
fn sanitize_refuses_what_is_no_name() {
    assert_eq!(sanitize_file_name(""), None);
    assert_eq!(sanitize_file_name(".."), None);
    assert_eq!(sanitize_file_name("a/.."), None);
    assert_eq!(sanitize_file_name("/"), None);
    assert_eq!(sanitize_file_name("   "), None);
    assert_eq!(sanitize_file_name("dir/   "), None);
}

#[test]
fn sanitize_refuses_a_backslash() {
    assert_eq!(sanitize_file_name("..\\evil.sh"), None);
    assert_eq!(sanitize_file_name("a\\b"), None);
}

#[test]
fn sanitize_component_looks_at_the_last_part() {
    assert_eq!(sanitize_component(&vec![normal("a"), normal(" b ")]), Some("b".to_string()));
    assert_eq!(sanitize_component(&vec![normal("a"), PathPart::ParentDir]), None);
    assert_eq!(sanitize_component(&vec![normal("a/b")]), None);
    assert_eq!(sanitize_component(&Vec::new()), None);
}

#[test]
fn resolve_appends_to_the_root() {
    let base = rooted(&["srv", "files"]);
    assert_eq!(resolve_path(&base, &names(&["a", "b"])), Ok(rooted(&["srv", "files", "a", "b"])));
}

#[test]
fn resolve_of_the_empty_path_is_the_root() {
    let base = rooted(&["srv", "files"]);
    assert_eq!(resolve_path(&base, &names(&[])), Ok(base.clone()));
}

#[test]
fn resolve_refuses_an_anchored_path() {
    let base = rooted(&["srv", "files"]);
    assert_eq!(resolve_path(&base, &rooted(&["etc"])), Err(ContainmentError));
    let prefixed = ComponentPath { parts: vec![PathPart::Prefix("C:".to_string()), normal("x")] };
    assert_eq!(resolve_path(&base, &prefixed), Err(ContainmentError));
}

#[test]
fn resolve_accepts_an_anchored_path_below_the_root() {
    let base = rooted(&["srv"]);
    assert_eq!(resolve_path(&base, &rooted(&["srv", "a"])), Ok(rooted(&["srv", "a"])));
}

#[test]
fn normalized_path_is_always_confined() {
    let base = rooted(&["srv", "files"]);
    for raw in ["a/b", "a/./b/../c", ".", "", "x/../y"] {
        let relative = normalize_relative_path(raw).unwrap();
        let target = resolve_path(&base, &relative).unwrap();
        assert!(is_safe_path(&base, &target));
        assert_eq!(&target.parts[..base.parts.len()], &base.parts[..]);
    }
}

#[test]
fn safe_path_compares_whole_components() {
    let base = rooted(&["srv", "files"]);
    assert!(is_safe_path(&base, &rooted(&["srv", "files"])));
    assert!(is_safe_path(&base, &rooted(&["srv", "files", "a"])));
    assert!(!is_safe_path(&base, &rooted(&["srv", "files2", "a"])));
    assert!(!is_safe_path(&base, &rooted(&["srv"])));
    assert!(!is_safe_path(&base, &names(&["srv", "files"])));
    assert!(is_safe_path(&names(&[]), &base));
}

#[test]
fn parts_compare_by_kind_and_text() {
    assert!(same_part(&normal("a"), &normal("a")));
    assert!(!same_part(&normal("a"), &normal("b")));
    assert!(!same_part(&normal("a"), &PathPart::Prefix("a".to_string())));
    assert!(same_part(&PathPart::RootDir, &PathPart::RootDir));
    assert!(!same_part(&PathPart::CurDir, &PathPart::ParentDir));
    assert_eq!(copy_part(&normal("a")), normal("a"));
    assert_eq!(copy_part(&PathPart::ParentDir), PathPart::ParentDir);
}

#[test]
fn anchored_paths_start_at_a_root_or_prefix() {
    assert!(is_anchored(&rooted(&["a"])));
    assert!(is_anchored(&ComponentPath { parts: vec![PathPart::Prefix("C:".to_string())] }));
    assert!(!is_anchored(&names(&["a"])));
    assert!(!is_anchored(&names(&[])));
}

#[test]
fn names_keep_their_characters() {
    assert_eq!(normalize_relative_path("a b/é.txt"), Some(names(&["a b", "é.txt"])));
    assert_eq!(normalize_relative_path("..."), Some(names(&["..."])));
    assert_eq!(normalize_relative_path("a/...b/.c"), Some(names(&["a", "...b", ".c"])));
}

#[test]
fn sanitize_refuses_dots_wrapped_in_blanks() {
    assert_eq!(sanitize_file_name(" .. "), None);
    assert_eq!(sanitize_file_name(" . "), None);
    assert_eq!(sanitize_file_name("\t..\n"), None);
    assert_eq!(sanitize_file_name("a/ .. "), None);
    assert_eq!(sanitize_file_name("a/ ."), None);
    assert_eq!(sanitize_file_name("."), None);
}

#[test]
fn sanitize_component_refuses_dot_names() {
    assert_eq!(sanitize_component(&vec![normal(" .. ")]), None);
    assert_eq!(sanitize_component(&vec![normal(" . ")]), None);
    assert_eq!(sanitize_component(&vec![normal("..")]), None);
    assert_eq!(sanitize_component(&vec![normal(".")]), None);
    assert_eq!(sanitize_component(&vec![normal("a"), normal(" .. ")]), None);
}

#[test]
fn sanitize_keeps_names_that_only_hold_dots() {
    assert_eq!(sanitize_file_name("..."), Some("...".to_string()));
    assert_eq!(sanitize_file_name(" .hidden "), Some(".hidden".to_string()));
    assert_eq!(sanitize_file_name("a..b"), Some("a..b".to_string()));
    assert_eq!(sanitize_file_name(". ."), Some(". .".to_string()));
}

#[test]
fn normalising_twice_changes_nothing() {
    for raw in ["a/./b/../c", "x", "", "a/b/c/../.."] {
        let once = normalize_relative_path(raw).unwrap();
        assert_eq!(normalize_components(&once.parts), Some(once.clone()));
    }
}
