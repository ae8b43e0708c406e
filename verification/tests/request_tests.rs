use lunafinder::config::{Config, MountConfig, UserConfig};
use lunafinder::grant::PermissionSpec;
use lunafinder::paths::{is_child_of, ComponentPath, PathPart};
use lunafinder::permission::Permission;
use lunafinder::request::{
    authorize, may_delete, may_rename, mount_is_listed, permits, Operation,
};

fn rooted(items: &[&str]) -> ComponentPath {
    let mut parts = vec![PathPart::RootDir];
    parts.extend(items.iter().map(|s| PathPart::Normal(s.to_string())));
    ComponentPath { parts }
}

fn mount(public: bool, group: &[(&str, &str)]) -> MountConfig {
    MountConfig {
        path: "./data".to_string(),
        description: "Data".to_string(),
        public,
        group: group
            .iter()
            .map(|(k, v)| (k.to_string(), PermissionSpec::from_string(v.to_string())))
            .collect(),
        user: Vec::new(),
    }
}

fn config_with_alice() -> Config {
    let mut config = Config::default();
    config.users = vec![(
        "alice".to_string(),
        UserConfig {
            password: String::new(),
            group: vec!["editors".to_string()],
            hash_algorithm: "plain".to_string(),
        },
    )];
    config
}

#[test]
fn permits_follows_the_capabilities() {
    let delete = Permission::from_actions(&["delete"]);
    assert!(permits(&delete, Operation::Read));
    assert!(permits(&delete, Operation::Write));
    assert!(permits(&delete, Operation::Delete));
    assert!(!permits(&delete, Operation::Upload));
    assert!(!permits(&delete, Operation::Rename));
    assert!(!permits(&delete, Operation::Modify));
    let read = Permission::from_actions(&["read"]);
    assert!(permits(&read, Operation::Read));
    assert!(!permits(&read, Operation::Write));
    let write = Permission::from_actions(&["write"]);
    for operation in [
        Operation::Read,
        Operation::Write,
        Operation::Upload,
        Operation::Delete,
        Operation::Rename,
        Operation::Modify,
    ] {
        assert!(permits(&write, operation));
        assert!(!permits(&Permission::default(), operation));
    }
}

#[test]
fn authorize_gives_the_permission_that_allows() {
    let config = config_with_alice();
    let m = mount(true, &[("editors", "modify")]);
    let allowed = authorize(&config, Some("alice"), &m, Operation::Modify);
    assert_eq!(allowed, Some(Permission::from_actions(&["modify", "read"])));
    assert_eq!(authorize(&config, Some("alice"), &m, Operation::Delete), None);
    assert_eq!(
        authorize(&config, None, &m, Operation::Read),
        Some(Permission::from_actions(&["read"]))
    );
    assert_eq!(authorize(&config, None, &m, Operation::Modify), None);
}

#[test]
fn authorize_refuses_where_nothing_is_granted() {
    let config = config_with_alice();
    let m = mount(false, &[("admins", "write")]);
    assert_eq!(authorize(&config, Some("alice"), &m, Operation::Read), None);
    assert_eq!(authorize(&config, None, &m, Operation::Read), None);
}

#[test]
fn mounts_are_listed_for_those_with_access() {
    let config = config_with_alice();
    let open = mount(true, &[]);
    let closed = mount(false, &[("editors", "archive")]);
    let empty = mount(false, &[("editors", "")]);
    assert!(mount_is_listed(&config, None, &open));
    assert!(mount_is_listed(&config, Some("alice"), &open));
    assert!(mount_is_listed(&config, Some("bob"), &open));
    assert!(!mount_is_listed(&config, None, &closed));
    assert!(mount_is_listed(&config, Some("alice"), &closed));
    assert!(!mount_is_listed(&config, Some("bob"), &closed));
    assert!(!mount_is_listed(&config, Some("alice"), &empty));
}

#[test]
fn delete_reaches_the_directory_and_below() {
    let current = rooted(&["srv", "docs"]);
    assert!(may_delete(&current, &rooted(&["srv", "docs", "a.txt"])));
    assert!(may_delete(&current, &rooted(&["srv", "docs", "sub", "a.txt"])));
    assert!(may_delete(&current, &rooted(&["srv", "docs"])));
    assert!(!may_delete(&current, &rooted(&["srv", "other", "a.txt"])));
    assert!(!may_delete(&current, &rooted(&["srv"])));
}

#[test]
fn rename_reaches_only_the_entries_of_the_directory() {
    let current = rooted(&["srv", "docs"]);
    assert!(may_rename(&current, &rooted(&["srv", "docs", "a.txt"])));
    assert!(!may_rename(&current, &rooted(&["srv", "docs", "sub", "a.txt"])));
    assert!(!may_rename(&current, &rooted(&["srv", "docs"])));
    assert!(!may_rename(&current, &rooted(&["srv", "other"])));
}

#[test]
fn a_root_is_nobodys_child() {
    let nothing = ComponentPath { parts: Vec::new() };
    let root = ComponentPath { parts: vec![PathPart::RootDir] };
    assert!(!is_child_of(&root, &nothing));
    assert!(!is_child_of(&nothing, &nothing));
    assert!(is_child_of(&rooted(&["a"]), &root));
    assert!(is_child_of(
        &ComponentPath { parts: vec![PathPart::Normal("a".to_string())] },
        &nothing
    ));
}
