use lunafinder::access::{effective_permission, merge_permission};
use lunafinder::config::{Config, MountConfig, UserConfig};
use lunafinder::grant::PermissionSpec;
use lunafinder::permission::Permission;
use lunafinder::profile::PermissionProfile;

fn strings(items: &[&str]) -> Vec<String> {
    items.iter().map(|s| s.to_string()).collect()
}

fn spec(text: &str) -> PermissionSpec {
    PermissionSpec::from_string(text.to_string())
}

fn mount(public: bool, group: &[(&str, &str)], user: &[(&str, &str)]) -> MountConfig {
    MountConfig {
        path: "./data".to_string(),
        description: "Data".to_string(),
        public,
        group: group.iter().map(|(k, v)| (k.to_string(), spec(v))).collect(),
        user: user.iter().map(|(k, v)| (k.to_string(), spec(v))).collect(),
    }
}

fn user(groups: &[&str]) -> UserConfig {
    UserConfig {
        password: String::new(),
        group: strings(groups),
        hash_algorithm: "plain".to_string(),
    }
}

fn config_with(users: &[(&str, &[&str])]) -> Config {
    let mut config = Config::default();
    config.users = users.iter().map(|(name, groups)| (name.to_string(), user(groups))).collect();
    config.permissions = vec![(
        "editor".to_string(),
        PermissionProfile {
            actions: vec![
                ("read".to_string(), true),
                ("modify".to_string(), true),
                ("delete".to_string(), false),
            ],
        },
    )];
    config
}

#[test]
fn default_config_has_one_public_mount() {
    let config = Config::default();
    assert_eq!(config.server.host, "127.0.0.1");
    assert_eq!(config.server.port, 8080);
    assert_eq!(config.main_page.title, "LunaFinder");
    assert_eq!(config.main_page.description, "Welcome to LunaFinder");
    assert_eq!(config.main_page.markdown_file, "./page.md");
    assert!(config.users.is_empty());
    assert!(config.permissions.is_empty());
    assert_eq!(config.mounts.len(), 1);
    assert_eq!(config.mounts[0].0, "public");
    assert_eq!(config.mounts[0].1, mount_public_default());
}

fn mount_public_default() -> MountConfig {
    MountConfig {
        path: "./public".to_string(),
        description: "Public files".to_string(),
        public: true,
        group: Vec::new(),
        user: Vec::new(),
    }
}

#[test]
fn get_mount_finds_by_name() {
    let config = Config::default();
    assert_eq!(config.get_mount("public"), Some(&mount_public_default()));
    assert_eq!(config.get_mount("Public"), None);
    assert_eq!(config.get_mount("private"), None);
}

#[test]
fn shorthand_tokens_resolve() {
    let config = config_with(&[]);
    for token in ["r", "read", " READ ", "R"] {
        assert_eq!(config.resolve_permission_token(token).actions(), strings(&["read"]));
    }
    for token in ["w", "write", "Write"] {
        assert_eq!(config.resolve_permission_token(token).actions(), strings(&["write"]));
    }
    for token in ["rw", "readwrite", "read_write", " RW"] {
        assert_eq!(config.resolve_permission_token(token).actions(), strings(&["read", "write"]));
    }
}

#[test]
fn empty_token_resolves_to_nothing() {
    let config = config_with(&[]);
    assert!(config.resolve_permission_token("").is_empty());
    assert!(config.resolve_permission_token("   ").is_empty());
}

#[test]
fn profile_name_resolves_to_its_allowed_actions() {
    let config = config_with(&[]);
    assert_eq!(config.resolve_permission_token("editor").actions(), strings(&["modify", "read"]));
    assert_eq!(config.resolve_permission_token(" Editor ").actions(), strings(&["modify", "read"]));
}

#[test]
fn unknown_token_is_an_action_of_its_own() {
    let config = config_with(&[]);
    assert_eq!(config.resolve_permission_token(" Archive ").actions(), strings(&["archive"]));
}

#[test]
fn token_and_its_normal_form_resolve_alike() {
    let config = config_with(&[]);
    for token in ["  READ ", "Rw", " Editor", "ARCHIVE ", "", "  ", "w"] {
        let normal = token.trim().to_lowercase();
        assert_eq!(
            config.resolve_permission_token(token),
            config.resolve_permission_token(&normal)
        );
        assert_eq!(config.resolve_permission_token(token), config.resolve_normal_token(&normal));
    }
}

#[test]
fn spec_resolves_to_the_union_of_its_tokens() {
    let config = config_with(&[]);
    let resolved = config.resolve_permission_spec(&spec("r, editor, archive"));
    assert_eq!(resolved.actions(), strings(&["archive", "modify", "read"]));
    assert!(config.resolve_permission_spec(&PermissionSpec::default()).is_empty());
}

#[test]
fn concatenated_specs_resolve_to_the_merge() {
    let config = config_with(&[]);
    let first = spec("read, archive");
    let second = spec("editor, w");
    let both = PermissionSpec::from_vec(strings(&["read, archive", "editor, w"]));
    let mut merged = config.resolve_permission_spec(&first);
    merged.merge(&config.resolve_permission_spec(&second));
    assert_eq!(config.resolve_permission_spec(&both), merged);
    let swapped = PermissionSpec::from_vec(strings(&["editor, w", "read, archive"]));
    assert_eq!(config.resolve_permission_spec(&swapped), merged);
}

#[test]
fn normalize_lowercases_profile_names() {
    let mut config = Config::default();
    config.permissions = vec![
        ("Editor".to_string(), PermissionProfile { actions: vec![("Read".to_string(), true)] }),
        ("viewer".to_string(), PermissionProfile { actions: vec![("read".to_string(), true)] }),
        ("EDITOR".to_string(), PermissionProfile { actions: vec![("WRITE".to_string(), true)] }),
    ];
    let before = config.clone();
    config.normalize();
    assert_eq!(
        config.permissions,
        vec![
            (
                "editor".to_string(),
                PermissionProfile { actions: vec![("write".to_string(), true)] }
            ),
            ("viewer".to_string(), PermissionProfile { actions: vec![("read".to_string(), true)] }),
        ]
    );
    assert_eq!(config.mounts, before.mounts);
    assert_eq!(config.server, before.server);
    assert_eq!(config.resolve_permission_token("Editor").actions(), strings(&["write"]));
}

#[test]
fn public_mount_lets_anyone_read() {
    let config = config_with(&[]);
    let m = mount(true, &[], &[]);
    let permission = effective_permission(&config, None, &m);
    assert_eq!(permission, Some(Permission::from_actions(&["read"])));
    assert_eq!(permission.unwrap().actions(), strings(&["read"]));
}

#[test]
fn private_mount_without_grant_gives_nothing() {
    let config = config_with(&[("bob", &["staff"])]);
    let m = mount(false, &[("editors", "write")], &[("alice", "rw")]);
    assert_eq!(effective_permission(&config, Some("bob"), &m), None);
    assert_eq!(effective_permission(&config, None, &m), None);
    assert_eq!(effective_permission(&config, Some("stranger"), &m), None);
}

#[test]
fn group_grant_reaches_the_member() {
    let config = config_with(&[("alice", &["editors"])]);
    let m = mount(false, &[("editors", "write")], &[]);
    let permission = effective_permission(&config, Some("alice"), &m).unwrap();
    assert!(permission.allows_write());
    assert!(permission.allows_delete());
    assert_eq!(permission.actions(), strings(&["write"]));
}

#[test]
fn user_and_group_grants_add_up() {
    let config = config_with(&[("alice", &["editors", "auditors", "nobody"])]);
    let m = mount(
        true,
        &[("auditors", "archive"), ("editors", "editor"), ("admins", "write")],
        &[("alice", "upload"), ("bob", "delete")],
    );
    let permission = effective_permission(&config, Some("alice"), &m).unwrap();
    assert_eq!(permission.actions(), strings(&["archive", "modify", "read", "upload"]));
    let bob = effective_permission(&config, Some("bob"), &m).unwrap();
    assert_eq!(bob.actions(), strings(&["delete", "read"]));
}

#[test]
fn order_of_groups_does_not_matter() {
    let m = mount(false, &[("a", "read"), ("b", "delete"), ("c", "archive")], &[]);
    let one = config_with(&[("alice", &["a", "b", "c"])]);
    let other = config_with(&[("alice", &["c", "a", "b"])]);
    assert_eq!(
        effective_permission(&one, Some("alice"), &m),
        effective_permission(&other, Some("alice"), &m)
    );
}

#[test]
fn empty_grant_is_no_access() {
    let config = config_with(&[("alice", &["ghosts"])]);
    let m = mount(false, &[("ghosts", " , ")], &[("alice", "")]);
    assert_eq!(effective_permission(&config, Some("alice"), &m), None);
}

#[test]
fn user_grant_needs_no_user_entry() {
    let config = config_with(&[]);
    let m = mount(false, &[], &[("carol", "r")]);
    let permission = effective_permission(&config, Some("carol"), &m).unwrap();
    assert_eq!(permission.actions(), strings(&["read"]));
}

#[test]
fn merge_permission_keeps_absence_for_an_empty_addition() {
    assert_eq!(merge_permission(None, Permission::default()), None);
    let read = Permission::from_actions(&["read"]);
    assert_eq!(merge_permission(Some(read.clone()), Permission::default()), Some(read.clone()));
    assert_eq!(merge_permission(None, read.clone()), Some(read.clone()));
    let write = Permission::from_actions(&["write"]);
    assert_eq!(
        merge_permission(Some(read), write),
        Some(Permission::from_actions(&["read", "write"]))
    );
}

#[test]
fn resolved_tokens_are_stored_in_normal_form() {
    let config = config_with(&[]);
    for token in [" Archive ", "RW", "Editor", " zIp"] {
        for action in config.resolve_permission_token(token).actions() {
            assert_eq!(action, action.trim().to_lowercase());
        }
    }
}

#[test]
fn shorthand_comes_before_a_profile_of_the_same_name() {
    let mut config = config_with(&[]);
    config.permissions.push((
        "rw".to_string(),
        PermissionProfile { actions: vec![("delete".to_string(), true)] },
    ));
    assert_eq!(config.resolve_permission_token("rw").actions(), strings(&["read", "write"]));
    assert_eq!(config.resolve_normal_token("rw").actions(), strings(&["read", "write"]));
}
