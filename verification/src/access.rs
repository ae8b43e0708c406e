//! What a caller may do on a mount: the grants that apply to them, merged.

use vstd::prelude::*;
use crate::config::{lemma_builtin_tokens, read_only, Config, MountConfig};
use crate::grant::PermissionSpec;
use crate::permission::Permission;
use crate::table::{entry_keys, find_key, first_index};
use crate::text::views;

verus! {

/// The actions of a permission that may be absent.
pub open spec fn held(current: Option<Permission>) -> Set<Seq<char>> {
    match current {
        Some(permission) => permission@,
        None => Set::<Seq<char>>::empty(),
    }
}

/// The name of a caller that may be anonymous.
pub open spec fn name_of(username: Option<&str>) -> Option<Seq<char>> {
    match username {
        Some(name) => Some(name@),
        None => None,
    }
}

/// What everyone has on the mount: `read` where it is public.
pub open spec fn public_grant(mount: &MountConfig) -> Set<Seq<char>> {
    if mount.public {
        read_only()
    } else {
        Set::<Seq<char>>::empty()
    }
}

/// What the grant under `name` in a table of grants resolves to; nothing
/// where the table has no such name.
pub open spec fn table_grant(
    config: &Config,
    table: Seq<(String, PermissionSpec)>,
    name: Seq<char>,
) -> Set<Seq<char>> {
    match first_index(entry_keys(table), name) {
        Some(i) => config.spec_grant(table[i].1@),
        None => Set::<Seq<char>>::empty(),
    }
}

/// What the mount grants to the given groups together.
pub open spec fn groups_grant(config: &Config, mount: &MountConfig, groups: Seq<Seq<char>>) -> Set<
    Seq<char>,
>
    decreases groups.len(),
{
    if groups.len() == 0 {
        Set::<Seq<char>>::empty()
    } else {
        groups_grant(config, mount, groups.drop_last()).union(
            table_grant(config, mount.group@, groups.last()),
        )
    }
}

/// The groups of a user; none for a name that the configuration lacks.
pub open spec fn member_groups(config: &Config, name: Seq<char>) -> Seq<Seq<char>> {
    match first_index(entry_keys(config.users@), name) {
        Some(i) => views(config.users@[i].1.group@),
        None => Seq::<Seq<char>>::empty(),
    }
}

/// All that a caller has on a mount: what everyone has, and for a named
/// caller the grant to the user and the grants to each of the user's groups.
pub open spec fn granted(config: &Config, username: Option<Seq<char>>, mount: &MountConfig) -> Set<
    Seq<char>,
> {
    match username {
        None => public_grant(mount),
        Some(name) => public_grant(mount).union(table_grant(config, mount.user@, name)).union(
            groups_grant(config, mount, member_groups(config, name)),
        ),
    }
}

/// Adds a resolved grant to what was gathered so far. An empty grant
/// changes nothing, so that no access stays no access.
pub fn merge_permission(current: Option<Permission>, addition: Permission) -> (r: Option<
    Permission,
>)
    ensures
        held(r) == held(current).union(addition@),
        r is None <==> current is None && addition@ == Set::<Seq<char>>::empty(),
{
    if addition.is_empty() {
        assert(held(current).union(addition@) =~= held(current));
        return current;
    }
    match current {
        Some(mut existing) => {
            existing.merge(&addition);
            Some(existing)
        },
        None => {
            assert(held(current).union(addition@) =~= addition@);
            Some(addition)
        },
    }
}

/// The permission of a caller on a mount, or `None` where the caller may do
/// nothing there.
pub fn effective_permission(config: &Config, username: Option<&str>, mount: &MountConfig) -> (r:
    Option<Permission>)
    ensures
        match r {
            Some(permission) => permission@ == granted(
                config,
                name_of(username),
                mount,
            ) && permission@ != Set::<Seq<char>>::empty(),
            None => granted(config, name_of(username), mount) == Set::<Seq<char>>::empty(),
        },
{
    proof {
        lemma_builtin_tokens();
    }
    let mut aggregated = if mount.public {
        Some(Permission::single("read"))
    } else {
        None
    };
    if let Some(name) = username {
        if let Some(at) = find_key(&mount.user, name) {
            let resolved = config.resolve_permission_spec(&mount.user[at].1);
            aggregated = merge_permission(aggregated, resolved);
        }
        assert(held(aggregated) =~= public_grant(mount).union(
            table_grant(config, mount.user@, name@),
        ));
        if let Some(who) = find_key(&config.users, name) {
            let groups = &config.users[who].1.group;
            let ghost first = held(aggregated);
            let n = groups.len();
            let mut i: usize = 0;
            assert(views(groups@).take(0) =~= Seq::<Seq<char>>::empty());
            assert(first.union(Set::<Seq<char>>::empty()) =~= first);
            while i < n
                invariant
                    i <= n,
                    n == groups.len(),
                    held(aggregated) == first.union(
                        groups_grant(config, mount, views(groups@).take(i as int)),
                    ),
                decreases n - i,
            {
                let ghost done = views(groups@).take(i as int);
                proof {
                    assert(views(groups@).take(i + 1).drop_last() =~= done);
                    assert(views(groups@).take(i + 1).last() == groups@[i as int]@);
                }
                if let Some(at) = find_key(&mount.group, groups[i].as_str()) {
                    let resolved = config.resolve_permission_spec(&mount.group[at].1);
                    aggregated = merge_permission(aggregated, resolved);
                }
                assert(held(aggregated) =~= first.union(
                    groups_grant(config, mount, views(groups@).take(i + 1)),
                ));
                i += 1;
            }
            assert(views(groups@).take(n as int) =~= views(groups@));
        } else {
            assert(held(aggregated).union(Set::<Seq<char>>::empty()) =~= held(aggregated));
        }
    }
    match aggregated {
        Some(permission) => if permission.is_empty() {
            None
        } else {
            Some(permission)
        },
        None => None,
    }
}

/// On a public mount everyone may read, whoever they are.
pub proof fn lemma_public_mount_grants_read(
    config: &Config,
    username: Option<Seq<char>>,
    mount: &MountConfig,
)
    requires
        mount.public,
    ensures
        granted(config, username, mount).contains("read"@),
{
}

/// What a mount grants to groups does not depend on their order: it is all
/// that it grants to any one of them.
pub proof fn lemma_groups_grant_members(
    config: &Config,
    mount: &MountConfig,
    groups: Seq<Seq<char>>,
    action: Seq<char>,
)
    ensures
        groups_grant(config, mount, groups).contains(action) <==> exists|i: int|
            0 <= i < groups.len() && #[trigger] table_grant(
                config,
                mount.group@,
                groups[i],
            ).contains(action),
    decreases groups.len(),
{
    if groups.len() > 0 {
        let init = groups.drop_last();
        lemma_groups_grant_members(config, mount, init, action);
        if groups_grant(config, mount, init).contains(action) {
            let k = choose|k: int|
                0 <= k < init.len() && #[trigger] table_grant(
                    config,
                    mount.group@,
                    init[k],
                ).contains(action);
            assert(groups[k] == init[k]);
        }
        if table_grant(config, mount.group@, groups.last()).contains(action) {
            assert(groups[groups.len() - 1] == groups.last());
        }
        if exists|i: int|
            0 <= i < groups.len() && #[trigger] table_grant(
                config,
                mount.group@,
                groups[i],
            ).contains(action) {
            let k = choose|k: int|
                0 <= k < groups.len() && #[trigger] table_grant(
                    config,
                    mount.group@,
                    groups[k],
                ).contains(action);
            if k < init.len() {
                assert(init[k] == groups[k]);
            }
        }
    }
}

} // verus!
