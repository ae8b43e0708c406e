//! The decisions that a request passes before anything on disk is touched:
//! whether the caller may do what they ask, and whether the entry they name
//! lies where they are.

use vstd::prelude::*;
use crate::access::{effective_permission, granted, name_of};
use crate::config::{Config, MountConfig};
use crate::paths::{child_of, has_prefix, is_child_of, is_safe_path, ComponentPath, PartView};
use crate::permission::{
    grants_delete, grants_modify, grants_read, grants_rename, grants_upload, grants_write,
    Permission,
};

verus! {

/// What a request intends to do on a mount.
#[derive(Debug, Clone, Copy, PartialEq, Eq)]
pub enum Operation {
    Read,
    Write,
    Upload,
    Delete,
    Rename,
    Modify,
}

/// Whether a set of actions allows an operation.
pub open spec fn grants(actions: Set<Seq<char>>, operation: Operation) -> bool {
    match operation {
        Operation::Read => grants_read(actions),
        Operation::Write => grants_write(actions),
        Operation::Upload => grants_upload(actions),
        Operation::Delete => grants_delete(actions),
        Operation::Rename => grants_rename(actions),
        Operation::Modify => grants_modify(actions),
    }
}

/// Whether a permission allows an operation.
pub fn permits(permission: &Permission, operation: Operation) -> (r: bool)
    ensures
        r == grants(permission@, operation),
{
    match operation {
        Operation::Read => permission.allows_read(),
        Operation::Write => permission.allows_write(),
        Operation::Upload => permission.allows_upload(),
        Operation::Delete => permission.allows_delete(),
        Operation::Rename => permission.allows_rename(),
        Operation::Modify => permission.allows_modify(),
    }
}

/// The permission of a caller on a mount where it allows the operation, and
/// `None` where the caller may not do what they ask.
pub fn authorize(
    config: &Config,
    username: Option<&str>,
    mount: &MountConfig,
    operation: Operation,
) -> (r: Option<Permission>)
    ensures
        match r {
            Some(permission) => permission@ == granted(config, name_of(username), mount) && grants(
                permission@,
                operation,
            ),
            None => !grants(granted(config, name_of(username), mount), operation),
        },
{
    match effective_permission(config, username, mount) {
        Some(permission) => if permits(&permission, operation) {
            Some(permission)
        } else {
            None
        },
        None => None,
    }
}

/// Whether a mount is shown to a caller in the list of mounts: where the
/// caller may do anything on it, which for a visitor without a name means
/// that the mount is public.
pub fn mount_is_listed(config: &Config, username: Option<&str>, mount: &MountConfig) -> (r: bool)
    ensures
        r == (granted(config, name_of(username), mount) != Set::<Seq<char>>::empty()),
        username is None ==> r == mount.public,
{
    proof {
        if mount.public {
            assert(granted(config, name_of(username), mount).contains("read"@));
        }
    }
    effective_permission(config, username, mount).is_some()
}

/// Whether an entry may be deleted from where the caller is: it lies in the
/// current directory or below it.
pub fn may_delete(current: &ComponentPath, target: &ComponentPath) -> (r: bool)
    ensures
        r == (has_prefix(target@, current@) || child_of(target@, current@)),
{
    is_safe_path(current, target) || is_child_of(target, current)
}

/// Whether an entry may be renamed from where the caller is: it is an entry
/// of the current directory itself.
pub fn may_rename(current: &ComponentPath, source: &ComponentPath) -> (r: bool)
    ensures
        r == child_of(source@, current@),
{
    is_child_of(source, current)
}

/// Whatever is an entry of a directory lies below it.
pub proof fn lemma_child_lies_inside(path: Seq<PartView>, dir: Seq<PartView>)
    requires
        child_of(path, dir),
    ensures
        has_prefix(path, dir),
{
    assert(path.take(dir.len() as int) =~= path.drop_last());
}

} // verus!
