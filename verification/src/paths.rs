//! Paths as sequences of components: normalising what a caller sent,
//! confining it to a mount, and reducing a file name to one component.

use vstd::prelude::*;
use crate::text::{lemma_trimmed_idempotent, str_eq, trim, trimmed};

verus! {

/// One component of a path, as `std::path` tells them apart.
#[derive(Debug, Clone, PartialEq, Eq)]
pub enum PathPart {
    /// A drive or share prefix, with its text.
    Prefix(String),
    /// The root of the file system.
    RootDir,
    /// The directory itself, `.`.
    CurDir,
    /// The directory above, `..`.
    ParentDir,
    /// A named file or directory.
    Normal(String),
}

/// A component with its text as a sequence of characters.
pub enum PartView {
    Prefix(Seq<char>),
    RootDir,
    CurDir,
    ParentDir,
    Normal(Seq<char>),
}

impl View for PathPart {
    type V = PartView;

    open spec fn view(&self) -> PartView {
        match self {
            PathPart::Prefix(text) => PartView::Prefix(text@),
            PathPart::RootDir => PartView::RootDir,
            PathPart::CurDir => PartView::CurDir,
            PathPart::ParentDir => PartView::ParentDir,
            PathPart::Normal(name) => PartView::Normal(name@),
        }
    }
}

/// A path as the sequence of its components.
#[derive(Debug, Clone, PartialEq, Eq)]
pub struct ComponentPath {
    pub parts: Vec<PathPart>,
}

impl View for ComponentPath {
    type V = Seq<PartView>;

    open spec fn view(&self) -> Seq<PartView> {
        part_views(self.parts@)
    }
}

/// A joined path left the mount that it was joined to.
#[derive(Debug, Clone, Copy, PartialEq, Eq)]
pub struct ContainmentError;

/// The components of a sequence of parts.
pub open spec fn part_views(parts: Seq<PathPart>) -> Seq<PartView> {
    Seq::new(parts.len(), |i: int| parts[i]@)
}

/// The components into which `std::path::Path::components` parses `raw`
/// under the host's conventions.
pub uninterp spec fn components_of(raw: Seq<char>) -> Seq<PartView>;

/// The path below a root that a sequence of components leads to: `.` is
/// dropped, a name goes one level down, `..` goes one level up and fails at
/// the root, and a prefix or a root marker fails.
pub open spec fn normalized(parts: Seq<PartView>) -> Option<Seq<PartView>>
    decreases parts.len(),
{
    if parts.len() == 0 {
        Some(Seq::<PartView>::empty())
    } else {
        match normalized(parts.drop_last()) {
            None => None,
            Some(done) => match parts.last() {
                PartView::CurDir => Some(done),
                PartView::Normal(name) => Some(done.push(PartView::Normal(name))),
                PartView::ParentDir => if done.len() > 0 {
                    Some(done.drop_last())
                } else {
                    None
                },
                _ => None,
            },
        }
    }
}

/// What a raw path normalises to: the root itself for the empty string and
/// for `.`, else what its components lead to.
pub open spec fn relative_of(raw: Seq<char>) -> Option<Seq<PartView>> {
    if raw.len() == 0 || raw == "."@ {
        Some(Seq::<PartView>::empty())
    } else {
        normalized(components_of(raw))
    }
}

/// Every component is a name.
pub open spec fn all_normal(parts: Seq<PartView>) -> bool {
    forall|i: int| 0 <= i < parts.len() ==> (#[trigger] parts[i]) is Normal
}

/// How many levels below its start a sequence of components ends: names
/// count one down, `..` one up.
pub open spec fn depth(parts: Seq<PartView>) -> int
    decreases parts.len(),
{
    if parts.len() == 0 {
        0
    } else {
        depth(parts.drop_last()) + match parts.last() {
            PartView::Normal(_) => 1int,
            PartView::ParentDir => -1int,
            _ => 0int,
        }
    }
}

/// The names among the components, in order.
pub open spec fn names_of(parts: Seq<PartView>) -> Seq<PartView>
    decreases parts.len(),
{
    if parts.len() == 0 {
        Seq::<PartView>::empty()
    } else if parts.last() is Normal {
        names_of(parts.drop_last()).push(parts.last())
    } else {
        names_of(parts.drop_last())
    }
}

/// Every component is a name or `.`.
pub open spec fn all_plain(parts: Seq<PartView>) -> bool {
    forall|i: int| 0 <= i < parts.len() ==> (#[trigger] parts[i]) is Normal || parts[i] is CurDir
}

/// Whether a path starts at a prefix or at the root.
pub open spec fn anchored(path: Seq<PartView>) -> bool {
    path.len() > 0 && (path[0] is Prefix || path[0] is RootDir)
}

/// `relative` joined to `base`: the base for an empty path, the path itself
/// where it is anchored, else the base followed by the path.
pub open spec fn joined(base: Seq<PartView>, relative: Seq<PartView>) -> Seq<PartView> {
    if relative.len() == 0 {
        base
    } else if anchored(relative) {
        relative
    } else {
        base + relative
    }
}

/// Whether `full` starts with all the components of `base`.
pub open spec fn has_prefix(full: Seq<PartView>, base: Seq<PartView>) -> bool {
    base.len() <= full.len() && full.take(base.len() as int) == base
}

/// Whether `path` is an entry of the directory `dir`: `dir` followed by one
/// more component that is neither a root marker nor a prefix.
pub open spec fn child_of(path: Seq<PartView>, dir: Seq<PartView>) -> bool {
    path.len() > 0 && !(path.last() is RootDir) && !(path.last() is Prefix) && path.drop_last()
        == dir
}

/// The name that a file would get from the last of the components, if that
/// is a name: trimmed, not empty, neither `.` nor `..`, and free of both
/// kinds of slash.
pub open spec fn sanitized(parts: Seq<PartView>) -> Option<Seq<char>> {
    if parts.len() == 0 {
        None
    } else {
        match parts.last() {
            PartView::Normal(name) => {
                let candidate = trimmed(name);
                if candidate.len() == 0 || candidate == "."@ || candidate == ".."@
                    || candidate.contains('/') || candidate.contains('\\') {
                    None
                } else {
                    Some(candidate)
                }
            },
            _ => None,
        }
    }
}

/// `std::path::Path::components` on `raw`: the components that std parses
/// the text into, each carried over with its text. Which components those
/// are is not stated; the sequence is only given its name.
#[verifier::external_body]
pub(crate) fn path_components(raw: &str) -> (parts: Vec<PathPart>)
    ensures
        part_views(parts@) == components_of(raw@),
{
    std::path::Path::new(raw).components().map(
        |c| match c {
            std::path::Component::Prefix(p) => PathPart::Prefix(
                p.as_os_str().to_string_lossy().into_owned(),
            ),
            std::path::Component::RootDir => PathPart::RootDir,
            std::path::Component::CurDir => PathPart::CurDir,
            std::path::Component::ParentDir => PathPart::ParentDir,
            std::path::Component::Normal(name) => PathPart::Normal(
                name.to_string_lossy().into_owned(),
            ),
        },
    ).collect()
}

/// `str::contains` with a character as the pattern.
#[verifier::external_body]
pub(crate) fn has_char(s: &str, c: char) -> (r: bool)
    ensures
        r == s@.contains(c),
{
    s.contains(c)
}

/// Whether two components are the same.
pub fn same_part(a: &PathPart, b: &PathPart) -> (r: bool)
    ensures
        r == (a@ == b@),
{
    match (a, b) {
        (PathPart::Prefix(x), PathPart::Prefix(y)) => str_eq(x.as_str(), y.as_str()),
        (PathPart::RootDir, PathPart::RootDir) => true,
        (PathPart::CurDir, PathPart::CurDir) => true,
        (PathPart::ParentDir, PathPart::ParentDir) => true,
        (PathPart::Normal(x), PathPart::Normal(y)) => str_eq(x.as_str(), y.as_str()),
        _ => false,
    }
}

/// A copy of a component.
pub fn copy_part(part: &PathPart) -> (r: PathPart)
    ensures
        r@ == part@,
{
    match part {
        PathPart::Prefix(text) => PathPart::Prefix(text.clone()),
        PathPart::RootDir => PathPart::RootDir,
        PathPart::CurDir => PathPart::CurDir,
        PathPart::ParentDir => PathPart::ParentDir,
        PathPart::Normal(name) => PathPart::Normal(name.clone()),
    }
}

/// Normalises components that were parsed already.
pub fn normalize_components(parts: &Vec<PathPart>) -> (r: Option<ComponentPath>)
    ensures
        match r {
            Some(path) => normalized(part_views(parts@)) == Some(path@) && all_normal(path@),
            None => normalized(part_views(parts@)) is None,
        },
{
    proof {
        lemma_normalized_shape(part_views(parts@));
    }
    let mut out: Vec<PathPart> = Vec::new();
    let n = parts.len();
    let mut i: usize = 0;
    assert(part_views(parts@).take(0) =~= Seq::<PartView>::empty());
    assert(part_views(out@) =~= Seq::<PartView>::empty());
    while i < n
        invariant
            i <= n,
            n == parts.len(),
            normalized(part_views(parts@).take(i as int)) == Some(part_views(out@)),
        decreases n - i,
    {
        let ghost all = part_views(parts@);
        let ghost before = part_views(out@);
        proof {
            assert(all.take(i + 1).drop_last() =~= all.take(i as int));
            assert(all.take(i + 1).last() == parts@[i as int]@);
        }
        match &parts[i] {
            PathPart::CurDir => {},
            PathPart::Normal(name) => {
                out.push(PathPart::Normal(name.clone()));
                assert(part_views(out@) =~= before.push(PartView::Normal(name@)));
            },
            PathPart::ParentDir => {
                if out.len() == 0 {
                    proof {
                        lemma_failure_stays(all, i + 1);
                    }
                    return None;
                }
                out.pop();
                assert(part_views(out@) =~= before.drop_last());
            },
            _ => {
                proof {
                    lemma_failure_stays(all, i + 1);
                }
                return None;
            },
        }
        i += 1;
    }
    assert(part_views(parts@).take(n as int) =~= part_views(parts@));
    Some(ComponentPath { parts: out })
}

/// Turns what a caller sent into a path below the root of a mount, or
/// refuses it.
pub fn normalize_relative_path(path: &str) -> (r: Option<ComponentPath>)
    ensures
        match r {
            Some(found) => relative_of(path@) == Some(found@) && all_normal(found@),
            None => relative_of(path@) is None,
        },
{
    if path.is_empty() || str_eq(path, ".") {
        let out = ComponentPath { parts: Vec::new() };
        assert(out@ =~= Seq::<PartView>::empty());
        return Some(out);
    }
    let parts = path_components(path);
    normalize_components(&parts)
}

/// Reduces the last of the components to a file name that is safe to join
/// to a directory.
pub fn sanitize_component(parts: &Vec<PathPart>) -> (r: Option<String>)
    ensures
        match r {
            Some(name) => sanitized(part_views(parts@)) == Some(name@) && name@.len() > 0
                && trimmed(name@) == name@ && name@ != "."@ && name@ != ".."@ && !name@.contains('/') && !name@.contains(
                '\\',
            ),
            None => sanitized(part_views(parts@)) is None,
        },
{
    let n = parts.len();
    if n == 0 {
        return None;
    }
    assert(part_views(parts@).last() == parts@[n - 1]@);
    match &parts[n - 1] {
        PathPart::Normal(name) => {
            proof {
                lemma_trimmed_idempotent(name@);
            }
            let candidate = trim(name.as_str());
            if candidate.is_empty() || str_eq(candidate, ".") || str_eq(candidate, "..")
                || has_char(candidate, '/') || has_char(candidate, '\\') {
                None
            } else {
                Some(candidate.to_owned())
            }
        },
        _ => None,
    }
}

/// Reduces a name that a caller sent to one safe path component: the last
/// component of the text, trimmed. What is left is refused where it is
/// empty, where it is `.` or `..`, and where it holds a slash of either kind.
pub fn sanitize_file_name(filename: &str) -> (r: Option<String>)
    ensures
        match r {
            Some(name) => sanitized(components_of(filename@)) == Some(name@) && name@.len() > 0
                && trimmed(name@) == name@ && name@ != "."@ && name@ != ".."@ && !name@.contains('/') && !name@.contains(
                '\\',
            ),
            None => sanitized(components_of(filename@)) is None,
        },
{
    let parts = path_components(filename);
    sanitize_component(&parts)
}

/// Whether `full` starts with all the components of `base`.
pub fn is_safe_path(base: &ComponentPath, full: &ComponentPath) -> (r: bool)
    ensures
        r == has_prefix(full@, base@),
{
    let n = base.parts.len();
    if n > full.parts.len() {
        return false;
    }
    let mut i: usize = 0;
    while i < n
        invariant
            i <= n,
            n == base.parts.len(),
            n <= full.parts.len(),
            forall|k: int| 0 <= k < i ==> full@[k] == base@[k],
        decreases n - i,
    {
        if !same_part(&base.parts[i], &full.parts[i]) {
            assert(full@.take(n as int)[i as int] != base@[i as int]);
            return false;
        }
        i += 1;
    }
    assert(full@.take(n as int) =~= base@);
    true
}

/// Whether `path` is an entry of the directory `dir`.
pub fn is_child_of(path: &ComponentPath, dir: &ComponentPath) -> (r: bool)
    ensures
        r == child_of(path@, dir@),
{
    let n = path.parts.len();
    if n == 0 || n - 1 != dir.parts.len() {
        assert(path@.len() == n && dir@.len() == dir.parts.len());
        assert(n > 0 ==> path@.drop_last().len() == n - 1);
        return false;
    }
    assert(path@.last() == path.parts@[n - 1]@);
    match &path.parts[n - 1] {
        PathPart::RootDir => false,
        PathPart::Prefix(_) => false,
        _ => {
            let inside = is_safe_path(dir, path);
            proof {
                if inside {
                    assert(path@.drop_last() =~= path@.take(dir@.len() as int));
                } else if path@.drop_last() == dir@ {
                    assert(path@.take(dir@.len() as int) =~= path@.drop_last());
                }
            }
            inside
        },
    }
}

/// Joins a path to the root of a mount and checks that the result still lies
/// below that root.
pub fn resolve_path(base: &ComponentPath, relative: &ComponentPath) -> (r: Result<
    ComponentPath,
    ContainmentError,
>)
    ensures
        match r {
            Ok(target) => target@ == joined(base@, relative@) && has_prefix(target@, base@),
            Err(_) => !has_prefix(joined(base@, relative@), base@),
        },
        all_normal(relative@) ==> r is Ok,
{
    proof {
        if all_normal(relative@) {
            lemma_normal_path_stays_inside(base@, relative@);
        }
    }
    let mut out: Vec<PathPart> = Vec::new();
    let keep = relative.parts.len() == 0 || !is_anchored(relative);
    if keep {
        let n = base.parts.len();
        let mut i: usize = 0;
        while i < n
            invariant
                i <= n,
                n == base.parts.len(),
                part_views(out@) == base@.take(i as int),
            decreases n - i,
        {
            let ghost before = part_views(out@);
            out.push(copy_part(&base.parts[i]));
            assert(part_views(out@) =~= before.push(base@[i as int]));
            assert(base@.take(i + 1) =~= base@.take(i as int).push(base@[i as int]));
            i += 1;
        }
        assert(base@.take(n as int) =~= base@);
    }
    let ghost start = part_views(out@);
    let m = relative.parts.len();
    let mut j: usize = 0;
    while j < m
        invariant
            j <= m,
            m == relative.parts.len(),
            part_views(out@) == start + relative@.take(j as int),
        decreases m - j,
    {
        let ghost before = part_views(out@);
        out.push(copy_part(&relative.parts[j]));
        assert(part_views(out@) =~= before.push(relative@[j as int]));
        assert(start + relative@.take(j + 1) =~= (start + relative@.take(j as int)).push(
            relative@[j as int],
        ));
        j += 1;
    }
    let target = ComponentPath { parts: out };
    proof {
        assert(relative@.take(m as int) =~= relative@);
        assert(target@ =~= joined(base@, relative@));
    }
    if !is_safe_path(base, &target) {
        return Err(ContainmentError);
    }
    Ok(target)
}

/// Whether a path starts at a prefix or at the root.
pub fn is_anchored(path: &ComponentPath) -> (r: bool)
    ensures
        r == anchored(path@),
{
    if path.parts.len() == 0 {
        return false;
    }
    match &path.parts[0] {
        PathPart::Prefix(_) => true,
        PathPart::RootDir => true,
        _ => false,
    }
}

/// Once a start of the components fails to normalise, the whole does.
pub proof fn lemma_failure_stays(parts: Seq<PartView>, k: int)
    requires
        0 <= k <= parts.len(),
        normalized(parts.take(k)) is None,
    ensures
        normalized(parts) is None,
    decreases parts.len(),
{
    if k < parts.len() {
        assert(parts.drop_last().take(k) =~= parts.take(k));
        lemma_failure_stays(parts.drop_last(), k);
    } else {
        assert(parts.take(k) =~= parts);
    }
}

/// What normalising leaves holds names only, as many as the components
/// went down on balance.
pub proof fn lemma_normalized_shape(parts: Seq<PartView>)
    ensures
        match normalized(parts) {
            Some(found) => all_normal(found) && found.len() == depth(parts),
            None => true,
        },
    decreases parts.len(),
{
    if parts.len() > 0 {
        lemma_normalized_shape(parts.drop_last());
    }
}

/// A path that at some point has gone up more often than down is refused.
pub proof fn lemma_escape_is_refused(parts: Seq<PartView>, k: int)
    requires
        0 <= k <= parts.len(),
        depth(parts.take(k)) < 0,
    ensures
        normalized(parts) is None,
{
    lemma_normalized_shape(parts.take(k));
    lemma_failure_stays(parts, k);
}

/// A path of names and `.` alone is accepted, and what is left of it are its
/// names in their order: no `..`, no root marker.
pub proof fn lemma_plain_path_is_accepted(parts: Seq<PartView>)
    requires
        all_plain(parts),
    ensures
        normalized(parts) == Some(names_of(parts)),
        all_normal(names_of(parts)),
    decreases parts.len(),
{
    if parts.len() > 0 {
        let init = parts.drop_last();
        assert forall|i: int| 0 <= i < init.len() implies (#[trigger] init[i]) is Normal
            || init[i] is CurDir by {
            assert(init[i] == parts[i]);
        }
        lemma_plain_path_is_accepted(init);
        assert(parts.last() == parts[parts.len() - 1]);
    }
}

/// A text whose components at some point have gone up more often than down
/// is refused.
pub proof fn lemma_escaping_text_is_refused(raw: Seq<char>, k: int)
    ensures
        raw.len() > 0 && raw != "."@ && 0 <= k <= components_of(raw).len() && depth(
            components_of(raw).take(k),
        ) < 0 ==> relative_of(raw) is None,
{
    if raw.len() > 0 && raw != "."@ && 0 <= k <= components_of(raw).len() && depth(
        components_of(raw).take(k),
    ) < 0 {
        lemma_escape_is_refused(components_of(raw), k);
    }
}

/// A text whose components are names and `.` alone is accepted, and what it
/// normalises to holds names only.
pub proof fn lemma_plain_text_is_accepted(raw: Seq<char>)
    ensures
        all_plain(components_of(raw)) ==> relative_of(raw) is Some && all_normal(
            relative_of(raw)->Some_0,
        ),
{
    if all_plain(components_of(raw)) {
        lemma_plain_path_is_accepted(components_of(raw));
    }
}

/// What is normalised is its own normal form: normalising twice is
/// normalising once.
pub proof fn lemma_normalized_twice(parts: Seq<PartView>)
    requires
        normalized(parts) is Some,
    ensures
        normalized(normalized(parts)->Some_0) == normalized(parts),
{
    lemma_normalized_shape(parts);
    let found = normalized(parts)->Some_0;
    lemma_plain_path_is_accepted(found);
    lemma_names_of_names(found);
}

/// The names of a path of names alone are the path itself.
pub proof fn lemma_names_of_names(parts: Seq<PartView>)
    requires
        all_normal(parts),
    ensures
        names_of(parts) == parts,
    decreases parts.len(),
{
    if parts.len() > 0 {
        let init = parts.drop_last();
        assert forall|i: int| 0 <= i < init.len() implies (#[trigger] init[i]) is Normal by {
            assert(init[i] == parts[i]);
        }
        lemma_names_of_names(init);
        assert(parts.last() == parts[parts.len() - 1]);
        assert(init.push(parts.last()) =~= parts);
    } else {
        assert(parts =~= Seq::<PartView>::empty());
    }
}

/// A path of names alone, joined to a root, lies below that root: it is the
/// root followed by the names.
pub proof fn lemma_normal_path_stays_inside(base: Seq<PartView>, relative: Seq<PartView>)
    requires
        all_normal(relative),
    ensures
        joined(base, relative) == base + relative,
        has_prefix(joined(base, relative), base),
{
    if relative.len() == 0 {
        assert(base + relative =~= base);
    } else {
        assert(relative[0] is Normal);
    }
    assert((base + relative).take(base.len() as int) =~= base);
}

/// Whatever is normalised can be joined to any root and stays below it.
pub proof fn lemma_normalized_path_is_confined(base: Seq<PartView>, parts: Seq<PartView>)
    requires
        normalized(parts) is Some,
    ensures
        has_prefix(joined(base, normalized(parts)->Some_0), base),
{
    lemma_normalized_shape(parts);
    lemma_normal_path_stays_inside(base, normalized(parts)->Some_0);
}

} // verus!
