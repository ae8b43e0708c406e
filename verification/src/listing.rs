//! Paths as they are shown to a user: components with `/` between them.

use vstd::prelude::*;
use vstd::string::StringExecFns;
use crate::paths::{ComponentPath, PartView, PathPart};
use crate::text::{
    ascii_lowercase, is_ascii_text, joined_with, lowercase_of, split_at_char, split_on, str_eq, to_lowercase, views,
};

verus! {

/// The text of one component.
pub open spec fn part_text(part: PartView) -> Seq<char> {
    match part {
        PartView::Prefix(text) => text,
        PartView::RootDir => "/"@,
        PartView::CurDir => "."@,
        PartView::ParentDir => ".."@,
        PartView::Normal(name) => name,
    }
}

/// The texts of the components of a path.
pub open spec fn part_texts(path: Seq<PartView>) -> Seq<Seq<char>> {
    Seq::new(path.len(), |i: int| part_text(path[i]))
}

/// The texts with a `/` between each two.
pub open spec fn slash_joined(texts: Seq<Seq<char>>) -> Seq<char> {
    joined_with(texts, "/"@)
}

/// A path as it is shown: `.` for the empty path, else its components with
/// `/` between them.
pub open spec fn shown(path: Seq<PartView>) -> Seq<char> {
    if path.len() == 0 {
        "."@
    } else {
        slash_joined(part_texts(path))
    }
}

/// The pieces that count as steps into a tree: all but the empty ones and
/// `.`.
pub open spec fn steps(pieces: Seq<Seq<char>>) -> Seq<Seq<char>>
    decreases pieces.len(),
{
    if pieces.len() == 0 {
        Seq::<Seq<char>>::empty()
    } else if pieces.last().len() == 0 || pieces.last() == "."@ {
        steps(pieces.drop_last())
    } else {
        steps(pieces.drop_last()).push(pieces.last())
    }
}

/// The paths that are open in the tree when `current` is shown: the root,
/// then each directory on the way down to `current`.
pub open spec fn open_paths(current: Seq<char>) -> Seq<Seq<char>> {
    let found = steps(split_on(current, '/'));
    Seq::new(
        found.len() + 1,
        |k: int|
            if k == 0 {
                "."@
            } else {
                slash_joined(found.take(k))
            },
    )
}

/// Whether `name` ends with `suffix`.
pub open spec fn has_suffix(name: Seq<char>, suffix: Seq<char>) -> bool {
    suffix.len() <= name.len() && name.skip(name.len() - suffix.len()) == suffix
}

/// Whether a name in lower case is that of a readme.
pub open spec fn readme_name(name: Seq<char>) -> bool {
    name == "readme.md"@ || name == "readme.txt"@ || name == "readme"@ || name == "readme.rst"@
}

/// Whether a name in lower case has the ending of a file of text.
pub open spec fn text_name(name: Seq<char>) -> bool {
    has_suffix(name, ".txt"@) || has_suffix(name, ".md"@) || has_suffix(name, ".rst"@)
        || has_suffix(name, ".log"@) || has_suffix(name, ".cfg"@) || has_suffix(name, ".conf"@)
        || has_suffix(name, ".toml"@) || has_suffix(name, ".json"@) || has_suffix(name, ".xml"@)
        || has_suffix(name, ".csv"@)
}

/// `str::ends_with` with a string as the pattern: the last characters of
/// `name` are those of `suffix`.
#[verifier::external_body]
pub(crate) fn ends_with(name: &str, suffix: &str) -> (r: bool)
    ensures
        r == has_suffix(name@, suffix@),
{
    name.ends_with(suffix)
}

/// Whether a name that is in lower case already is that of a readme.
pub fn is_readme_name(name: &str) -> (r: bool)
    ensures
        r == readme_name(name@),
{
    str_eq(name, "readme.md") || str_eq(name, "readme.txt") || str_eq(name, "readme") || str_eq(
        name,
        "readme.rst",
    )
}

/// Whether a file of this name is a readme, whatever the case of its
/// letters.
pub fn is_readme_file(filename: &str) -> (r: bool)
    ensures
        r == readme_name(lowercase_of(filename@)),
        is_ascii_text(filename@) ==> r == readme_name(ascii_lowercase(filename@)),
{
    let lower = to_lowercase(filename);
    is_readme_name(lower.as_str())
}

/// Whether a name that is in lower case already has the ending of a file of
/// text.
pub fn is_text_name(name: &str) -> (r: bool)
    ensures
        r == text_name(name@),
{
    ends_with(name, ".txt") || ends_with(name, ".md") || ends_with(name, ".rst") || ends_with(
        name,
        ".log",
    ) || ends_with(name, ".cfg") || ends_with(name, ".conf") || ends_with(name, ".toml")
        || ends_with(name, ".json") || ends_with(name, ".xml") || ends_with(name, ".csv")
}

/// Whether a file of this name is shown as text, whatever the case of its
/// letters.
pub fn is_text_file(filename: &str) -> (r: bool)
    ensures
        r == text_name(lowercase_of(filename@)),
        is_ascii_text(filename@) ==> r == text_name(ascii_lowercase(filename@)),
{
    let lower = to_lowercase(filename);
    is_text_name(lower.as_str())
}

/// The text of a component.
pub fn text_of_part(part: &PathPart) -> (r: &str)
    ensures
        r@ == part_text(part@),
{
    match part {
        PathPart::Prefix(text) => text.as_str(),
        PathPart::RootDir => "/",
        PathPart::CurDir => ".",
        PathPart::ParentDir => "..",
        PathPart::Normal(name) => name.as_str(),
    }
}

/// Writes a path for showing it.
pub fn pathbuf_to_string(path: &ComponentPath) -> (r: String)
    ensures
        r@ == shown(path@),
{
    let n = path.parts.len();
    if n == 0 {
        return ".".to_owned();
    }
    let ghost texts = part_texts(path@);
    let mut out = text_of_part(&path.parts[0]).to_owned();
    let mut i: usize = 1;
    assert(texts.take(1).len() == 1 && texts.take(1)[0] == texts[0]);
    while i < n
        invariant
            1 <= i <= n,
            n == path.parts.len(),
            texts == part_texts(path@),
            out@ == slash_joined(texts.take(i as int)),
        decreases n - i,
    {
        proof {
            assert(texts.take(i + 1).drop_last() =~= texts.take(i as int));
            assert(texts.take(i + 1).last() == texts[i as int]);
        }
        out.append("/");
        out.append(text_of_part(&path.parts[i]));
        i += 1;
    }
    assert(texts.take(n as int) =~= texts);
    out
}

/// Lists the paths that are open in the tree when `current_path` is shown.
pub fn build_open_paths(current_path: &str) -> (r: Vec<String>)
    ensures
        views(r@) == open_paths(current_path@),
{
    let mut paths: Vec<String> = Vec::new();
    paths.push(".".to_owned());
    let pieces = split_at_char(current_path, '/');
    let ghost all = views(pieces@);
    let mut accumulated = String::new();
    let mut count: usize = 0;
    let n = pieces.len();
    let mut i: usize = 0;
    assert(all.take(0) =~= Seq::<Seq<char>>::empty());
    assert(steps(all.take(0)).take(0) =~= steps(all.take(0)));
    while i < n
        invariant
            i <= n,
            n == pieces.len(),
            all == views(pieces@),
            count == steps(all.take(i as int)).len(),
            count <= i,
            accumulated@ == slash_joined(steps(all.take(i as int))),
            paths.len() == count + 1,
            paths@[0]@ == "."@,
            forall|k: int|
                1 <= k <= count ==> (#[trigger] paths@[k])@ == slash_joined(
                    steps(all.take(i as int)).take(k),
                ),
        decreases n - i,
    {
        let ghost before = steps(all.take(i as int));
        proof {
            assert(all.take(i + 1).drop_last() =~= all.take(i as int));
            assert(all.take(i + 1).last() == pieces@[i as int]@);
        }
        let piece = pieces[i].as_str();
        if !(piece.is_empty() || str_eq(piece, ".")) {
            let ghost after = before.push(piece@);
            proof {
                assert(after.drop_last() =~= before);
                assert(after.last() == piece@);
            }
            if count > 0 {
                accumulated.append("/");
            }
            accumulated.append(piece);
            assert(accumulated@ =~= slash_joined(after));
            paths.push(accumulated.clone());
            count += 1;
            proof {
                assert(after.take(count as int) =~= after);
                assert forall|k: int| 1 <= k <= count implies (#[trigger] paths@[k])@
                    == slash_joined(after.take(k)) by {
                    if k < count {
                        assert(after.take(k) =~= before.take(k));
                    }
                }
            }
        }
        i += 1;
    }
    proof {
        assert(all.take(n as int) =~= all);
        let want = open_paths(current_path@);
        assert(views(paths@).len() == want.len());
        assert forall|k: int| 0 <= k < want.len() implies views(paths@)[k] == want[k] by {
            if k > 0 {
                assert(paths@[k]@ == slash_joined(steps(all).take(k)));
            }
        }
        assert(views(paths@) =~= want);
    }
    paths
}

} // verus!
