//! File-system paths as text. The rules by which paths are taken apart and put
//! together are those of `std::path`; they are named here, not restated.

use std::path::{Component, Path};
use vstd::prelude::*;

verus! {

/// One component of a path.
#[derive(Debug, Clone, PartialEq, Eq)]
pub enum PathPart {
    /// A drive or share prefix, on systems that have them.
    Prefix,
    /// The root directory.
    RootDir,
    /// `.`
    CurDir,
    /// `..`
    ParentDir,
    /// A directory or file name.
    Normal(String),
}

/// The mathematical content of a [`PathPart`].
pub enum PathPartView {
    Prefix,
    RootDir,
    CurDir,
    ParentDir,
    Normal(Seq<char>),
}

impl View for PathPart {
    type V = PathPartView;

    open spec fn view(&self) -> PathPartView {
        match self {
            PathPart::Prefix => PathPartView::Prefix,
            PathPart::RootDir => PathPartView::RootDir,
            PathPart::CurDir => PathPartView::CurDir,
            PathPart::ParentDir => PathPartView::ParentDir,
            PathPart::Normal(name) => PathPartView::Normal(name@),
        }
    }
}

/// The views of the parts, in order.
pub open spec fn part_views(parts: Seq<PathPart>) -> Seq<PathPartView> {
    parts.map_values(|p: PathPart| p@)
}

/// The path without its final component, if there is one.
pub uninterp spec fn path_parent(path: Seq<char>) -> Option<Seq<char>>;

/// The path that `tail` names when it is taken relative to `base`.
pub uninterp spec fn path_join(base: Seq<char>, tail: Seq<char>) -> Seq<char>;

/// The components of the path, first to last.
pub uninterp spec fn path_parts(path: Seq<char>) -> Seq<PathPartView>;

/// Whether the last components of the path are those of `tail`.
pub uninterp spec fn path_ends_with(path: Seq<char>, tail: Seq<char>) -> bool;

/// `Path::ends_with`, on paths held as text.
#[verifier::external_body]
pub(crate) fn ends_with(path: &str, tail: &str) -> (ends: bool)
    ensures
        ends == path_ends_with(path@, tail@),
{
    Path::new(path).ends_with(tail)
}

/// `Path::parent`, on paths held as text.
#[verifier::external_body]
pub(crate) fn parent(path: &str) -> (dir: Option<String>)
    ensures
        match dir {
            Some(dir) => path_parent(path@) == Some(dir@),
            None => path_parent(path@) is None,
        },
{
    Path::new(path).parent().map(|dir| dir.to_string_lossy().into_owned())
}

/// `Path::join`, on paths held as text.
#[verifier::external_body]
pub(crate) fn join(base: &str, tail: &str) -> (joined: String)
    ensures
        joined@ == path_join(base@, tail@),
{
    Path::new(base).join(tail).to_string_lossy().into_owned()
}

/// `Path::components`, each component turned into a [`PathPart`].
#[verifier::external_body]
pub(crate) fn parts(path: &str) -> (found: Vec<PathPart>)
    ensures
        part_views(found@) == path_parts(path@),
{
    Path::new(path).components().map(|part| match part {
        Component::Prefix(_) => PathPart::Prefix,
        Component::RootDir => PathPart::RootDir,
        Component::CurDir => PathPart::CurDir,
        Component::ParentDir => PathPart::ParentDir,
        Component::Normal(name) => PathPart::Normal(name.to_string_lossy().into_owned()),
    }).collect()
}

/// The text of a component as it stands in a path.
pub open spec fn part_text(part: PathPartView) -> Seq<char> {
    match part {
        PathPartView::Prefix => Seq::empty(),
        PathPartView::RootDir => seq!['/'],
        PathPartView::CurDir => seq!['.'],
        PathPartView::ParentDir => seq!['.', '.'],
        PathPartView::Normal(name) => name,
    }
}

/// The path made by joining the components that are neither prefix nor root,
/// one after the other, onto the empty path.
pub open spec fn rootless(parts: Seq<PathPartView>) -> Seq<char>
    decreases parts.len(),
{
    if parts.len() == 0 {
        Seq::empty()
    } else {
        let before = rootless(parts.drop_last());
        match parts.last() {
            PathPartView::Prefix => before,
            PathPartView::RootDir => before,
            other => path_join(before, part_text(other)),
        }
    }
}

/// The path with its prefix and root taken off, so that it can be joined below
/// another directory.
pub fn without_root(path: &str) -> (relative: String)
    ensures
        relative@ == rootless(path_parts(path@)),
{
    let found = parts(path);
    let mut relative = String::new();
    let mut i: usize = 0;
    assert(part_views(found@).take(0) =~= Seq::<PathPartView>::empty());
    while i < found.len()
        invariant
            i <= found.len(),
            relative@ == rootless(part_views(found@).take(i as int)),
        decreases found.len() - i,
    {
        proof {
            let views = part_views(found@);
            assert(views.take(i + 1).drop_last() =~= views.take(i as int));
            assert(views.take(i + 1).last() == found[i as int]@);
        }
        match &found[i] {
            PathPart::Prefix => {},
            PathPart::RootDir => {},
            PathPart::CurDir => {
                proof {
                    reveal_strlit(".");
                    assert("."@ =~= seq!['.']);
                }
                relative = join(relative.as_str(), ".");
            },
            PathPart::ParentDir => {
                proof {
                    reveal_strlit("..");
                    assert(".."@ =~= seq!['.', '.']);
                }
                relative = join(relative.as_str(), "..");
            },
            PathPart::Normal(name) => {
                relative = join(relative.as_str(), name.as_str());
            },
        }
        i += 1;
    }
    assert(part_views(found@).take(i as int) =~= part_views(found@));
    relative
}

} // verus!
