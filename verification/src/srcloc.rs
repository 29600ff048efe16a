//! Locations in source code.

use crate::paths::{join, path_join};
use crate::types::BreakpointInst;
use internment::Intern;
use vstd::prelude::*;

verus! {

/// `internment::Intern`: the handle of a value in a table that holds each
/// value once for the life of the process.
#[verifier::external_type_specification]
#[verifier::external_body]
#[verifier::reject_recursive_types(T)]
pub struct ExIntern<T: 'static + ?Sized>(Intern<T>);

/// The text that an interned handle stands for.
pub uninterp spec fn interned(handle: Intern<String>) -> Seq<char>;

/// `Intern::new`: the handle of the text in the process-wide table.
#[verifier::external_body]
fn intern(text: String) -> (handle: Intern<String>)
    ensures
        interned(handle) == text@,
{
    Intern::new(text)
}

/// `Deref::deref` of a handle: the text it stands for.
#[verifier::external_body]
fn resolve(handle: &Intern<String>) -> (text: &str)
    ensures
        text@ == interned(*handle),
{
    handle.as_str()
}

/// `PartialEq::eq` of handles: two handles are the same exactly when they
/// stand for the same text, since the table holds each text once.
#[verifier::external_body]
fn same_handle(a: &Intern<String>, b: &Intern<String>) -> (same: bool)
    ensures
        same == (interned(*a) == interned(*b)),
{
    a == b
}

/// `Clone::clone` of a handle: a handle is copied as it is.
pub assume_specification<T: ?Sized>[ <Intern<T> as Clone>::clone ](handle: &Intern<T>) -> (copy:
    Intern<T>)
    ensures
        copy == *handle,
;

/// An interned source directory.
#[derive(Debug, Clone, Copy, PartialEq, Eq, PartialOrd, Ord, Hash)]
struct SrcDir(Intern<String>);

/// An interned source file name.
#[derive(Debug, Clone, Copy, PartialEq, Eq, PartialOrd, Ord, Hash)]
struct SrcFile(Intern<String>);

/// A source path: a directory and a file name in it, both interned, so that a
/// path is cheap to copy and to compare.
#[derive(Debug, Clone, Copy, PartialEq, Eq, PartialOrd, Ord, Hash)]
pub struct SrcPath(SrcDir, SrcFile);

/// The mathematical content of a [`SrcPath`].
pub struct SrcPathView {
    pub dir: Seq<char>,
    pub file: Seq<char>,
}

impl View for SrcPath {
    type V = SrcPathView;

    closed spec fn view(&self) -> SrcPathView {
        SrcPathView { dir: interned(self.0.0), file: interned(self.1.0) }
    }
}

impl SrcPath {
    /// The path of `file` in the directory `dir`.
    pub fn new(dir: &str, file: &str) -> (path: SrcPath)
        ensures
            path@ == (SrcPathView { dir: dir@, file: file@ }),
    {
        SrcPath(SrcDir(intern(dir.to_owned())), SrcFile(intern(file.to_owned())))
    }

    /// The directory.
    pub fn dir(&self) -> (dir: &str)
        ensures
            dir@ == self@.dir,
    {
        resolve(&self.0.0)
    }

    /// The file name.
    pub fn file(&self) -> (file: &str)
        ensures
            file@ == self@.file,
    {
        resolve(&self.1.0)
    }

    /// The whole path: the file name joined onto the directory.
    pub fn to_pathbuf(&self) -> (path: String)
        ensures
            path@ == path_join(self@.dir, self@.file),
    {
        join(self.dir(), self.file())
    }

    /// Whether two paths name the same directory and file.
    pub fn same(&self, other: &SrcPath) -> (same: bool)
        ensures
            same == (self@ == other@),
    {
        same_handle(&self.0.0, &other.0.0) && same_handle(&self.1.0, &other.1.0)
    }
}

/// Information about a breakpoint address. Does not contain the address
/// itself, on the assumption that it is the key of some mapping.
#[derive(Debug, Clone, Copy, PartialEq, Eq, PartialOrd, Ord, Hash)]
pub struct Location {
    srcpath: SrcPath,
    line: u32,
    replaced: Option<BreakpointInst>,
}

/// The mathematical content of a [`Location`].
pub struct LocationView {
    pub srcpath: SrcPathView,
    pub line: u32,
    pub replaced: Option<u8>,
}

impl View for Location {
    type V = LocationView;

    closed spec fn view(&self) -> LocationView {
        LocationView {
            srcpath: self.srcpath@,
            line: self.line,
            replaced: match self.replaced {
                Some(inst) => Some(inst@),
                None => None,
            },
        }
    }
}

impl Location {
    /// The location at `line` of `srcpath`, with no instruction replaced yet.
    pub fn new(srcpath: SrcPath, line: u32) -> (location: Location)
        ensures
            location@ == (LocationView { srcpath: srcpath@, line, replaced: None }),
    {
        Location { srcpath, line, replaced: None }
    }

    /// The path of the source file.
    pub fn srcpath(&self) -> (path: String)
        ensures
            path@ == path_join(self@.srcpath.dir, self@.srcpath.file),
    {
        self.srcpath.to_pathbuf()
    }

    /// The line number.
    pub fn line(&self) -> (line: u32)
        ensures
            line == self@.line,
    {
        self.line
    }

    /// The byte that the breakpoint replaced, once it has been set.
    pub fn replaced(&self) -> (byte: Option<u8>)
        ensures
            byte == self@.replaced,
    {
        match self.replaced {
            Some(inst) => Some(inst.byte()),
            None => None,
        }
    }

    /// The same location with `inst` recorded as the instruction replaced.
    pub fn with_replaced(self, inst: BreakpointInst) -> (location: Location)
        ensures
            location@ == (LocationView { replaced: Some(inst@), ..self@ }),
    {
        Location { srcpath: self.srcpath, line: self.line, replaced: Some(inst) }
    }
}

} // verus!
