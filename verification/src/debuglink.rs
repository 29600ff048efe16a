//! Separate debug files: where to look for the file that an object names in
//! its debug link, and whether a file found there may stand in for the object.

use crate::error::ObjectError;
use crate::paths::{join, parent, path_join, path_parent, path_parts, rootless, without_root};
use crate::wire::string_from_utf8;
use object::Object;
use vstd::prelude::*;
use vstd::utf8::{decode_utf8, valid_utf8};

verus! {

/// The CRC-32 of the bytes, with the IEEE polynomial.
pub uninterp spec fn crc32_ieee(bytes: Seq<u8>) -> u32;

/// Whether the bytes are an object file that the reader understands.
pub uninterp spec fn object_valid(bytes: Seq<u8>) -> bool;

/// The file name and checksum in the debug-link section of the object file
/// that the bytes are, if they are one and it has such a section.
pub uninterp spec fn object_debuglink(bytes: Seq<u8>) -> Option<(Seq<u8>, u32)>;

/// `crc::crc32::checksum_ieee`.
#[verifier::external_body]
fn checksum(bytes: &[u8]) -> (sum: u32)
    ensures
        sum == crc32_ieee(bytes@),
{
    crc::crc32::checksum_ieee(bytes)
}

/// `object::File::parse`: whether the bytes parse as an object file.
#[verifier::external_body]
fn parses(bytes: &[u8]) -> (ok: bool)
    ensures
        ok == object_valid(bytes@),
{
    object::File::parse(bytes).is_ok()
}

/// `Object::gnu_debuglink` on the parsed bytes: the name and checksum of the
/// debug link. Bytes that are no object file have none.
#[verifier::external_body]
fn debuglink_section(bytes: &[u8]) -> (link: Option<(Vec<u8>, u32)>)
    ensures
        match link {
            Some((name, crc)) => object_debuglink(bytes@) == Some((name@, crc)),
            None => object_debuglink(bytes@) is None,
        },
        !object_valid(bytes@) ==> link is None,
{
    let file = object::File::parse(bytes).ok()?;
    let (name, crc) = file.gnu_debuglink().ok()??;
    Some((name.to_vec(), crc))
}

/// The debug link of an object: the name of the separate debug file and the
/// checksum that its contents must have.
#[derive(Debug, Clone, PartialEq, Eq)]
pub struct DebugLink {
    pub name: String,
    pub crc: u32,
}

/// Which file the debug sections are taken from.
#[derive(Debug, Clone, Copy, PartialEq, Eq, Structural)]
pub enum DebugSource {
    /// The object itself.
    Primary,
    /// The separate debug file.
    Linked,
}

/// The debug link that an object file declares, where its name is UTF-8.
pub open spec fn declared_link(object: Seq<u8>) -> Option<(Seq<char>, u32)> {
    match object_debuglink(object) {
        Some((name, crc)) => if valid_utf8(name) {
            Some((decode_utf8(name), crc))
        } else {
            None
        },
        None => None,
    }
}

/// Reads the debug link of an object file. Bytes that are no object file are
/// an error; an object without a debug link, or with one whose name is not
/// UTF-8, has none.
pub fn read_debuglink(object: &[u8]) -> (r: Result<Option<DebugLink>, ObjectError>)
    ensures
        match r {
            Err(_) => !object_valid(object@),
            Ok(None) => object_valid(object@) && declared_link(object@) is None,
            Ok(Some(link)) => object_valid(object@) && declared_link(object@) == Some(
                (link.name@, link.crc),
            ),
        },
{
    if !parses(object) {
        return Err(ObjectError("object file parse failed"));
    }
    match debuglink_section(object) {
        None => Ok(None),
        Some((name, crc)) => match string_from_utf8(name) {
            None => Ok(None),
            Some(name) => Ok(Some(DebugLink { name, crc })),
        },
    }
}

/// The directory that holds the object at `path`: its parent, or `.` where
/// it has none.
pub open spec fn object_dir(path: Seq<char>) -> Seq<char> {
    match path_parent(path) {
        Some(dir) => dir,
        None => "."@,
    }
}

/// The places where the debug file `name` of the object at `path` is looked
/// for, in order: beside the object, in `.debug` beside it, and under
/// `/usr/lib/debug` at the object's directory taken without its root.
pub open spec fn search_places(path: Seq<char>, name: Seq<char>) -> Seq<Seq<char>> {
    let dir = object_dir(path);
    seq![
        path_join(dir, name),
        path_join(path_join(dir, ".debug"@), name),
        path_join(path_join("/usr/lib/debug"@, rootless(path_parts(dir))), name),
    ]
}

/// The places to look for a separate debug file, in the order to try them.
pub fn candidates(path: &str, name: &str) -> (places: Vec<String>)
    ensures
        places@.len() == 3,
        places@.map_values(|p: String| p@) == search_places(path@, name@),
{
    let dir = match parent(path) {
        Some(dir) => dir,
        None => ".".to_owned(),
    };
    let relative = without_root(dir.as_str());
    let beside = join(dir.as_str(), name);
    let hidden = join(join(dir.as_str(), ".debug").as_str(), name);
    let global = join(join("/usr/lib/debug", relative.as_str()).as_str(), name);
    let mut places: Vec<String> = Vec::new();
    places.push(beside);
    places.push(hidden);
    places.push(global);
    assert(places@.map_values(|p: String| p@) =~= search_places(path@, name@));
    places
}

/// Whether a file may stand in for the object whose debug link asks for the
/// checksum `crc`: its CRC-32 is that checksum, and it is an object file.
pub open spec fn stands_in(crc: u32, linked: Seq<u8>) -> bool {
    crc32_ieee(linked) == crc && object_valid(linked)
}

/// Whether the contents of a file have the checksum that the debug link asks
/// for.
pub fn checksum_matches(link: &DebugLink, linked: &[u8]) -> (same: bool)
    ensures
        same == (crc32_ieee(linked@) == link.crc),
{
    checksum(linked) == link.crc
}

/// Decides where the debug sections come from. `link` is the debug link of
/// the object, if it has one; `linked` holds the contents of the first of the
/// places that could be opened, if any could. The separate file is used only
/// when its checksum is the one asked for and it is an object file; in every
/// other case the object itself is.
pub fn choose_source(link: &Option<DebugLink>, linked: Option<&[u8]>) -> (source: DebugSource)
    ensures
        source == DebugSource::Linked <==> (link matches Some(l) && linked matches Some(bytes)
            && stands_in(l.crc, bytes@)),
{
    match (link, linked) {
        (Some(link), Some(bytes)) => {
            if checksum_matches(link, bytes) && parses(bytes) {
                DebugSource::Linked
            } else {
                DebugSource::Primary
            }
        },
        _ => DebugSource::Primary,
    }
}

/// A separate debug file whose checksum is not the one that the debug link
/// asks for is turned down, and the object itself is used.
pub proof fn law_checksum_gates(crc: u32, linked: Seq<u8>)
    requires
        crc32_ieee(linked) != crc,
    ensures
        !stands_in(crc, linked),
{
}

} // verus!
