//! Where the debug sections of an object file lie in the file, so that they
//! can be used straight out of a mapping of the file.

use crate::debuglink::object_valid;
use crate::error::ObjectError;
use object::{Object, ObjectSection};
use vstd::prelude::*;

verus! {

/// The offset and size in the file of the section called `name` in the object
/// file that the bytes are, if they are one, and it has such a section, and
/// the section has contents in the file.
pub uninterp spec fn object_section(bytes: Seq<u8>, name: Seq<char>) -> Option<(u64, u64)>;

/// Whether the object file that the bytes are is little-endian.
pub uninterp spec fn object_little_endian(bytes: Seq<u8>) -> bool;

/// `Object::section_by_name` and `ObjectSection::file_range` on the parsed
/// bytes: where the named section lies in the file.
#[verifier::external_body]
fn section_range(bytes: &[u8], name: &str) -> (range: Option<(u64, u64)>)
    ensures
        range == object_section(bytes@, name@),
        !object_valid(bytes@) ==> range is None,
{
    object::File::parse(bytes).ok()?.section_by_name(name)?.file_range()
}

/// `Object::is_little_endian` on the parsed bytes; nothing for bytes that are
/// no object file.
#[verifier::external_body]
fn little_endian(bytes: &[u8]) -> (little: Option<bool>)
    ensures
        match little {
            Some(little) => object_valid(bytes@) && little == object_little_endian(bytes@),
            None => !object_valid(bytes@),
        },
{
    object::File::parse(bytes).ok().map(|file| file.is_little_endian())
}

/// Where each debug section of an object file lies in the file, as offset and
/// size; a section that the file does not have has no range.
#[derive(Debug, Clone, Copy, PartialEq, Eq)]
pub struct SectionRanges {
    /// Whether the file is little-endian.
    pub little_endian: bool,
    pub debug_abbrev: Option<(u64, u64)>,
    pub debug_addr: Option<(u64, u64)>,
    pub debug_info: Option<(u64, u64)>,
    pub debug_line: Option<(u64, u64)>,
    pub debug_line_str: Option<(u64, u64)>,
    pub debug_ranges: Option<(u64, u64)>,
    pub debug_rnglists: Option<(u64, u64)>,
    pub debug_str: Option<(u64, u64)>,
    pub debug_str_offsets: Option<(u64, u64)>,
}

/// The ranges of the debug sections of the object file that the bytes are.
pub open spec fn ranges_of(object: Seq<u8>) -> SectionRanges {
    SectionRanges {
        little_endian: object_little_endian(object),
        debug_abbrev: object_section(object, ".debug_abbrev"@),
        debug_addr: object_section(object, ".debug_addr"@),
        debug_info: object_section(object, ".debug_info"@),
        debug_line: object_section(object, ".debug_line"@),
        debug_line_str: object_section(object, ".debug_line_str"@),
        debug_ranges: object_section(object, ".debug_ranges"@),
        debug_rnglists: object_section(object, ".debug_rnglists"@),
        debug_str: object_section(object, ".debug_str"@),
        debug_str_offsets: object_section(object, ".debug_str_offsets"@),
    }
}

/// Finds the debug sections of an object file. Bytes that are no object file
/// are an error.
pub fn section_ranges(object: &[u8]) -> (r: Result<SectionRanges, ObjectError>)
    ensures
        match r {
            Ok(ranges) => object_valid(object@) && ranges == ranges_of(object@),
            Err(_) => !object_valid(object@),
        },
{
    let little_endian = match little_endian(object) {
        Some(little) => little,
        None => {
            return Err(ObjectError("object file parse failed"));
        },
    };
    Ok(
        SectionRanges {
            little_endian,
            debug_abbrev: section_range(object, ".debug_abbrev"),
            debug_addr: section_range(object, ".debug_addr"),
            debug_info: section_range(object, ".debug_info"),
            debug_line: section_range(object, ".debug_line"),
            debug_line_str: section_range(object, ".debug_line_str"),
            debug_ranges: section_range(object, ".debug_ranges"),
            debug_rnglists: section_range(object, ".debug_rnglists"),
            debug_str: section_range(object, ".debug_str"),
            debug_str_offsets: section_range(object, ".debug_str_offsets"),
        },
    )
}

} // verus!
