//! The document formats that can be converted.

pub mod assemble;
pub mod breaks;
pub mod container;
pub mod content;
pub mod encode;
pub mod epub;
pub mod graph;
pub mod hidden;
pub mod layout;
pub mod lines;
pub mod markup;
pub mod pages;
pub mod pdf;
pub mod round_trip;
pub mod source;
pub mod structure;

use vstd::prelude::*;

verus! {

/// The format of a file, as far as its first bytes tell.
#[derive(Clone, Copy, Debug, PartialEq, Eq, Structural)]
pub enum FileType {
    PDF,
    EPUB,
    Unsupported,
}

/// The number of bytes that are looked at.
pub const HEADER_LEN: usize = 4;

/// The format that the first bytes of a file tell: a page-based document
/// begins with `%PDF`, a markup document in its container with `PK`.
pub open spec fn file_type_of(header: Seq<u8>) -> FileType {
    if header[0] == 0x25 && header[1] == 0x50 && header[2] == 0x44 && header[3] == 0x46 {
        FileType::PDF
    } else if header[0] == 0x50 && header[1] == 0x4b {
        FileType::EPUB
    } else {
        FileType::Unsupported
    }
}

/// Tells the format of a file by its first bytes. Fewer than four bytes
/// tell nothing.
pub fn get_file_type(header: &[u8]) -> (found: Option<FileType>)
    ensures
        header@.len() < HEADER_LEN <==> found is None,
        found matches Some(format) ==> format == file_type_of(header@),
{
    if header.len() < HEADER_LEN {
        return None;
    }
    if header[0] == 0x25 && header[1] == 0x50 && header[2] == 0x44 && header[3] == 0x46 {
        Some(FileType::PDF)
    } else if header[0] == 0x50 && header[1] == 0x4b {
        Some(FileType::EPUB)
    } else {
        Some(FileType::Unsupported)
    }
}

} // verus!
