//! File signatures and the detection of what kind of image a file holds.

use vstd::prelude::*;

use super::bytes::le_u32;
use super::error::Error;

verus! {

/// Signature of an encrypted record database.
pub const MAGIC_ENCRYPTED_DATABASE: [u8; 4] = [0x57, 0x43, 0x44, 0x42];

/// Signature of a record database in the clear.
pub const MAGIC_DATABASE: [u8; 4] = [0x57, 0x45, 0x44, 0x42];

/// Signature of a page table; encrypted tables share it.
pub const MAGIC_ENCRYPTED_TABLE: [u8; 4] = [0x57, 0x45, 0x44, 0x54];

/// Signature of a page table in the clear.
pub const MAGIC_TABLE: [u8; 4] = [0x57, 0x45, 0x44, 0x54];

/// The only supported format version.
pub const VERSION_1: u32 = 0x0001_0000;

/// `b` starts with the four bytes `m`.
pub open spec fn has_magic(b: Seq<u8>, m: Seq<u8>) -> bool {
    b.len() >= 4 && b.subrange(0, 4) == m
}

/// The first four bytes of `b` as an array.
pub open spec fn magic_of(b: Seq<u8>) -> [u8; 4] {
    [b[0], b[1], b[2], b[3]]
}

/// Which of the two formats an image holds.
#[derive(Debug, Clone, Copy, PartialEq, Eq, Structural)]
pub enum FileKind {
    Database,
    Table,
}

/// What the signature of an image says about it.
#[derive(Debug, Clone, Copy, PartialEq, Eq, Structural)]
pub struct FileHeader {
    pub kind: FileKind,
    pub encrypted: bool,
}

/// The header that `detect` reports for `b`.
pub open spec fn spec_detect(b: Seq<u8>) -> Result<FileHeader, Error> {
    if b.len() < 4 {
        Err(Error::Truncated { expected: 4, actual: b.len() as usize })
    } else if has_magic(b, MAGIC_ENCRYPTED_DATABASE@) {
        Ok(FileHeader { kind: FileKind::Database, encrypted: true })
    } else if has_magic(b, MAGIC_DATABASE@) {
        Ok(FileHeader { kind: FileKind::Database, encrypted: false })
    } else if has_magic(b, MAGIC_ENCRYPTED_TABLE@) {
        Ok(
            FileHeader {
                kind: FileKind::Table,
                encrypted: !(b.len() >= 8 && le_u32(b, 4) == VERSION_1),
            },
        )
    } else {
        Err(Error::InvalidMagic(magic_of(b)))
    }
}

/// `bytes[0..4] == m`, for a slice of at least four bytes.
pub fn starts_with_magic(bytes: &[u8], m: &[u8; 4]) -> (r: bool)
    requires
        bytes@.len() >= 4,
    ensures
        r == has_magic(bytes@, m@),
{
    let r = bytes[0] == m[0] && bytes[1] == m[1] && bytes[2] == m[2] && bytes[3] == m[3];
    assert(r == (bytes@.subrange(0, 4) =~= m@));
    r
}

impl FileHeader {
    /// Reads the signature of an image: its kind, and whether it is encrypted.
    /// A table counts as encrypted unless its version field reads `VERSION_1`.
    pub fn detect(bytes: &[u8]) -> (r: Result<FileHeader, Error>)
        ensures
            r == spec_detect(bytes@),
    {
        if bytes.len() < 4 {
            return Err(Error::Truncated { expected: 4, actual: bytes.len() });
        }
        if starts_with_magic(bytes, &MAGIC_ENCRYPTED_DATABASE) {
            Ok(FileHeader { kind: FileKind::Database, encrypted: true })
        } else if starts_with_magic(bytes, &MAGIC_DATABASE) {
            Ok(FileHeader { kind: FileKind::Database, encrypted: false })
        } else if starts_with_magic(bytes, &MAGIC_ENCRYPTED_TABLE) {
            let clear = bytes.len() >= 8 && bytes[4] as u32 + bytes[5] as u32 * 0x100 + bytes[6] as u32
                * 0x1_0000 + bytes[7] as u32 * 0x100_0000 == VERSION_1;
            Ok(FileHeader { kind: FileKind::Table, encrypted: !clear })
        } else {
            Err(Error::InvalidMagic([bytes[0], bytes[1], bytes[2], bytes[3]]))
        }
    }
}

} // verus!
