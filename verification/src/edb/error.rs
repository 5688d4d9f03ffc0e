use vstd::prelude::*;

verus! {

/// Why reading, editing or writing an EDB/EDT image failed.
#[derive(Debug, Clone, Copy)]
pub enum Error {
    /// The image is shorter than a read at `expected` bytes needs.
    Truncated { expected: usize, actual: usize },
    /// The four-byte signature is not one of the known ones.
    InvalidMagic([u8; 4]),
    /// An encrypted image was given no password, or an empty one.
    EmptyPassword,
    /// The stored password verifier does not match the password.
    InvalidPassword,
    /// The format version field is not `VERSION_1`.
    UnsupportedVersion(u32),
    /// The image is structurally inconsistent; the text says how.
    InvalidLayout(&'static str),
    /// A record, field or page index is past the end.
    IndexOutOfBounds { index: usize, len: usize },
    /// A value is longer than the field that should hold it.
    FieldTooLong { required: usize, available: usize },
    /// Text has characters that GBK cannot encode.
    UnrepresentableText,
}

} // verus!
