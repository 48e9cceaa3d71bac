use vstd::prelude::*;

verus! {

/// Why an image could not be read, or an object not be laid out or written.
#[derive(Debug, Clone, Copy, PartialEq, Eq)]
pub enum ElfError {
    /// The first four bytes are not `7F 45 4C 46`.
    InvalidMagic,
    /// The class byte is neither 1 (32-bit) nor 2 (64-bit).
    UnsupportedClass,
    /// The data byte is neither 1 (little endian) nor 2 (big endian).
    UnsupportedEndianness,
    /// The stream ended before the bytes that were asked for.
    TruncatedInput,
    /// A name is not valid UTF-8.
    DecodeError,
    /// A section that the operation needs is absent; the payload is its name.
    MissingRequiredSection(&'static str),
    /// A name offset lies outside the body of its string table.
    NameTableOutOfBounds,
    /// A file offset or a size does not fit the integer that has to hold it.
    OffsetOverflow,
}

} // verus!
