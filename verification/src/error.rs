//! The errors of the archive, header and payload decoders.
use vstd::prelude::*;

verus! {

/// Why an archive, a header or a payload could not be read or written.
#[derive(Debug, Clone, Copy, PartialEq, Eq, Structural)]
pub enum ArchiveError {
    /// The bytes ended before a field did.
    UnexpectedEnd,
    /// A variable-length integer ran past ten bytes.
    VarintTooLong,
    /// A string field is not UTF-8.
    InvalidUtf8,
    /// The delimiter presence marker is neither 0 nor 1.
    BadDelimiterMarker(u8),
    /// The line ending id is neither 0 nor 1.
    BadLineEnding(u8),
    /// A raw chunk presence marker is neither 0 nor 1.
    BadRawMarker(u8),
    /// A run-length chunk presence marker is neither 0 nor 1.
    BadRleMarker(u8),
    /// A cell tag is not one of 0 to 4.
    BadCellTag(u8),
    /// A codec id is not one of 0 to 6.
    UnknownCodec(u8),
    /// A format id is not one of 0 to 4.
    UnknownFormat(u8),
    /// A header enum's variant index names no variant.
    UnknownVariant(u32),
    /// A header flag byte is neither 0 nor 1.
    InvalidBool(u8),
    /// A chunk names a column that the table does not have.
    BadColumnId(u32),
    /// A run-length chunk does not stand for exactly the rows of its block.
    RleRowCount,
    /// A packed chunk uses more than 127 bits per value.
    BadBitWidth(u8),
    /// An integer chunk was asked to hold a value that is not an integer.
    NonIntegerValue,
    /// A frame-of-reference offset does not fit in an `i64`.
    OffsetOverflow,
    /// A count or length does not fit the field that holds it.
    LengthOverflow,
    /// The archive does not start with the magic bytes.
    BadMagic,
    /// The archive's container version is not supported.
    UnsupportedVersion(u32),
    /// The header length runs past the end of the archive.
    TruncatedHeader,
    /// The payload length runs past the end of the archive.
    TruncatedPayload,
    /// A compressed section could not be decompressed.
    Decompression,
    /// A section could not be compressed.
    Compression,
    /// The checksum at the end of the archive differs from the header's.
    ArchiveChecksumMismatch,
    /// The restored bytes do not have the size or the hash that the header records.
    ChecksumMismatch,
    /// A structural archive was asked for a format that has no structural plan.
    NoStructuralPlan,
    /// A delimited table does not record its delimiter.
    MissingDelimiter,
    /// The delimited text could not be read or written.
    Csv,
    /// A JSON line does not parse as JSON.
    InvalidJsonLine,
    /// A JSON line parses to a value that is not an object.
    JsonRowNotObject,
    /// The gzip encoder reported an error.
    Gzip,
}

} // verus!
