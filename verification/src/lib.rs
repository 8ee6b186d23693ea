//! Codec for a section-based binary container that stores localized text
//! resources: a header that fixes byte order and text encoding, followed by
//! tagged sections (label hash table, global-ID table, opaque metadata blobs,
//! and a string table with an embedded formatting-tag lexer), each padded to a
//! 16-byte file boundary.

use vstd::prelude::*;

pub mod bytes;
pub mod endian;
pub mod header;
pub mod msbt;
pub mod section;

pub use crate::header::Header;
pub use crate::msbt::{Msbt, MsbtReader, MsbtWriter};

verus! {

/// Byte order of every multi-byte integer in one file, chosen by the header's
/// byte-order mark and fixed for the file's whole lifetime.
#[derive(Debug, Clone, Copy, PartialEq, Eq, Structural)]
pub enum Endianness {
    Big,
    Little,
}

/// Text encoding selector carried by the header; exactly two values are legal.
#[derive(Debug, Clone, Copy, PartialEq, Eq, Structural)]
pub enum Encoding {
    Utf8,
    Utf16,
}

impl Encoding {
    /// The selector byte this encoding is stored as.
    pub open spec fn spec_byte(self) -> u8 {
        match self {
            Encoding::Utf8 => 0x00,
            Encoding::Utf16 => 0x01,
        }
    }

    /// Decodes the header's selector byte; any byte but the two legal values
    /// is rejected.
    pub fn try_from_byte(value: u8) -> (r: Option<Encoding>)
        ensures
            r is Some <==> (value == 0x00 || value == 0x01),
            r is Some ==> r->0.spec_byte() == value,
    {
        match value {
            0x00 => Some(Encoding::Utf8),
            0x01 => Some(Encoding::Utf16),
            _ => None,
        }
    }

    /// The selector byte, as executable code.
    pub fn to_byte(self) -> (r: u8)
        ensures
            r == self.spec_byte(),
    {
        match self {
            Encoding::Utf8 => 0x00,
            Encoding::Utf16 => 0x01,
        }
    }
}

/// Tag of one of the six concrete section kinds.
#[derive(Debug, Clone, Copy, PartialEq, Eq, Structural)]
pub enum SectionTag {
    Lbl1,
    Nli1,
    Ato1,
    Atr1,
    Tsy1,
    Txt2,
}

/// Why a parse or a write refused the input. Every failure is fatal: a
/// malformed file yields no container at all.
#[derive(Debug, PartialEq, Eq)]
pub enum Error {
    /// The input ended before a structure it had promised.
    Eof,
    /// The input is larger than the format's 32-bit file-size field can
    /// describe.
    TooLarge,
    /// The 8-byte file magic, or a section's own magic, is wrong.
    InvalidMagic,
    /// The 2-byte byte-order mark is neither of the two legal patterns.
    InvalidBom,
    /// The encoding selector byte (carried here) is neither legal value.
    InvalidEncoding(u8),
    /// A label's name bytes are not well-formed text.
    InvalidUtf8,
    /// An unrecognized or repeated section tag (the raw 4 bytes).
    InvalidSection(u8, u8, u8, u8),
    /// A label's stored index is out of range or assigned twice.
    InvalidLabelIndex,
    /// The string table's offsets decrease or point past its payload.
    InvalidStringOffsets,
}

} // verus!
