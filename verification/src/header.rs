//! The fixed 32-byte file header: magic, byte-order mark, encoding selector,
//! section count, file size, and reserved fields kept verbatim for round-trip
//! fidelity.

use vstd::prelude::*;

use crate::{Encoding, Endianness, Error};
use crate::endian::{enc16, enc32, get16, get32, put16, put32};
use crate::bytes::copy_range;

verus! {

/// Total byte length of the header on disk.
pub const HEADER_LEN: usize = 32;

/// The fixed 8-byte file magic, `MsgStdBn`.
pub open spec fn magic_bytes() -> Seq<u8> {
    seq![0x4Du8, 0x73u8, 0x67u8, 0x53u8, 0x74u8, 0x64u8, 0x42u8, 0x6Eu8]
}

/// The 2-byte byte-order mark that selects `e`.
pub open spec fn bom_bytes(e: Endianness) -> Seq<u8> {
    match e {
        Endianness::Big => seq![0xFEu8, 0xFFu8],
        Endianness::Little => seq![0xFFu8, 0xFEu8],
    }
}

/// The file header. The magic is validated on parse and never mutated; the
/// reserved fields are preserved byte-for-byte but not interpreted; the
/// file-size field is recomputed from content on every write, never trusted
/// from the read path.
#[derive(Debug, Clone)]
pub struct Header {
    pub magic: Vec<u8>,
    pub endianness: Endianness,
    pub unknown_1: u16,
    pub encoding: Encoding,
    pub unknown_2: u8,
    pub section_count: u16,
    pub unknown_3: u16,
    pub padding: Vec<u8>,
}

/// The 32 bytes of `h` on disk, with `file_size` substituted into the
/// file-size field.
pub open spec fn header_bytes(h: Header, file_size: u32) -> Seq<u8> {
    h.magic@ + bom_bytes(h.endianness) + enc16(h.endianness, h.unknown_1) + seq![
        h.encoding.spec_byte(),
        h.unknown_2,
    ] + enc16(h.endianness, h.section_count) + enc16(h.endianness, h.unknown_3) + enc32(
        h.endianness,
        file_size,
    ) + h.padding@
}

/// What `Header::from_bytes` refuses, and why, on the byte sequence `b`.
/// The checks run in file order: magic first, then the byte-order mark, then
/// the encoding selector; running out of bytes anywhere is fatal.
pub open spec fn header_err(b: Seq<u8>) -> Option<Error> {
    if b.len() < 8 {
        Some(Error::Eof)
    } else if b.subrange(0, 8) != magic_bytes() {
        Some(Error::InvalidMagic)
    } else if b.len() < 10 {
        Some(Error::Eof)
    } else if b.subrange(8, 10) != bom_bytes(Endianness::Big) && b.subrange(8, 10) != bom_bytes(
        Endianness::Little,
    ) {
        Some(Error::InvalidBom)
    } else if b.len() < 13 {
        Some(Error::Eof)
    } else if b[12] != 0x00 && b[12] != 0x01 {
        Some(Error::InvalidEncoding(b[12]))
    } else if b.len() < 32 {
        Some(Error::Eof)
    } else {
        None
    }
}

/// What a successful header parse of `b` guarantees: the result is
/// well-formed and the first 32 bytes of `b` are its serialization, around
/// whatever file-size field `b` carried.
pub open spec fn parsed_header_ok(b: Seq<u8>, h: Header) -> bool {
    &&& h.wf()
    &&& b.len() >= 32
    &&& exists|fs: u32| b.subrange(0, 32) == header_bytes(h, fs)
}

impl Header {
    /// Structural well-formedness: the magic is the fixed one and the
    /// reserved tail has its on-disk width.
    pub open spec fn wf(self) -> bool {
        &&& self.magic@ == magic_bytes()
        &&& self.padding@.len() == 10
    }

    /// Parses the header from the front of `data`. On success the first 32
    /// bytes of `data` are exactly the header's own serialization (around
    /// whatever file-size field the input carried, which is read but never
    /// authoritative); on failure the error names the first violated check.
    pub fn from_bytes(data: &Vec<u8>) -> (r: Result<Header, Error>)
        ensures
            r is Ok <==> header_err(data@) is None,
            r is Err ==> Some(r->Err_0) == header_err(data@),
            r is Ok ==> parsed_header_ok(data@, r->Ok_0),
    {
        let n = data.len();
        if n < 8 {
            return Err(Error::Eof);
        }
        let magic_ok = data[0] == 0x4D && data[1] == 0x73 && data[2] == 0x67 && data[3] == 0x53
            && data[4] == 0x74 && data[5] == 0x64 && data[6] == 0x42 && data[7] == 0x6E;
        proof {
            assert(magic_ok <==> data@.subrange(0, 8) =~= magic_bytes());
        }
        if !magic_ok {
            return Err(Error::InvalidMagic);
        }
        if n < 10 {
            return Err(Error::Eof);
        }
        let b8 = data[8];
        let b9 = data[9];
        proof {
            assert(data@.subrange(8, 10) =~= seq![data@[8], data@[9]]);
        }
        let endianness = if b8 == 0xFE && b9 == 0xFF {
            Endianness::Big
        } else if b8 == 0xFF && b9 == 0xFE {
            Endianness::Little
        } else {
            return Err(Error::InvalidBom);
        };
        if n < 13 {
            return Err(Error::Eof);
        }
        let encoding = match Encoding::try_from_byte(data[12]) {
            Some(enc) => enc,
            None => {
                return Err(Error::InvalidEncoding(data[12]));
            },
        };
        if n < 32 {
            return Err(Error::Eof);
        }
        let unknown_1 = get16(data, 10, endianness);
        let unknown_2 = data[13];
        let section_count = get16(data, 14, endianness);
        let unknown_3 = get16(data, 16, endianness);
        let file_size = get32(data, 18, endianness);
        let padding = copy_range(data, 22, 32);
        let h = Header {
            magic: copy_range(data, 0, 8),
            endianness,
            unknown_1,
            encoding,
            unknown_2,
            section_count,
            unknown_3,
            padding,
        };
        proof {
            assert(h.magic@ =~= magic_bytes());
            assert(data@.subrange(0, 32) =~= header_bytes(h, file_size));
            assert(parsed_header_ok(data@, h)) by {
                assert(data@.subrange(0, 32) == header_bytes(h, file_size));
            }
        }
        Ok(h)
    }

    /// Appends the header's 32 bytes to `out`, with `file_size` in the
    /// file-size field.
    pub fn write_into(&self, out: &mut Vec<u8>, file_size: u32)
        requires
            self.wf(),
        ensures
            final(out)@ == old(out)@ + header_bytes(*self, file_size),
            final(out)@.len() == old(out)@.len() + 32,
    {
        out.push(0x4D);
        out.push(0x73);
        out.push(0x67);
        out.push(0x53);
        out.push(0x74);
        out.push(0x64);
        out.push(0x42);
        out.push(0x6E);
        match self.endianness {
            Endianness::Big => {
                out.push(0xFE);
                out.push(0xFF);
            },
            Endianness::Little => {
                out.push(0xFF);
                out.push(0xFE);
            },
        }
        put16(out, self.endianness, self.unknown_1);
        out.push(self.encoding.to_byte());
        out.push(self.unknown_2);
        put16(out, self.endianness, self.section_count);
        put16(out, self.endianness, self.unknown_3);
        put32(out, self.endianness, file_size);
        crate::bytes::push_bytes(out, &self.padding);
        assert(out@ =~= old(out)@ + header_bytes(*self, file_size));
    }

    /// The 8-byte magic.
    pub fn magic(&self) -> (r: &Vec<u8>)
        ensures
            r@ == self.magic@,
    {
        &self.magic
    }

    /// The byte order every multi-byte integer of this file uses.
    pub fn endianness(&self) -> (r: Endianness)
        ensures
            r == self.endianness,
    {
        self.endianness
    }

    /// First reserved 16-bit field, preserved verbatim.
    pub fn unknown_1(&self) -> (r: u16)
        ensures
            r == self.unknown_1,
    {
        self.unknown_1
    }

    /// The text encoding of string-table entries.
    pub fn encoding(&self) -> (r: Encoding)
        ensures
            r == self.encoding,
    {
        self.encoding
    }

    /// Reserved byte after the encoding selector, preserved verbatim.
    pub fn unknown_2(&self) -> (r: u8)
        ensures
            r == self.unknown_2,
    {
        self.unknown_2
    }

    /// The stored section count; refreshed from the section order on
    /// `Msbt::update`.
    pub fn section_count(&self) -> (r: u16)
        ensures
            r == self.section_count,
    {
        self.section_count
    }

    /// Second reserved 16-bit field, preserved verbatim.
    pub fn unknown_3(&self) -> (r: u16)
        ensures
            r == self.unknown_3,
    {
        self.unknown_3
    }

    /// The 10 reserved trailing bytes, preserved verbatim.
    pub fn padding(&self) -> (r: &Vec<u8>)
        ensures
            r@ == self.padding@,
    {
        &self.padding
    }
}

} // verus!
