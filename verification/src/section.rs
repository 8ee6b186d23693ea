//! The generic section envelope every concrete section is framed by: a 4-byte
//! tag, a 4-byte payload size, and 8 reserved bytes preserved verbatim.

use vstd::prelude::*;

use crate::{Endianness, Error};
use crate::endian::{dec32, enc32, get32, put32};
use crate::bytes::copy_range;

pub mod ato1;
pub mod atr1;
pub mod lbl1;
pub mod nli1;
pub mod tsy1;
pub mod txt2;

verus! {

/// Byte length of the envelope on disk.
pub const SECTION_HEADER_LEN: usize = 16;

/// One section's envelope. The size field delimits the payload on read and is
/// refreshed from content by `Msbt::update`; the reserved bytes round-trip
/// untouched.
#[derive(Debug, Clone)]
pub struct Section {
    pub magic: Vec<u8>,
    pub size: u32,
    pub padding: Vec<u8>,
}

/// The 16 envelope bytes of `s`, sizes in the byte order `e`.
pub open spec fn section_header_bytes(e: Endianness, s: Section) -> Seq<u8> {
    s.magic@ + enc32(e, s.size) + s.padding@
}

impl Section {
    /// Structural well-formedness: tag and reserved field have their on-disk
    /// widths.
    pub open spec fn wf(self) -> bool {
        &&& self.magic@.len() == 4
        &&& self.padding@.len() == 8
    }

    /// A fresh envelope with the given tag and payload size and zeroed
    /// reserved bytes.
    pub fn new(magic: Vec<u8>, size: u32) -> (r: Section)
        requires
            magic@.len() == 4,
        ensures
            r.wf(),
            r.magic@ == magic@,
            r.size == size,
            r.padding@ == Seq::new(8, |i: int| 0u8),
    {
        let mut padding: Vec<u8> = Vec::new();
        let mut i: usize = 0;
        while i < 8
            invariant
                i <= 8,
                padding@ == Seq::new(i as nat, |j: int| 0u8),
            decreases 8 - i,
        {
            padding.push(0);
            i = i + 1;
            assert(padding@ =~= Seq::new(i as nat, |j: int| 0u8));
        }
        Section { magic, size, padding }
    }

    /// Appends the 16 envelope bytes to `out`.
    pub fn write_into(&self, out: &mut Vec<u8>, e: Endianness)
        requires
            self.wf(),
        ensures
            final(out)@ == old(out)@ + section_header_bytes(e, *self),
            final(out)@.len() == old(out)@.len() + 16,
    {
        crate::bytes::push_bytes(out, &self.magic);
        put32(out, e, self.size);
        crate::bytes::push_bytes(out, &self.padding);
        assert(out@ =~= old(out)@ + section_header_bytes(e, *self));
    }
}

/// The payload size the envelope at `pos` declares: its second 4-byte
/// field, in the byte order `e`.
pub open spec fn stored_size(b: Seq<u8>, pos: int, e: Endianness) -> int {
    dec32(e, b.subrange(pos + 4, pos + 8))
}

/// Parses one envelope at `pos`; fails only when fewer than 16 bytes remain.
pub fn parse_section_header(data: &Vec<u8>, pos: usize, e: Endianness) -> (r: Result<
    Section,
    Error,
>)
    requires
        pos <= data@.len(),
    ensures
        r is Ok <==> pos + 16 <= data@.len(),
        r is Err ==> r->Err_0 == Error::Eof,
        r is Ok ==> r->Ok_0.wf() && data@.subrange(pos as int, pos + 16) == section_header_bytes(
            e,
            r->Ok_0,
        ),
        r is Ok ==> r->Ok_0.magic@ == data@.subrange(pos as int, pos + 4) && r->Ok_0.size
            == stored_size(data@, pos as int, e),
{
    let n = data.len();
    if n - pos < 16 {
        return Err(Error::Eof);
    }
    let magic = copy_range(data, pos, pos + 4);
    let size = get32(data, pos + 4, e);
    let padding = copy_range(data, pos + 8, pos + 16);
    let s = Section { magic, size, padding };
    proof {
        assert(data@.subrange(pos as int, pos + 16) =~= section_header_bytes(e, s));
    }
    Ok(s)
}

} // verus!
