//! The `ATO1` section: an opaque metadata blob kept verbatim for file
//! fidelity; nothing inside it is interpreted.

use vstd::prelude::*;

use crate::bytes::plus_padding;
use crate::section::Section;

verus! {

/// Opaque `ATO1` payload: raw bytes of the declared size, re-emitted
/// unchanged.
#[derive(Debug, Clone)]
pub struct Ato1 {
    pub section: Section,
    pub unknown: Vec<u8>,
}

impl Ato1 {
    /// The section's payload bytes: the stored blob itself.
    pub open spec fn payload(self) -> Seq<u8> {
        self.unknown@
    }

    /// Well-formed: envelope widths are right and the padded section fits the
    /// format's 32-bit size arithmetic.
    pub open spec fn wf(self) -> bool {
        &&& self.section.wf()
        &&& plus_padding(16 + self.payload().len() as int) <= 0xFFFF_FFF0
    }

    /// A fresh section holding `unknown_bytes`, not yet linked into a
    /// container; its declared size is the blob's length.
    pub fn new_unlinked(unknown_bytes: Vec<u8>) -> (r: Ato1)
        requires
            unknown_bytes@.len() <= 0xFFFF_FFC0,
        ensures
            r.wf(),
            r.unknown@ == unknown_bytes@,
            r.section.size == unknown_bytes@.len(),
            r.section.magic@ == seq![0x41u8, 0x54u8, 0x4Fu8, 0x31u8],
    {
        proof {
            crate::bytes::lemma_plus_padding_bounds(16 + unknown_bytes@.len() as int);
        }
        let len = unknown_bytes.len();
        let mut magic: Vec<u8> = Vec::new();
        magic.push(0x41);
        magic.push(0x54);
        magic.push(0x4F);
        magic.push(0x31);
        proof {
            assert(magic@ =~= seq![0x41u8, 0x54u8, 0x4Fu8, 0x31u8]);
        }
        Ato1 { section: Section::new(magic, len as u32), unknown: unknown_bytes }
    }

    /// The section envelope.
    pub fn section(&self) -> (r: &Section)
        ensures
            r == self.section,
    {
        &self.section
    }

    /// The raw payload bytes.
    pub fn unknown_bytes(&self) -> (r: &Vec<u8>)
        ensures
            r@ == self.unknown@,
    {
        &self.unknown
    }
}

} // verus!
