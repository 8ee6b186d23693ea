//! The container aggregate: the header, the recorded section order, at most
//! one section of each kind, and the file-wide pad byte; with the writer
//! that re-serializes the whole container and the reader that parses one.

use vstd::prelude::*;

use crate::{Encoding, Endianness, Error, SectionTag};
use crate::bytes::{pad_to_16, padded_to_16, plus_padding, push_bytes};
use crate::endian::{dec32, get32};
use crate::header::{header_bytes, header_err, Header, HEADER_LEN};
use crate::section::{parse_section_header, section_header_bytes, stored_size, Section};
use crate::section::ato1::Ato1;
use crate::section::atr1::Atr1;
use crate::section::lbl1::{
    check_utf8, is_utf8, label_record_index, label_record_len, label_record_name,
    label_record_start, labels_blob_len, lemma_blob_len_update, sum_label_counts,
    write_lbl1_payload, Group, Label, Lbl1,
};
use crate::section::nli1::{insert_global_id, spec_insert_gid, write_nli1_payload, Nli1};
use crate::section::tsy1::Tsy1;
use crate::section::txt2::{
    elems_bytes, parse_elements, stored_entry_len, stored_entry_start, stored_offset,
    write_txt2_payload, TextElement, Txt2,
};

verus! {

/// One parsed container: header, recorded on-disk section order, zero or
/// one of each of the six section kinds, and the file's single pad byte.
#[derive(Debug, Clone)]
pub struct Msbt {
    pub header: Header,
    pub section_order: Vec<SectionTag>,
    pub lbl1: Option<Lbl1>,
    pub nli1: Option<Nli1>,
    pub ato1: Option<Ato1>,
    pub atr1: Option<Atr1>,
    pub tsy1: Option<Tsy1>,
    pub txt2: Option<Txt2>,
    pub pad_byte: u8,
}

impl Msbt {
    /// Whether the section of kind `t` is present.
    pub open spec fn has_section(self, t: SectionTag) -> bool {
        match t {
            SectionTag::Lbl1 => self.lbl1 is Some,
            SectionTag::Nli1 => self.nli1 is Some,
            SectionTag::Ato1 => self.ato1 is Some,
            SectionTag::Atr1 => self.atr1 is Some,
            SectionTag::Tsy1 => self.tsy1 is Some,
            SectionTag::Txt2 => self.txt2 is Some,
        }
    }

    /// How many of the six sections are present.
    pub open spec fn num_present(self) -> int {
        (if self.lbl1 is Some { 1int } else { 0int }) + (if self.nli1 is Some { 1int } else { 0int })
            + (if self.ato1 is Some { 1int } else { 0int }) + (if self.atr1 is Some {
            1int
        } else {
            0int
        }) + (if self.tsy1 is Some { 1int } else { 0int }) + (if self.txt2 is Some {
            1int
        } else {
            0int
        })
    }

    /// Total size of the file this container serializes to: the header plus
    /// every present section's padded extent. Always recomputed from
    /// content, never trusted from the read path.
    #[verifier::opaque]
    pub open spec fn total_size(self) -> int {
        32 + self.term_lbl1() + self.term_nli1() + self.term_ato1() + self.term_atr1()
            + self.term_tsy1() + self.term_txt2()
    }

    /// The label table's padded on-disk extent, zero when absent.
    pub open spec fn term_lbl1(self) -> int {
        if self.lbl1 is Some {
            plus_padding(16 + self.lbl1->0.payload_len())
        } else {
            0
        }
    }

    /// The global-ID table's padded on-disk extent, zero when absent.
    pub open spec fn term_nli1(self) -> int {
        if self.nli1 is Some {
            plus_padding(16 + self.nli1->0.payload_len())
        } else {
            0
        }
    }

    /// The `ATO1` blob's padded on-disk extent, zero when absent.
    pub open spec fn term_ato1(self) -> int {
        if self.ato1 is Some {
            plus_padding(16 + self.ato1->0.payload().len() as int)
        } else {
            0
        }
    }

    /// The `ATR1` blob's padded on-disk extent, zero when absent.
    pub open spec fn term_atr1(self) -> int {
        if self.atr1 is Some {
            plus_padding(16 + self.atr1->0.payload().len() as int)
        } else {
            0
        }
    }

    /// The `TSY1` blob's padded on-disk extent, zero when absent.
    pub open spec fn term_tsy1(self) -> int {
        if self.tsy1 is Some {
            plus_padding(16 + self.tsy1->0.payload().len() as int)
        } else {
            0
        }
    }

    /// The string table's padded on-disk extent, zero when absent.
    pub open spec fn term_txt2(self) -> int {
        if self.txt2 is Some {
            plus_padding(16 + self.txt2->0.payload_len(self.header.encoding, self.header.endianness))
        } else {
            0
        }
    }

    /// Structural well-formedness of the whole container: header and
    /// sections well-formed, the order list naming exactly the present
    /// sections with no repeats, and the whole file inside the 32-bit
    /// file-size field.
    pub open spec fn wf(self) -> bool {
        &&& self.sections_wf()
        &&& self.order_wf()
        &&& self.total_size() <= 0xFFFF_FFFF
    }

    /// The header and every present section are well-formed.
    #[verifier::opaque]
    pub open spec fn sections_wf(self) -> bool {
        &&& self.header.wf()
        &&& self.lbl1 is Some ==> self.lbl1->0.wf()
        &&& self.nli1 is Some ==> self.nli1->0.wf()
        &&& self.ato1 is Some ==> self.ato1->0.wf()
        &&& self.atr1 is Some ==> self.atr1->0.wf()
        &&& self.tsy1 is Some ==> self.tsy1->0.wf()
        &&& self.txt2 is Some ==> self.txt2->0.wf(self.header.encoding, self.header.endianness)
    }

    /// The order list names exactly the present sections, each once.
    pub open spec fn order_wf(self) -> bool {
        &&& forall|i: int, j: int|
            0 <= i < j < self.section_order@.len() ==> self.section_order@[i]
                != self.section_order@[j]
        &&& forall|t: SectionTag| self.section_order@.contains(t) <==> self.has_section(t)
        &&& self.section_order@.len() == self.num_present()
    }

    /// The padded on-disk block of the section of kind `t`: envelope,
    /// payload, then pad bytes to the next 16-byte boundary. Empty when the
    /// section is absent.
    #[verifier::opaque]
    pub open spec fn section_block(self, t: SectionTag) -> Seq<u8> {
        let e = self.header.endianness;
        match t {
            SectionTag::Lbl1 => if self.lbl1 is Some {
                let s = self.lbl1->0;
                padded_to_16(section_header_bytes(e, s.section) + s.payload(e), self.pad_byte)
            } else {
                Seq::empty()
            },
            SectionTag::Nli1 => if self.nli1 is Some {
                let s = self.nli1->0;
                padded_to_16(section_header_bytes(e, s.section) + s.payload(e), self.pad_byte)
            } else {
                Seq::empty()
            },
            SectionTag::Ato1 => if self.ato1 is Some {
                let s = self.ato1->0;
                padded_to_16(section_header_bytes(e, s.section) + s.payload(), self.pad_byte)
            } else {
                Seq::empty()
            },
            SectionTag::Atr1 => if self.atr1 is Some {
                let s = self.atr1->0;
                padded_to_16(section_header_bytes(e, s.section) + s.payload(), self.pad_byte)
            } else {
                Seq::empty()
            },
            SectionTag::Tsy1 => if self.tsy1 is Some {
                let s = self.tsy1->0;
                padded_to_16(section_header_bytes(e, s.section) + s.payload(), self.pad_byte)
            } else {
                Seq::empty()
            },
            SectionTag::Txt2 => if self.txt2 is Some {
                let s = self.txt2->0;
                padded_to_16(
                    section_header_bytes(e, s.section) + s.payload(
                        self.header.encoding,
                        self.header.endianness,
                    ),
                    self.pad_byte,
                )
            } else {
                Seq::empty()
            },
        }
    }

    /// The concatenated blocks of the sections named by `order`.
    pub open spec fn blocks(self, order: Seq<SectionTag>) -> Seq<u8>
        decreases order.len(),
    {
        if order.len() == 0 {
            Seq::empty()
        } else {
            self.blocks(order.drop_last()) + self.section_block(order.last())
        }
    }

    /// The container's full serialization: the header, with the freshly
    /// computed total size in its file-size field, then every section in
    /// the recorded order.
    pub open spec fn spec_bytes(self) -> Seq<u8> {
        header_bytes(self.header, self.total_size() as u32) + self.blocks(self.section_order@)
    }

    /// The header.
    pub fn header(&self) -> (r: &Header)
        ensures
            r == self.header,
    {
        &self.header
    }

    /// The recorded on-disk order of the present sections.
    pub fn section_order(&self) -> (r: &Vec<SectionTag>)
        ensures
            r@ == self.section_order@,
    {
        &self.section_order
    }

    /// The label table, when present.
    pub fn lbl1(&self) -> (r: Option<&Lbl1>)
        ensures
            r is Some <==> self.lbl1 is Some,
            r is Some ==> r->0 == self.lbl1->0,
    {
        self.lbl1.as_ref()
    }

    /// The global-ID table, when present.
    pub fn nli1(&self) -> (r: Option<&Nli1>)
        ensures
            r is Some <==> self.nli1 is Some,
            r is Some ==> r->0 == self.nli1->0,
    {
        self.nli1.as_ref()
    }

    /// The `ATO1` section, when present.
    pub fn ato1(&self) -> (r: Option<&Ato1>)
        ensures
            r is Some <==> self.ato1 is Some,
            r is Some ==> r->0 == self.ato1->0,
    {
        self.ato1.as_ref()
    }

    /// The `ATR1` section, when present.
    pub fn atr1(&self) -> (r: Option<&Atr1>)
        ensures
            r is Some <==> self.atr1 is Some,
            r is Some ==> r->0 == self.atr1->0,
    {
        self.atr1.as_ref()
    }

    /// The `TSY1` section, when present.
    pub fn tsy1(&self) -> (r: Option<&Tsy1>)
        ensures
            r is Some <==> self.tsy1 is Some,
            r is Some ==> r->0 == self.tsy1->0,
    {
        self.tsy1.as_ref()
    }

    /// The string table, when present.
    pub fn txt2(&self) -> (r: Option<&Txt2>)
        ensures
            r is Some <==> self.txt2 is Some,
            r is Some ==> r->0 == self.txt2->0,
    {
        self.txt2.as_ref()
    }

    /// A payload length brought up to its padded on-disk extent, envelope
    /// included.
    pub fn plus_padding_of(payload_len: u64) -> (r: u64)
        requires
            payload_len <= 0xFFFF_FFFF,
        ensures
            r == plus_padding(16 + payload_len),
            r <= payload_len + 31,
    {
        proof {
            reveal(crate::bytes::pad_len);
        }
        let t: u64 = 16 + payload_len;
        let rem = t % 16;
        if rem > 0 {
            t + (16 - rem)
        } else {
            t
        }
    }

    /// A whole block length brought up to the next 16-byte boundary.
    pub fn plus_padding_of_wide(t: u64) -> (r: u64)
        requires
            t <= 0x7FFF_FFFF_FFFF,
        ensures
            r == plus_padding(t as int),
            r <= t + 15,
    {
        proof {
            reveal(crate::bytes::pad_len);
        }
        let rem = t % 16;
        if rem > 0 {
            t + (16 - rem)
        } else {
            t
        }
    }

    /// Recomputes the file's total size from current content.
    #[verifier::rlimit(100)]
    #[verifier::spinoff_prover]
    pub fn calc_size(&self) -> (r: u64)
        requires
            self.sections_wf(),
        ensures
            r == self.total_size(),
            r <= 32 + 6 * 0xFFFF_FFF0,
    {
        proof {
            reveal(Msbt::sections_wf);
        }
        let mut total: u64 = 32;
        if let Some(l) = &self.lbl1 {
            total = total + lbl1_term_of(l);
        }
        assert(total == 32 + self.term_lbl1());
        if let Some(s) = &self.nli1 {
            total = total + nli1_term_of(s);
        }
        assert(total == 32 + self.term_lbl1() + self.term_nli1());
        if let Some(s) = &self.ato1 {
            total = total + blob_term_of(&s.unknown);
        }
        assert(total == 32 + self.term_lbl1() + self.term_nli1() + self.term_ato1());
        if let Some(s) = &self.atr1 {
            total = total + blob_term_of(&s.unknown);
        }
        assert(total == 32 + self.term_lbl1() + self.term_nli1() + self.term_ato1()
            + self.term_atr1());
        if let Some(s) = &self.tsy1 {
            total = total + blob_term_of(&s.unknown);
        }
        assert(total == 32 + self.term_lbl1() + self.term_nli1() + self.term_ato1()
            + self.term_atr1() + self.term_tsy1());
        if let Some(s) = &self.txt2 {
            total = total + txt2_term_of(s, self.header.encoding, self.header.endianness);
        }
        proof {
            reveal(Msbt::total_size);
        }
        total
    }

    /// Whether `t` occurs in the order list; decides `contains`.
    fn order_contains(&self, t: SectionTag) -> (r: bool)
        ensures
            r == self.section_order@.contains(t),
    {
        let n = self.section_order.len();
        let mut i: usize = 0;
        while i < n
            invariant
                i <= n,
                n == self.section_order@.len(),
                forall|k: int| 0 <= k < i ==> self.section_order@[k] != t,
            decreases n - i,
        {
            if self.section_order[i] == t {
                assert(self.section_order@[i as int] == t);
                return true;
            }
            i = i + 1;
        }
        assert(!self.section_order@.contains(t));
        false
    }

    /// Tests a sufficient condition for the whole container's
    /// well-formedness, so that unverified callers can screen a container
    /// before serializing. Only the stated direction is verified: a `true`
    /// answer guarantees `wf`. The checks mirror `wf`'s conjuncts, so a
    /// `false` answer means some conjunct's check did not pass, but that
    /// direction carries no proof.
    pub fn check_wf(&self) -> (r: bool)
        ensures
            r ==> self.wf(),
    {
        proof {
            reveal(Msbt::sections_wf);
        }
        let hm = &self.header.magic;
        let header_ok = hm.len() == 8 && hm[0] == 0x4D && hm[1] == 0x73 && hm[2] == 0x67 && hm[3]
            == 0x53 && hm[4] == 0x74 && hm[5] == 0x64 && hm[6] == 0x42 && hm[7] == 0x6E
            && self.header.padding.len() == 10;
        proof {
            if header_ok {
                assert(self.header.magic@ =~= crate::header::magic_bytes());
            }
        }
        if !header_ok {
            return false;
        }
        let n_ord = self.section_order.len();
        let mut i: usize = 0;
        while i < n_ord
            invariant
                i <= n_ord,
                n_ord == self.section_order@.len(),
                forall|p: int, q: int|
                    0 <= p < q < self.section_order@.len() && p < i ==> self.section_order@[p]
                        != self.section_order@[q],
            decreases n_ord - i,
        {
            let mut j: usize = i + 1;
            while j < n_ord
                invariant
                    i < j <= n_ord,
                    i < n_ord,
                    n_ord == self.section_order@.len(),
                    forall|q: int| i < q < j ==> self.section_order@[i as int]
                        != self.section_order@[q],
                decreases n_ord - j,
            {
                if self.section_order[i] == self.section_order[j] {
                    return false;
                }
                j = j + 1;
            }
            i = i + 1;
        }
        if self.order_contains(SectionTag::Lbl1) != self.lbl1.is_some() {
            return false;
        }
        if self.order_contains(SectionTag::Nli1) != self.nli1.is_some() {
            return false;
        }
        if self.order_contains(SectionTag::Ato1) != self.ato1.is_some() {
            return false;
        }
        if self.order_contains(SectionTag::Atr1) != self.atr1.is_some() {
            return false;
        }
        if self.order_contains(SectionTag::Tsy1) != self.tsy1.is_some() {
            return false;
        }
        if self.order_contains(SectionTag::Txt2) != self.txt2.is_some() {
            return false;
        }
        let mut present: usize = 0;
        if self.lbl1.is_some() {
            present = present + 1;
        }
        if self.nli1.is_some() {
            present = present + 1;
        }
        if self.ato1.is_some() {
            present = present + 1;
        }
        if self.atr1.is_some() {
            present = present + 1;
        }
        if self.tsy1.is_some() {
            present = present + 1;
        }
        if self.txt2.is_some() {
            present = present + 1;
        }
        if n_ord != present {
            return false;
        }
        if let Some(l) = &self.lbl1 {
            if !check_lbl1_wf(l) {
                return false;
            }
        }
        if let Some(s) = &self.nli1 {
            if !check_nli1_wf(s) {
                return false;
            }
        }
        if let Some(s) = &self.ato1 {
            if !(s.section.magic.len() == 4 && s.section.padding.len() == 8 && check_blob_fits(
                &s.unknown,
            )) {
                return false;
            }
        }
        if let Some(s) = &self.atr1 {
            if !(s.section.magic.len() == 4 && s.section.padding.len() == 8 && check_blob_fits(
                &s.unknown,
            )) {
                return false;
            }
        }
        if let Some(s) = &self.tsy1 {
            if !(s.section.magic.len() == 4 && s.section.padding.len() == 8 && check_blob_fits(
                &s.unknown,
            )) {
                return false;
            }
        }
        if let Some(s) = &self.txt2 {
            if !check_txt2_wf(s, self.header.encoding, self.header.endianness) {
                return false;
            }
        }
        assert forall|u: SectionTag|
            self.section_order@.contains(u) <==> self.has_section(u) by {
            match u {
                SectionTag::Lbl1 => {},
                SectionTag::Nli1 => {},
                SectionTag::Ato1 => {},
                SectionTag::Atr1 => {},
                SectionTag::Tsy1 => {},
                SectionTag::Txt2 => {},
            }
        }
        let total = self.calc_size();
        total <= 0xFFFF_FFFF
    }

    /// Parses a whole container out of `data`: the header first, then the
    /// dispatcher loop over the sections. Any structural violation is
    /// fatal: no partial container is ever returned, and a returned
    /// container is well-formed.
    pub fn from_bytes(data: Vec<u8>) -> (r: Result<Msbt, Error>)
        ensures
            r is Ok ==> r->Ok_0.wf(),
            header_err(data@) is Some ==> r == Err::<Msbt, Error>(header_err(data@)->0),
            header_err(data@) is None && data@.len() >= 36 && !known_tag(data@, 32) ==> r
                == Err::<Msbt, Error>(
                Error::InvalidSection(data@[32], data@[33], data@[34], data@[35]),
            ),
    {
        let header = match Header::from_bytes(&data) {
            Ok(h) => h,
            Err(e) => {
                return Err(e);
            },
        };
        let msbt = Msbt {
            header,
            section_order: Vec::new(),
            lbl1: None,
            nli1: None,
            ato1: None,
            atr1: None,
            tsy1: None,
            txt2: None,
            pad_byte: 0,
        };
        proof {
            reveal(Msbt::sections_wf);
            assert(forall|u: SectionTag| !(#[trigger] msbt.section_order@.contains(u)));
        }
        let mut reader = MsbtReader { data, pos: HEADER_LEN, msbt, got_pad: false };
        match reader.read_sections() {
            Ok(()) => {},
            Err(e) => {
                return Err(e);
            },
        }
        let total = reader.msbt.calc_size();
        if total > 0xFFFF_FFFF {
            return Err(Error::TooLarge);
        }
        Ok(reader.msbt)
    }

    /// Whether renaming label `i` to `name` is accepted: the table and
    /// index exist, the name fits its record, and the renamed table still
    /// fits the format's 32-bit size arithmetic.
    pub open spec fn rename_fits(self, i: int, name: Seq<u8>) -> bool {
        &&& self.lbl1 is Some
        &&& 0 <= i < self.lbl1->0.labels@.len()
        &&& name.len() <= 255
        &&& is_utf8(name)
        &&& plus_padding(
            16 + self.lbl1->0.payload_len() - self.lbl1->0.labels@[i].name@.len() + name.len(),
        ) <= 0xFFFF_FFF0
        &&& self.total_size() - plus_padding(16 + self.lbl1->0.payload_len()) + plus_padding(
            16 + self.lbl1->0.payload_len() - self.lbl1->0.labels@[i].name@.len() + name.len(),
        ) <= 0xFFFF_FFFF
    }

    /// Renames the label at index `i`, with the edit and the refresh of
    /// every derived field bundled into one operation, so the aggregate is
    /// never observable between an edit and the recomputation. Returns
    /// `false`, changing nothing, when no label table is present, the index
    /// is out of range, the name does not fit its record, or the renamed
    /// table would no longer fit the format's 32-bit size arithmetic.
    #[verifier::rlimit(100)]
    pub fn set_label_name(&mut self, i: usize, name: Vec<u8>) -> (r: bool)
        requires
            old(self).wf(),
        ensures
            final(self).wf(),
            r <==> old(self).rename_fits(i as int, name@),
            !r ==> *final(self) == *old(self),
            r ==> old(self).lbl1 is Some && i < old(self).lbl1->0.labels@.len(),
            r ==> final(self).lbl1 is Some && final(self).lbl1->0.labels@ == old(
                self,
            ).lbl1->0.labels@.update(i as int, (Label { name: name })),
            r ==> final(self).lbl1->0.section.size == final(self).lbl1->0.payload_len()
                && final(self).header.section_count == final(self).section_order@.len(),
    {
        proof {
            reveal(Msbt::sections_wf);
            reveal(Msbt::total_size);
        }
        if self.lbl1.is_none() {
            return false;
        }
        if name.len() > 255 {
            return false;
        }
        if !check_utf8(&name) {
            return false;
        }
        let mut l = self.lbl1.take().unwrap();
        let n = l.labels.len();
        if i >= n {
            self.lbl1 = Some(l);
            assert(*self == *old(self));
            return false;
        }
        let ghost labels_new = l.labels@.update(i as int, (Label { name: name }));
        let mut blob: u64 = 0;
        let mut q: usize = 0;
        while q < n
            invariant
                q <= n,
                i < n,
                n == l.labels@.len(),
                n <= 0xFFFF_FFFF,
                name@.len() <= 255,
                forall|k: int| 0 <= k < n ==> l.labels@[k].wf(),
                labels_new == l.labels@.update(i as int, (Label { name: name })),
                blob == labels_blob_len(labels_new.subrange(0, q as int)),
                blob <= 260 * q,
            decreases n - q,
        {
            let term: u64 = if q == i {
                5 + name.len() as u64
            } else {
                5 + l.labels[q].name.len() as u64
            };
            blob = blob + term;
            q = q + 1;
            proof {
                let pre = labels_new.subrange(0, q as int);
                assert(pre.drop_last() =~= labels_new.subrange(0, q - 1));
                assert(pre.last() == labels_new[q - 1]);
            }
        }
        proof {
            assert(labels_new.subrange(0, n as int) =~= labels_new);
            crate::section::lbl1::lemma_blob_len_nonneg(l.labels@);
            crate::bytes::lemma_plus_padding_bounds(16 + l.payload_len());
            lemma_blob_len_update(l.labels@, i as int, (Label { name: name }));
            reveal(crate::bytes::pad_len);
        }
        let g = l.groups.len() as u64;
        let new_pl: u64 = 4 + 8 * g + blob;
        let new_term = Msbt::plus_padding_of_wide(16 + new_pl);
        if new_term > 0xFFFF_FFF0 {
            self.lbl1 = Some(l);
            assert(*self == *old(self));
            return false;
        }
        let old_term = lbl1_term_of(&l);
        self.lbl1 = Some(l);
        let total_old = self.calc_size();
        let new_total: u64 = total_old - old_term + new_term;
        if new_total > 0xFFFF_FFFF {
            assert(*self == *old(self));
            return false;
        }
        let mut l = self.lbl1.take().unwrap();
        l.labels.set(i, Label { name });
        proof {
            assert(l.labels@ =~= labels_new);
        }
        l.update_groups();
        proof {
            crate::section::lbl1::lemma_blob_len_nonneg(l.labels@);
            crate::bytes::lemma_plus_padding_bounds(16 + l.payload_len());
        }
        let pl = l.payload_size();
        l.section.size = pl as u32;
        self.lbl1 = Some(l);
        let count = self.section_order.len();
        self.header.section_count = count as u16;
        proof {
            assert(forall|u: SectionTag|
                #[trigger] self.has_section(u) <==> old(self).has_section(u));
            assert(self.num_present() == old(self).num_present());
            assert(self.total_size() == new_total);
        }
        true
    }

    /// What one refresh pass guarantees, `pre` the container before it and
    /// `post` the container after: content (sections present, labels,
    /// global IDs, blobs, entries, order, pad byte, header selectors) is
    /// untouched, and every derived field — each present section's declared
    /// size, the label table's bucket counts, the header's section count —
    /// equals what its content dictates.
    pub open spec fn refreshed(pre: Msbt, post: Msbt) -> bool {
        &&& post.section_order == pre.section_order
        &&& post.pad_byte == pre.pad_byte
        &&& post.header == (Header { section_count: post.header.section_count, ..pre.header })
        &&& (post.lbl1 is Some <==> pre.lbl1 is Some)
        &&& post.lbl1 is Some ==> post.lbl1->0.labels == pre.lbl1->0.labels
            && post.lbl1->0.section == (Section {
            size: post.lbl1->0.section.size,
            ..pre.lbl1->0.section
        }) && post.lbl1->0.section.size == post.lbl1->0.payload_len() && post.lbl1->0.groups@.len()
            == pre.lbl1->0.groups@.len() && (forall|b: int|
            0 <= b < post.lbl1->0.groups@.len()
                ==> (#[trigger] post.lbl1->0.groups@[b]).label_count
                == crate::section::lbl1::bucket_count_spec(
                post.lbl1->0.labels@,
                post.lbl1->0.groups@.len(),
                b,
            ) && post.lbl1->0.groups@[b].offset == pre.lbl1->0.groups@[b].offset)
        &&& (post.nli1 is Some <==> pre.nli1 is Some)
        &&& post.nli1 is Some ==> post.nli1->0.section.size == post.nli1->0.payload_len()
            && post.nli1->0.global_ids == pre.nli1->0.global_ids && post.nli1->0.id_count
            == post.nli1->0.global_ids@.len() && post.nli1->0.section == (Section {
            size: post.nli1->0.section.size,
            ..pre.nli1->0.section
        })
        &&& (post.ato1 is Some <==> pre.ato1 is Some)
        &&& post.ato1 is Some ==> post.ato1->0 == (Ato1 {
            section: (Section { size: post.ato1->0.section.size, ..pre.ato1->0.section }),
            ..pre.ato1->0
        }) && post.ato1->0.section.size == post.ato1->0.unknown@.len()
        &&& (post.atr1 is Some <==> pre.atr1 is Some)
        &&& post.atr1 is Some ==> post.atr1->0 == (Atr1 {
            section: (Section { size: post.atr1->0.section.size, ..pre.atr1->0.section }),
            ..pre.atr1->0
        }) && post.atr1->0.section.size == post.atr1->0.unknown@.len()
        &&& (post.tsy1 is Some <==> pre.tsy1 is Some)
        &&& post.tsy1 is Some ==> post.tsy1->0 == (Tsy1 {
            section: (Section { size: post.tsy1->0.section.size, ..pre.tsy1->0.section }),
            ..pre.tsy1->0
        }) && post.tsy1->0.section.size == post.tsy1->0.unknown@.len()
        &&& (post.txt2 is Some <==> pre.txt2 is Some)
        &&& post.txt2 is Some ==> post.txt2->0 == (Txt2 {
            section: (Section { size: post.txt2->0.section.size, ..pre.txt2->0.section }),
            ..pre.txt2->0
        }) && post.txt2->0.section.size == post.txt2->0.payload_len(
            post.header.encoding,
            post.header.endianness,
        )
    }

    /// Restores every derived field to a value consistent with current
    /// content: the header's section count is set from the order list, and
    /// each present section's declared size is recomputed from its
    /// payload. Content itself is untouched.
    #[verifier::rlimit(100)]
    #[verifier::spinoff_prover]
    pub fn update(&mut self)
        requires
            old(self).wf(),
        ensures
            final(self).wf(),
            final(self).header.section_count == final(self).section_order@.len(),
            Msbt::refreshed(*old(self), *final(self)),
    {
        proof {
            reveal(Msbt::sections_wf);
            reveal(Msbt::total_size);
        }
        let ghost m0 = *self;
        if self.lbl1.is_some() {
            let mut l = self.lbl1.take().unwrap();
            l.update_groups();
            proof {
                crate::section::lbl1::lemma_blob_len_nonneg(l.labels@);
                crate::bytes::lemma_plus_padding_bounds(16 + l.payload_len());
            }
            let pl = l.payload_size();
            l.section.size = pl as u32;
            self.lbl1 = Some(l);
        }
        let ghost lbl1_done = self.lbl1;
        if self.nli1.is_some() {
            let mut s = self.nli1.take().unwrap();
            proof {
                crate::bytes::lemma_plus_padding_bounds(16 + s.payload_len());
                reveal(crate::bytes::pad_len);
            }
            let len = s.global_ids.len();
            s.id_count = len as u32;
            s.section.size = if len > 0 {
                ((4 + 8 * (len as u64)) as u32)
            } else {
                0
            };
            self.nli1 = Some(s);
        }
        if self.ato1.is_some() {
            let mut s = self.ato1.take().unwrap();
            proof {
                crate::bytes::lemma_plus_padding_bounds(16 + s.unknown@.len() as int);
            }
            s.section.size = s.unknown.len() as u32;
            self.ato1 = Some(s);
        }
        if self.atr1.is_some() {
            let mut s = self.atr1.take().unwrap();
            proof {
                crate::bytes::lemma_plus_padding_bounds(16 + s.unknown@.len() as int);
            }
            s.section.size = s.unknown.len() as u32;
            self.atr1 = Some(s);
        }
        if self.tsy1.is_some() {
            let mut s = self.tsy1.take().unwrap();
            proof {
                crate::bytes::lemma_plus_padding_bounds(16 + s.unknown@.len() as int);
            }
            s.section.size = s.unknown.len() as u32;
            self.tsy1 = Some(s);
        }
        if self.txt2.is_some() {
            let mut s = self.txt2.take().unwrap();
            proof {
                crate::bytes::lemma_plus_padding_bounds(
                    16 + s.payload_len(self.header.encoding, self.header.endianness),
                );
            }
            let pl = s.payload_size(self.header.encoding, self.header.endianness);
            s.section.size = pl as u32;
            self.txt2 = Some(s);
        }
        let count = self.section_order.len();
        self.header.section_count = count as u16;
        proof {
            assert(self.lbl1 == lbl1_done);
            assert(forall|u: SectionTag|
                #[trigger] self.has_section(u) <==> m0.has_section(u));
            assert(self.num_present() == m0.num_present());
            assert(Msbt::refreshed(m0, *self));
        }
    }

    /// Serializes the whole container: the header with a freshly computed
    /// file size, then every present section in the recorded order, each
    /// padded to a 16-byte file offset with the container's pad byte.
    pub fn write_to(&self) -> (r: Vec<u8>)
        requires
            self.wf(),
        ensures
            r@ == self.spec_bytes(),
            r@.len() % 16 == 0,
    {
        let mut w = MsbtWriter::new();
        w.write_header(self);
        let n = self.section_order.len();
        let mut i: usize = 0;
        while i < n
            invariant
                i <= n,
                n == self.section_order@.len(),
                self.wf(),
                w.out@ == header_bytes(self.header, self.total_size() as u32) + self.blocks(
                    self.section_order@.subrange(0, i as int),
                ),
                w.out@.len() % 16 == 0,
            decreases n - i,
        {
            w.write_section_of(self, self.section_order[i]);
            i = i + 1;
            proof {
                let pre = self.section_order@.subrange(0, i as int);
                assert(pre.drop_last() =~= self.section_order@.subrange(0, i - 1));
                assert(pre.last() == self.section_order@[i - 1]);
            }
        }
        proof {
            assert(self.section_order@.subrange(0, n as int) =~= self.section_order@);
        }
        w.out
    }
}

/// Serializes one container into a growing byte buffer whose length plays
/// the role of the file offset.
#[derive(Debug)]
pub struct MsbtWriter {
    pub out: Vec<u8>,
}

impl MsbtWriter {
    /// A writer with an empty buffer.
    pub fn new() -> (r: MsbtWriter)
        ensures
            r.out@ == Seq::<u8>::empty(),
    {
        MsbtWriter { out: Vec::new() }
    }

    /// Writes the header, substituting the freshly computed total size.
    pub fn write_header(&mut self, m: &Msbt)
        requires
            m.wf(),
            old(self).out@.len() == 0,
        ensures
            final(self).out@ == header_bytes(m.header, m.total_size() as u32),
            final(self).out@.len() % 16 == 0,
    {
        proof {
            reveal(Msbt::sections_wf);
        }
        let size = m.calc_size();
        m.header.write_into(&mut self.out, size as u32);
    }

    /// Writes one section envelope.
    fn write_section(&mut self, e: Endianness, s: &Section)
        requires
            s.wf(),
        ensures
            final(self).out@ == old(self).out@ + section_header_bytes(e, *s),
    {
        s.write_into(&mut self.out, e);
    }

    /// Pads the buffer to the next 16-byte boundary with the pad byte.
    fn write_padding(&mut self, pad: u8)
        ensures
            final(self).out@ == padded_to_16(old(self).out@, pad),
            final(self).out@.len() % 16 == 0,
    {
        pad_to_16(&mut self.out, pad);
    }

    /// Writes the padded block of the section of kind `t`.
    fn write_section_of(&mut self, m: &Msbt, t: SectionTag)
        requires
            m.wf(),
            old(self).out@.len() % 16 == 0,
        ensures
            final(self).out@ == old(self).out@ + m.section_block(t),
            final(self).out@.len() % 16 == 0,
    {
        match t {
            SectionTag::Lbl1 => self.write_lbl1(m),
            SectionTag::Nli1 => self.write_nli1(m),
            SectionTag::Ato1 => self.write_ato1(m),
            SectionTag::Atr1 => self.write_atr1(m),
            SectionTag::Tsy1 => self.write_tsy1(m),
            SectionTag::Txt2 => self.write_txt2(m),
        }
    }

    /// Writes the label table's padded block, if the table is present.
    #[verifier::rlimit(100)]
    fn write_lbl1(&mut self, m: &Msbt)
        requires
            m.wf(),
            old(self).out@.len() % 16 == 0,
        ensures
            final(self).out@ == old(self).out@ + m.section_block(SectionTag::Lbl1),
            final(self).out@.len() % 16 == 0,
    {
        proof {
            reveal(Msbt::section_block);
            reveal(Msbt::sections_wf);
        }
        if let Some(l) = &m.lbl1 {
            proof {
                crate::bytes::lemma_padded_append(
                    self.out@,
                    section_header_bytes(m.header.endianness, l.section) + l.payload(
                        m.header.endianness,
                    ),
                    m.pad_byte,
                );
            }
            self.write_section(m.header.endianness, &l.section);
            write_lbl1_payload(l, &mut self.out, m.header.endianness);
            self.write_padding(m.pad_byte);
        }
    }

    /// Writes the global-ID table's padded block, if the table is present.
    #[verifier::rlimit(100)]
    pub fn write_nli1(&mut self, m: &Msbt)
        requires
            m.wf(),
            old(self).out@.len() % 16 == 0,
        ensures
            final(self).out@ == old(self).out@ + m.section_block(SectionTag::Nli1),
            final(self).out@.len() % 16 == 0,
    {
        proof {
            reveal(Msbt::section_block);
            reveal(Msbt::sections_wf);
        }
        if let Some(s) = &m.nli1 {
            proof {
                crate::bytes::lemma_padded_append(
                    self.out@,
                    section_header_bytes(m.header.endianness, s.section) + s.payload(
                        m.header.endianness,
                    ),
                    m.pad_byte,
                );
            }
            self.write_section(m.header.endianness, &s.section);
            write_nli1_payload(s, &mut self.out, m.header.endianness);
            self.write_padding(m.pad_byte);
        }
    }

    /// Writes the string table's padded block, if the table is present.
    #[verifier::rlimit(100)]
    pub fn write_txt2(&mut self, m: &Msbt)
        requires
            m.wf(),
            old(self).out@.len() % 16 == 0,
        ensures
            final(self).out@ == old(self).out@ + m.section_block(SectionTag::Txt2),
            final(self).out@.len() % 16 == 0,
    {
        proof {
            reveal(Msbt::section_block);
            reveal(Msbt::sections_wf);
        }
        if let Some(s) = &m.txt2 {
            proof {
                crate::bytes::lemma_padded_append(
                    self.out@,
                    section_header_bytes(m.header.endianness, s.section) + s.payload(
                        m.header.encoding,
                        m.header.endianness,
                    ),
                    m.pad_byte,
                );
            }
            self.write_section(m.header.endianness, &s.section);
            write_txt2_payload(s, &mut self.out, m.header.encoding, m.header.endianness);
            self.write_padding(m.pad_byte);
        }
    }

    /// Writes the `ATO1` blob's padded block, if the section is present.
    #[verifier::rlimit(100)]
    pub fn write_ato1(&mut self, m: &Msbt)
        requires
            m.wf(),
            old(self).out@.len() % 16 == 0,
        ensures
            final(self).out@ == old(self).out@ + m.section_block(SectionTag::Ato1),
            final(self).out@.len() % 16 == 0,
    {
        proof {
            reveal(Msbt::section_block);
            reveal(Msbt::sections_wf);
        }
        if let Some(s) = &m.ato1 {
            proof {
                crate::bytes::lemma_padded_append(
                    self.out@,
                    section_header_bytes(m.header.endianness, s.section) + s.payload(),
                    m.pad_byte,
                );
            }
            self.write_section(m.header.endianness, &s.section);
            push_bytes(&mut self.out, &s.unknown);
            self.write_padding(m.pad_byte);
        }
    }

    /// Writes the `ATR1` blob's padded block, if the section is present.
    #[verifier::rlimit(100)]
    pub fn write_atr1(&mut self, m: &Msbt)
        requires
            m.wf(),
            old(self).out@.len() % 16 == 0,
        ensures
            final(self).out@ == old(self).out@ + m.section_block(SectionTag::Atr1),
            final(self).out@.len() % 16 == 0,
    {
        proof {
            reveal(Msbt::section_block);
            reveal(Msbt::sections_wf);
        }
        if let Some(s) = &m.atr1 {
            proof {
                crate::bytes::lemma_padded_append(
                    self.out@,
                    section_header_bytes(m.header.endianness, s.section) + s.payload(),
                    m.pad_byte,
                );
            }
            self.write_section(m.header.endianness, &s.section);
            push_bytes(&mut self.out, &s.unknown);
            self.write_padding(m.pad_byte);
        }
    }

    /// Writes the `TSY1` blob's padded block, if the section is present.
    #[verifier::rlimit(100)]
    pub fn write_tsy1(&mut self, m: &Msbt)
        requires
            m.wf(),
            old(self).out@.len() % 16 == 0,
        ensures
            final(self).out@ == old(self).out@ + m.section_block(SectionTag::Tsy1),
            final(self).out@.len() % 16 == 0,
    {
        proof {
            reveal(Msbt::section_block);
            reveal(Msbt::sections_wf);
        }
        if let Some(s) = &m.tsy1 {
            proof {
                crate::bytes::lemma_padded_append(
                    self.out@,
                    section_header_bytes(m.header.endianness, s.section) + s.payload(),
                    m.pad_byte,
                );
            }
            self.write_section(m.header.endianness, &s.section);
            push_bytes(&mut self.out, &s.unknown);
            self.write_padding(m.pad_byte);
        }
    }
}


/// The label table's padded on-disk extent.
fn lbl1_term_of(l: &Lbl1) -> (r: u64)
    requires
        l.wf(),
    ensures
        r == plus_padding(16 + l.payload_len()),
        r <= 0xFFFF_FFF0,
{
    proof {
        crate::section::lbl1::lemma_blob_len_nonneg(l.labels@);
        crate::bytes::lemma_plus_padding_bounds(16 + l.payload_len());
    }
    Msbt::plus_padding_of(l.payload_size())
}

/// The global-ID table's padded on-disk extent.
fn nli1_term_of(s: &Nli1) -> (r: u64)
    requires
        s.wf(),
    ensures
        r == plus_padding(16 + s.payload_len()),
        r <= 0xFFFF_FFF0,
{
    proof {
        crate::bytes::lemma_plus_padding_bounds(16 + s.payload_len());
    }
    let pl: u64 = if s.section.size > 0 {
        4 + 8 * (s.global_ids.len() as u64)
    } else {
        0
    };
    Msbt::plus_padding_of(pl)
}

/// An opaque blob's padded on-disk extent.
fn blob_term_of(unknown: &Vec<u8>) -> (r: u64)
    requires
        plus_padding(16 + unknown@.len() as int) <= 0xFFFF_FFF0,
    ensures
        r == plus_padding(16 + unknown@.len() as int),
        r <= 0xFFFF_FFF0,
{
    proof {
        crate::bytes::lemma_plus_padding_bounds(16 + unknown@.len() as int);
    }
    Msbt::plus_padding_of(unknown.len() as u64)
}

/// The string table's padded on-disk extent.
fn txt2_term_of(s: &Txt2, enc: Encoding, e: Endianness) -> (r: u64)
    requires
        s.wf(enc, e),
    ensures
        r == plus_padding(16 + s.payload_len(enc, e)),
        r <= 0xFFFF_FFF0,
{
    proof {
        crate::bytes::lemma_plus_padding_bounds(16 + s.payload_len(enc, e));
    }
    Msbt::plus_padding_of(s.payload_size(enc, e))
}


/// Decides that an opaque blob's padded extent fits 32-bit size
/// arithmetic.
fn check_blob_fits(unknown: &Vec<u8>) -> (r: bool)
    ensures
        r ==> plus_padding(16 + unknown@.len() as int) <= 0xFFFF_FFF0,
{
    proof {
        reveal(crate::bytes::pad_len);
    }
    let len = unknown.len() as u64;
    if len > 0xFFFF_FFC0 {
        return false;
    }
    let padded = Msbt::plus_padding_of_wide(16 + len);
    padded <= 0xFFFF_FFF0
}

/// Decides a sufficient condition for the label table's well-formedness.
fn check_lbl1_wf(l: &Lbl1) -> (r: bool)
    ensures
        r ==> l.wf(),
{
    if !(l.section.magic.len() == 4 && l.section.padding.len() == 8) {
        return false;
    }
    let n = l.labels.len();
    if n > 0xFFFF_FFFF {
        return false;
    }
    if n > 0 && l.groups.len() == 0 {
        return false;
    }
    let mut blob: u64 = 0;
    let mut i: usize = 0;
    while i < n
        invariant
            i <= n,
            n == l.labels@.len(),
            n <= 0xFFFF_FFFF,
            forall|q: int| 0 <= q < i ==> l.labels@[q].wf(),
            blob == labels_blob_len(l.labels@.subrange(0, i as int)),
            blob <= 260 * i,
        decreases n - i,
    {
        let name = &l.labels[i].name;
        if name.len() > 255 {
            return false;
        }
        if !check_utf8(name) {
            return false;
        }
        blob = blob + 5 + name.len() as u64;
        i = i + 1;
        proof {
            let pre = l.labels@.subrange(0, i as int);
            assert(pre.drop_last() =~= l.labels@.subrange(0, i - 1));
            assert(pre.last() == l.labels@[i - 1]);
        }
    }
    proof {
        assert(l.labels@.subrange(0, n as int) =~= l.labels@);
        reveal(crate::bytes::pad_len);
    }
    let g = l.groups.len() as u64;
    if g > 0x1FFF_FF00 {
        return false;
    }
    let padded = Msbt::plus_padding_of_wide(16 + 4 + 8 * g + blob);
    padded <= 0xFFFF_FFF0
}

/// Decides a sufficient condition for the global-ID table's
/// well-formedness.
fn check_nli1_wf(s: &Nli1) -> (r: bool)
    ensures
        r ==> s.wf(),
{
    if !(s.section.magic.len() == 4 && s.section.padding.len() == 8) {
        return false;
    }
    let n = s.global_ids.len();
    if n > 0x1FFF_FF00 {
        return false;
    }
    if s.section.size == 0 && n > 0 {
        return false;
    }
    let mut i: usize = 0;
    while n > 0 && i < n - 1
        invariant
            n == s.global_ids@.len(),
            i < n || n == 0,
            forall|p: int, q: int| 0 <= p < q <= i && q < n ==> s.global_ids@[p].0
                < s.global_ids@[q].0,
        decreases n - i,
    {
        if s.global_ids[i].0 >= s.global_ids[i + 1].0 {
            return false;
        }
        i = i + 1;
    }
    proof {
        reveal(crate::bytes::pad_len);
    }
    let pl: u64 = if s.section.size > 0 {
        4 + 8 * (n as u64)
    } else {
        0
    };
    let padded = Msbt::plus_padding_of_wide(16 + pl);
    padded <= 0xFFFF_FFF0
}

/// Decides a sufficient condition for the string table's well-formedness.
fn check_txt2_wf(s: &Txt2, enc: Encoding, e: Endianness) -> (r: bool)
    ensures
        r ==> s.wf(enc, e),
{
    if !(s.section.magic.len() == 4 && s.section.padding.len() == 8) {
        return false;
    }
    let n = s.values.len();
    if n > 0x3FFF_FF00 {
        return false;
    }
    let marker_len: u64 = match enc {
        Encoding::Utf8 => 1,
        Encoding::Utf16 => 2,
    };
    let mut total: u64 = 0;
    let mut i: usize = 0;
    while i < n
        invariant
            i <= n,
            n == s.values@.len(),
            marker_len == (if enc is Utf8 { 1int } else { 2int }),
            forall|p: int, q: int|
                0 <= p < i && 0 <= q < s.values@[p]@.len() ==> s.values@[p]@[q].wf(),
            total == crate::section::txt2::values_len(enc, e, s.values@.subrange(0, i as int)),
            total <= 0xFFFF_FFF0,
        decreases n - i,
    {
        let els = &s.values[i];
        let m = els.len();
        let mut sub: u64 = 0;
        let mut j: usize = 0;
        while j < m
            invariant
                j <= m,
                m == els@.len(),
                els@ == s.values@[i as int]@,
                i < n,
                n == s.values@.len(),
                marker_len == (if enc is Utf8 { 1int } else { 2int }),
                forall|q: int| 0 <= q < j ==> els@[q].wf(),
                sub == elems_bytes(enc, e, els@.subrange(0, j as int)).len(),
                sub <= 0xFFFF_FFF0,
            decreases m - j,
        {
            let el_len: u64 = match &els[j] {
                TextElement::Literal(b) => {
                    if b.len() > 0xFFFF_FFF0 {
                        return false;
                    }
                    b.len() as u64
                },
                TextElement::Directive { params, .. } => {
                    if params.len() > 0xFFFF {
                        return false;
                    }
                    marker_len + 6 + params.len() as u64
                },
                TextElement::Close { .. } => marker_len + 4,
            };
            proof {
                let pre = els@.subrange(0, j + 1);
                assert(pre.drop_last() =~= els@.subrange(0, j as int));
                assert(pre.last() == els@[j as int]);
                assert(el_len == crate::section::txt2::elem_bytes(enc, e, els@[j as int]).len());
            }
            sub = sub + el_len;
            if sub > 0xFFFF_FFF0 {
                return false;
            }
            j = j + 1;
        }
        proof {
            assert(els@.subrange(0, m as int) =~= els@);
            let pre = s.values@.subrange(0, i + 1);
            assert(pre.drop_last() =~= s.values@.subrange(0, i as int));
            assert(pre.last() == s.values@[i as int]);
        }
        total = total + sub;
        if total > 0xFFFF_FFF0 {
            return false;
        }
        i = i + 1;
    }
    proof {
        assert(s.values@.subrange(0, n as int) =~= s.values@);
        reveal(crate::bytes::pad_len);
    }
    let padded = Msbt::plus_padding_of_wide(16 + 4 + 4 * (n as u64) + total);
    padded <= 0xFFFF_FFF0
}

/// The global-ID table loaded from the `n` stored (index, ID) pairs that
/// begin at `pos`: each pair inserted ascending by its ID, a later pair
/// with a duplicate ID replacing the earlier entry.
pub open spec fn loaded_gids(b: Seq<u8>, e: Endianness, pos: int, n: int) -> Seq<(u32, u32)>
    decreases n,
{
    if n <= 0 {
        Seq::empty()
    } else {
        spec_insert_gid(
            loaded_gids(b, e, pos, n - 1),
            dec32(e, b.subrange(pos + 8 * (n - 1) + 4, pos + 8 * (n - 1) + 8)) as u32,
            dec32(e, b.subrange(pos + 8 * (n - 1), pos + 8 * (n - 1) + 4)) as u32,
        )
    }
}

/// Whether the 4 bytes at `pos` spell one of the six recognized section
/// tags.
pub open spec fn known_tag(b: Seq<u8>, pos: int) -> bool {
    ||| b.subrange(pos, pos + 4) == seq![0x4Cu8, 0x42u8, 0x4Cu8, 0x31u8]
    ||| b.subrange(pos, pos + 4) == seq![0x41u8, 0x54u8, 0x52u8, 0x31u8]
    ||| b.subrange(pos, pos + 4) == seq![0x41u8, 0x54u8, 0x4Fu8, 0x31u8]
    ||| b.subrange(pos, pos + 4) == seq![0x54u8, 0x53u8, 0x59u8, 0x31u8]
    ||| b.subrange(pos, pos + 4) == seq![0x54u8, 0x58u8, 0x54u8, 0x32u8]
    ||| b.subrange(pos, pos + 4) == seq![0x4Eu8, 0x4Cu8, 0x49u8, 0x31u8]
}

/// Parses one container out of a byte buffer; `pos` is the read cursor.
#[derive(Debug)]
pub struct MsbtReader {
    pub data: Vec<u8>,
    pub pos: usize,
    pub msbt: Msbt,
    pub got_pad: bool,
}

impl MsbtReader {
    /// The cursor stays inside the input, the input and the container under
    /// construction are untouched, and the cursor never moves backwards.
    pub open spec fn keeps(self, o: MsbtReader) -> bool {
        &&& self.data == o.data
        &&& self.msbt == o.msbt
        &&& self.got_pad == o.got_pad
        &&& o.pos <= self.pos <= self.data@.len()
    }

    /// Reads one section envelope and advances past its 16 bytes.
    pub fn read_section(&mut self) -> (r: Result<Section, Error>)
        requires
            old(self).pos <= old(self).data@.len(),
        ensures
            final(self).keeps(*old(self)),
            r is Ok <==> old(self).pos + 16 <= old(self).data@.len(),
            r is Err ==> r->Err_0 == Error::Eof && final(self).pos == old(self).pos,
            r is Ok ==> r->Ok_0.wf() && final(self).pos == old(self).pos + 16,
            r is Ok ==> final(self).data@.subrange(old(self).pos as int, old(self).pos + 16)
                == section_header_bytes(old(self).msbt.header.endianness, r->Ok_0),
            r is Ok ==> r->Ok_0.magic@ == final(self).data@.subrange(
                old(self).pos as int,
                old(self).pos + 4,
            ) && r->Ok_0.size == stored_size(
                final(self).data@,
                old(self).pos as int,
                old(self).msbt.header.endianness,
            ),
    {
        let n = self.data.len();
        let s = match parse_section_header(&self.data, self.pos, self.msbt.header.endianness) {
            Ok(s) => s,
            Err(e) => {
                return Err(e);
            },
        };
        self.pos = self.pos + 16;
        Ok(s)
    }

    /// Reads one bucket record: label count, then the bucket's metadata
    /// offset.
    pub fn read_group(&mut self) -> (r: Result<Group, Error>)
        requires
            old(self).pos <= old(self).data@.len(),
        ensures
            final(self).keeps(*old(self)),
            r is Ok <==> old(self).pos + 8 <= old(self).data@.len(),
            r is Err ==> r->Err_0 == Error::Eof && final(self).pos == old(self).pos,
            r is Ok ==> final(self).pos == old(self).pos + 8,
            r is Ok ==> r->Ok_0.label_count == dec32(
                old(self).msbt.header.endianness,
                final(self).data@.subrange(old(self).pos as int, old(self).pos + 4),
            ) && r->Ok_0.offset == dec32(
                old(self).msbt.header.endianness,
                final(self).data@.subrange(old(self).pos + 4, old(self).pos + 8),
            ),
    {
        let n = self.data.len();
        if n - self.pos < 8 {
            return Err(Error::Eof);
        }
        let label_count = get32(&self.data, self.pos, self.msbt.header.endianness);
        let offset = get32(&self.data, self.pos + 4, self.msbt.header.endianness);
        self.pos = self.pos + 8;
        Ok(Group { label_count, offset })
    }

    /// Reads an opaque blob of `size` bytes at the cursor.
    fn read_blob(&mut self, size: u32) -> (r: Result<Vec<u8>, Error>)
        requires
            old(self).pos <= old(self).data@.len(),
        ensures
            final(self).keeps(*old(self)),
            r is Ok <==> size <= 0xFFFF_FFC0 && old(self).pos + size <= old(self).data@.len(),
            r is Err ==> (if size > 0xFFFF_FFC0 {
                r->Err_0 == Error::TooLarge
            } else {
                r->Err_0 == Error::Eof
            }) && final(self).pos == old(self).pos,
            r is Ok ==> r->Ok_0@.len() == size && final(self).pos == old(self).pos + size
                && r->Ok_0@ == final(self).data@.subrange(
                old(self).pos as int,
                old(self).pos + size,
            ),
    {
        if size > 0xFFFF_FFC0 {
            return Err(Error::TooLarge);
        }
        let n = self.data.len();
        if ((n - self.pos) as u64) < size as u64 {
            return Err(Error::Eof);
        }
        let bytes = crate::bytes::copy_range(&self.data, self.pos, self.pos + size as usize);
        self.pos = self.pos + size as usize;
        Ok(bytes)
    }

    /// Reads the `ATR1` section: its envelope and its verbatim payload.
    pub fn read_atr1(&mut self) -> (r: Result<Atr1, Error>)
        requires
            old(self).pos <= old(self).data@.len(),
        ensures
            final(self).keeps(*old(self)),
            r is Ok <==> old(self).pos + 16 <= old(self).data@.len() && stored_size(
                old(self).data@,
                old(self).pos as int,
                old(self).msbt.header.endianness,
            ) <= 0xFFFF_FFC0 && old(self).pos + 16 + stored_size(
                old(self).data@,
                old(self).pos as int,
                old(self).msbt.header.endianness,
            ) <= old(self).data@.len(),
            r is Ok ==> r->Ok_0.wf() && r->Ok_0.section.size == stored_size(
                old(self).data@,
                old(self).pos as int,
                old(self).msbt.header.endianness,
            ) && r->Ok_0.unknown@.len() == r->Ok_0.section.size && final(self).pos == old(
                self,
            ).pos + 16 + r->Ok_0.section.size,
            r is Ok ==> section_header_bytes(
                old(self).msbt.header.endianness,
                r->Ok_0.section,
            ) + r->Ok_0.payload() == final(self).data@.subrange(
                old(self).pos as int,
                final(self).pos as int,
            ),
    {
        let ghost pos0 = self.pos as int;
        let ghost e0 = self.msbt.header.endianness;
        let section = match self.read_section() {
            Ok(s) => s,
            Err(e) => {
                return Err(e);
            },
        };
        let unknown = match self.read_blob(section.size) {
            Ok(b) => b,
            Err(e) => {
                return Err(e);
            },
        };
        proof {
            crate::bytes::lemma_plus_padding_bounds(16 + unknown@.len() as int);
            assert(self.data@.subrange(pos0, self.pos as int) =~= self.data@.subrange(
                pos0,
                pos0 + 16,
            ) + self.data@.subrange(pos0 + 16, self.pos as int));
            assert(section_header_bytes(e0, section) + unknown@ =~= self.data@.subrange(
                pos0,
                self.pos as int,
            ));
        }
        Ok(Atr1 { section, unknown })
    }

    /// Reads the `ATO1` section: its envelope and its verbatim payload.
    pub fn read_ato1(&mut self) -> (r: Result<Ato1, Error>)
        requires
            old(self).pos <= old(self).data@.len(),
        ensures
            final(self).keeps(*old(self)),
            r is Ok <==> old(self).pos + 16 <= old(self).data@.len() && stored_size(
                old(self).data@,
                old(self).pos as int,
                old(self).msbt.header.endianness,
            ) <= 0xFFFF_FFC0 && old(self).pos + 16 + stored_size(
                old(self).data@,
                old(self).pos as int,
                old(self).msbt.header.endianness,
            ) <= old(self).data@.len(),
            r is Ok ==> r->Ok_0.wf() && r->Ok_0.section.size == stored_size(
                old(self).data@,
                old(self).pos as int,
                old(self).msbt.header.endianness,
            ) && r->Ok_0.unknown@.len() == r->Ok_0.section.size && final(self).pos == old(
                self,
            ).pos + 16 + r->Ok_0.section.size,
            r is Ok ==> section_header_bytes(
                old(self).msbt.header.endianness,
                r->Ok_0.section,
            ) + r->Ok_0.payload() == final(self).data@.subrange(
                old(self).pos as int,
                final(self).pos as int,
            ),
    {
        let ghost pos0 = self.pos as int;
        let ghost e0 = self.msbt.header.endianness;
        let section = match self.read_section() {
            Ok(s) => s,
            Err(e) => {
                return Err(e);
            },
        };
        let unknown = match self.read_blob(section.size) {
            Ok(b) => b,
            Err(e) => {
                return Err(e);
            },
        };
        proof {
            crate::bytes::lemma_plus_padding_bounds(16 + unknown@.len() as int);
            assert(self.data@.subrange(pos0, self.pos as int) =~= self.data@.subrange(
                pos0,
                pos0 + 16,
            ) + self.data@.subrange(pos0 + 16, self.pos as int));
            assert(section_header_bytes(e0, section) + unknown@ =~= self.data@.subrange(
                pos0,
                self.pos as int,
            ));
        }
        Ok(Ato1 { section, unknown })
    }

    /// Reads the `TSY1` section: its envelope and its verbatim payload.
    pub fn read_tsy1(&mut self) -> (r: Result<Tsy1, Error>)
        requires
            old(self).pos <= old(self).data@.len(),
        ensures
            final(self).keeps(*old(self)),
            r is Ok <==> old(self).pos + 16 <= old(self).data@.len() && stored_size(
                old(self).data@,
                old(self).pos as int,
                old(self).msbt.header.endianness,
            ) <= 0xFFFF_FFC0 && old(self).pos + 16 + stored_size(
                old(self).data@,
                old(self).pos as int,
                old(self).msbt.header.endianness,
            ) <= old(self).data@.len(),
            r is Ok ==> r->Ok_0.wf() && r->Ok_0.section.size == stored_size(
                old(self).data@,
                old(self).pos as int,
                old(self).msbt.header.endianness,
            ) && r->Ok_0.unknown@.len() == r->Ok_0.section.size && final(self).pos == old(
                self,
            ).pos + 16 + r->Ok_0.section.size,
            r is Ok ==> section_header_bytes(
                old(self).msbt.header.endianness,
                r->Ok_0.section,
            ) + r->Ok_0.payload() == final(self).data@.subrange(
                old(self).pos as int,
                final(self).pos as int,
            ),
    {
        let ghost pos0 = self.pos as int;
        let ghost e0 = self.msbt.header.endianness;
        let section = match self.read_section() {
            Ok(s) => s,
            Err(e) => {
                return Err(e);
            },
        };
        let unknown = match self.read_blob(section.size) {
            Ok(b) => b,
            Err(e) => {
                return Err(e);
            },
        };
        proof {
            crate::bytes::lemma_plus_padding_bounds(16 + unknown@.len() as int);
            assert(self.data@.subrange(pos0, self.pos as int) =~= self.data@.subrange(
                pos0,
                pos0 + 16,
            ) + self.data@.subrange(pos0 + 16, self.pos as int));
            assert(section_header_bytes(e0, section) + unknown@ =~= self.data@.subrange(
                pos0,
                self.pos as int,
            ));
        }
        Ok(Tsy1 { section, unknown })
    }

    /// Reads the global-ID table: a count and that many (index, ID) pairs,
    /// loaded into ascending-ID order; a zero declared size means no
    /// entries and no count field.
    pub fn read_nli1(&mut self) -> (r: Result<Nli1, Error>)
        requires
            old(self).pos <= old(self).data@.len(),
        ensures
            final(self).keeps(*old(self)),
            r is Ok ==> r->Ok_0.wf() && final(self).pos > old(self).pos,
            r is Ok ==> r->Ok_0.section.size == stored_size(
                old(self).data@,
                old(self).pos as int,
                old(self).msbt.header.endianness,
            ),
            r is Ok && r->Ok_0.section.size == 0 ==> r->Ok_0.id_count == 0
                && r->Ok_0.global_ids@.len() == 0 && final(self).pos == old(self).pos + 16,
            r is Ok && r->Ok_0.section.size > 0 ==> r->Ok_0.id_count == dec32(
                old(self).msbt.header.endianness,
                old(self).data@.subrange(old(self).pos + 16, old(self).pos + 20),
            ) && r->Ok_0.global_ids@.len() <= r->Ok_0.id_count && final(self).pos == old(
                self,
            ).pos + 20 + 8 * r->Ok_0.id_count,
            r is Ok && r->Ok_0.section.size > 0 ==> r->Ok_0.global_ids@ == loaded_gids(
                old(self).data@,
                old(self).msbt.header.endianness,
                old(self).pos + 20,
                r->Ok_0.id_count as int,
            ),
    {
        let e = self.msbt.header.endianness;
        let section = match self.read_section() {
            Ok(s) => s,
            Err(err) => {
                return Err(err);
            },
        };
        let mut global_ids: Vec<(u32, u32)> = Vec::new();
        let mut id_count: u32 = 0;
        if section.size > 0 {
            let n = self.data.len();
            if n - self.pos < 4 {
                return Err(Error::Eof);
            }
            id_count = get32(&self.data, self.pos, e);
            self.pos = self.pos + 4;
            if id_count > 0x1FFF_FF00 {
                return Err(Error::TooLarge);
            }
            if (((n - self.pos) as u64) / 8) < id_count as u64 {
                return Err(Error::Eof);
            }
            let mut i: u32 = 0;
            while i < id_count
                invariant
                    i <= id_count,
                    id_count <= 0x1FFF_FF00,
                    crate::section::nli1::sorted_by_id(global_ids@),
                    global_ids@.len() <= i,
                    e == old(self).msbt.header.endianness,
                    self.pos == old(self).pos + 20 + 8 * i,
                    global_ids@ == loaded_gids(self.data@, e, old(self).pos + 20, i as int),
                    self.pos + 8 * ((id_count - i) as int) <= self.data@.len(),
                    self.data == old(self).data,
                    self.msbt == old(self).msbt,
                    self.got_pad == old(self).got_pad,
                    old(self).pos + 16 <= self.pos,
                decreases id_count - i,
            {
                let n = self.data.len();
                let val = get32(&self.data, self.pos, e);
                let key = get32(&self.data, self.pos + 4, e);
                self.pos = self.pos + 8;
                global_ids = insert_global_id(global_ids, key, val);
                i = i + 1;
            }
        }
        proof {
            crate::bytes::lemma_plus_padding_bounds(
                16 + (if section.size > 0 {
                    4 + 8 * global_ids@.len() as int
                } else {
                    0int
                }),
            );
        }
        Ok(Nli1 { section, id_count, global_ids })
    }

    /// Reads the string table: a count, the offset array, then each
    /// entry's bytes (delimited by consecutive offsets, the declared size
    /// closing the last), each lexed into text elements.
    #[verifier::rlimit(100)]
    pub fn read_txt2(&mut self) -> (r: Result<Txt2, Error>)
        requires
            old(self).pos <= old(self).data@.len(),
        ensures
            final(self).keeps(*old(self)),
            r is Ok ==> r->Ok_0.wf(
                old(self).msbt.header.encoding,
                old(self).msbt.header.endianness,
            ) && final(self).pos > old(self).pos,
            r is Ok ==> r->Ok_0.section.size == stored_size(
                old(self).data@,
                old(self).pos as int,
                old(self).msbt.header.endianness,
            ) && r->Ok_0.values@.len() == dec32(
                old(self).msbt.header.endianness,
                old(self).data@.subrange(old(self).pos + 16, old(self).pos + 20),
            ),
            r is Ok ==> (forall|i: int|
                0 <= i < r->Ok_0.values@.len() ==> elems_bytes(
                    old(self).msbt.header.encoding,
                    old(self).msbt.header.endianness,
                    (#[trigger] r->Ok_0.values@[i])@,
                ) == old(self).data@.subrange(
                    stored_entry_start(
                        old(self).data@,
                        old(self).msbt.header.endianness,
                        old(self).pos + 16,
                        r->Ok_0.section.size as int,
                        r->Ok_0.values@.len() as int,
                        i,
                    ),
                    stored_entry_start(
                        old(self).data@,
                        old(self).msbt.header.endianness,
                        old(self).pos + 16,
                        r->Ok_0.section.size as int,
                        r->Ok_0.values@.len() as int,
                        i,
                    ) + stored_entry_len(
                        old(self).data@,
                        old(self).msbt.header.endianness,
                        old(self).pos + 16,
                        r->Ok_0.section.size as int,
                        r->Ok_0.values@.len() as int,
                        i,
                    ),
                )),
            r is Ok ==> final(self).pos == stored_entry_start(
                old(self).data@,
                old(self).msbt.header.endianness,
                old(self).pos + 16,
                r->Ok_0.section.size as int,
                r->Ok_0.values@.len() as int,
                r->Ok_0.values@.len() as int,
            ),
    {
        let e = self.msbt.header.endianness;
        let enc = self.msbt.header.encoding;
        let ghost pstart = self.pos + 16;
        let section = match self.read_section() {
            Ok(s) => s,
            Err(err) => {
                return Err(err);
            },
        };
        let n = self.data.len();
        if n - self.pos < 4 {
            return Err(Error::Eof);
        }
        let count = get32(&self.data, self.pos, e);
        self.pos = self.pos + 4;
        if count > 0x3FFF_FF00 {
            return Err(Error::TooLarge);
        }
        if (((n - self.pos) as u64) / 4) < count as u64 {
            return Err(Error::Eof);
        }
        let count = count as usize;
        let mut offsets: Vec<u32> = Vec::new();
        let mut i: usize = 0;
        while i < count
            invariant
                i <= count,
                offsets@.len() == i,
                e == old(self).msbt.header.endianness,
                self.pos == pstart + 4 + 4 * i,
                self.pos + 4 * ((count - i) as int) <= self.data@.len(),
                forall|k: int|
                    0 <= k < i ==> offsets@[k] == stored_offset(self.data@, e, pstart, k),
                self.data == old(self).data,
                self.msbt == old(self).msbt,
                self.got_pad == old(self).got_pad,
                old(self).pos + 16 <= self.pos,
            decreases count - i,
        {
            let n = self.data.len();
            let off = get32(&self.data, self.pos, e);
            self.pos = self.pos + 4;
            offsets.push(off);
            i = i + 1;
        }
        let mut values: Vec<Vec<TextElement>> = Vec::new();
        let strings_start = self.pos;
        let ghost strings_base = strings_start as int;
        let mut i: usize = 0;
        while i < count
            invariant
                i <= count,
                count == offsets@.len(),
                values@.len() == i,
                e == old(self).msbt.header.endianness,
                enc == old(self).msbt.header.encoding,
                strings_base == pstart + 4 + 4 * count,
                section.size == stored_size(self.data@, pstart - 16, e),
                forall|k: int|
                    0 <= k < count ==> offsets@[k] == stored_offset(self.data@, e, pstart, k),
                forall|p: int, q: int|
                    0 <= p < values@.len() && 0 <= q < values@[p]@.len() ==> values@[p]@[q].wf(),
                crate::section::txt2::values_len(enc, e, values@) == self.pos - strings_base,
                self.pos == stored_entry_start(
                    self.data@,
                    e,
                    pstart,
                    section.size as int,
                    count as int,
                    i as int,
                ),
                forall|k: int|
                    0 <= k < i ==> elems_bytes(enc, e, (#[trigger] values@[k])@)
                        == self.data@.subrange(
                        stored_entry_start(
                            self.data@,
                            e,
                            pstart,
                            section.size as int,
                            count as int,
                            k,
                        ),
                        stored_entry_start(
                            self.data@,
                            e,
                            pstart,
                            section.size as int,
                            count as int,
                            k,
                        ) + stored_entry_len(
                            self.data@,
                            e,
                            pstart,
                            section.size as int,
                            count as int,
                            k,
                        ),
                    ),
                strings_base <= self.pos,
                self.pos <= self.data@.len(),
                self.data == old(self).data,
                self.msbt == old(self).msbt,
                self.got_pad == old(self).got_pad,
                old(self).pos + 16 <= self.pos,
            decreases count - i,
        {
            let next_end: u32 = if i == count - 1 {
                section.size
            } else {
                offsets[i + 1]
            };
            let off = offsets[i];
            if next_end < off {
                return Err(Error::InvalidStringOffsets);
            }
            let str_len = (next_end - off) as usize;
            let n = self.data.len();
            if n - self.pos < str_len {
                return Err(Error::Eof);
            }
            proof {
                assert(str_len == stored_entry_len(
                    self.data@,
                    e,
                    pstart,
                    section.size as int,
                    count as int,
                    i as int,
                ));
            }
            let elems = parse_elements(&self.data, self.pos, self.pos + str_len, enc, e);
            let ghost values_pre = values@;
            values.push(elems);
            self.pos = self.pos + str_len;
            i = i + 1;
            proof {
                assert(values@.drop_last() =~= values_pre);
                assert(crate::section::txt2::values_len(enc, e, values@) == self.pos
                    - strings_base);
            }
        }
        let t = Txt2 { section, values };
        let total: u64 = ((self.pos - strings_start) as u64);
        if total > 0xFFFF_FFF0 {
            return Err(Error::TooLarge);
        }
        let padded = Msbt::plus_padding_of_wide(16 + 4 + 4 * (count as u64) + total);
        if padded > 0xFFFF_FFF0 {
            return Err(Error::TooLarge);
        }
        Ok(t)
    }

    /// Reads the label table: bucket count, bucket records, then every
    /// bucket's labels, each stored at its explicit index. A label index
    /// out of range or assigned twice is refused, so a parsed table has
    /// every index in `[0, total)` populated exactly once.
    #[verifier::rlimit(100)]
    #[verifier::spinoff_prover]
    pub fn read_lbl1(&mut self) -> (r: Result<Lbl1, Error>)
        requires
            old(self).pos <= old(self).data@.len(),
        ensures
            final(self).keeps(*old(self)),
            r is Ok ==> r->Ok_0.wf() && final(self).pos > old(self).pos,
            r is Ok ==> r->Ok_0.labels@.len() == sum_label_counts(r->Ok_0.groups@),
            old(self).pos + 16 <= old(self).data@.len() && old(self).data@.subrange(
                old(self).pos as int,
                old(self).pos + 4,
            ) != seq![0x4Cu8, 0x42u8, 0x4Cu8, 0x31u8] ==> r == Err::<Lbl1, Error>(
                Error::InvalidMagic,
            ),
            r is Ok ==> r->Ok_0.groups@.len() == dec32(
                old(self).msbt.header.endianness,
                old(self).data@.subrange(old(self).pos + 16, old(self).pos + 20),
            ) && (forall|k: int|
                0 <= k < r->Ok_0.groups@.len() ==> (#[trigger] r->Ok_0.groups@[k]).label_count
                    == dec32(
                    old(self).msbt.header.endianness,
                    old(self).data@.subrange(old(self).pos + 20 + 8 * k, old(self).pos + 24 + 8 * k),
                ) && r->Ok_0.groups@[k].offset == dec32(
                    old(self).msbt.header.endianness,
                    old(self).data@.subrange(old(self).pos + 24 + 8 * k, old(self).pos + 28 + 8 * k),
                )),
            r is Ok ==> (forall|k: int|
                0 <= k < r->Ok_0.labels@.len() ==> {
                    let p = #[trigger] label_record_start(
                        old(self).data@,
                        old(self).pos + 20 + 8 * r->Ok_0.groups@.len(),
                        k,
                    );
                    &&& 0 <= label_record_index(old(self).data@, old(self).msbt.header.endianness, p)
                        < r->Ok_0.labels@.len()
                    &&& r->Ok_0.labels@[label_record_index(
                        old(self).data@,
                        old(self).msbt.header.endianness,
                        p,
                    )].name@ == label_record_name(old(self).data@, p)
                }),
            r is Ok ==> (forall|k1: int, k2: int|
                0 <= k1 < k2 < r->Ok_0.labels@.len() ==> label_record_index(
                    old(self).data@,
                    old(self).msbt.header.endianness,
                    #[trigger] label_record_start(
                        old(self).data@,
                        old(self).pos + 20 + 8 * r->Ok_0.groups@.len(),
                        k1,
                    ),
                ) != label_record_index(
                    old(self).data@,
                    old(self).msbt.header.endianness,
                    #[trigger] label_record_start(
                        old(self).data@,
                        old(self).pos + 20 + 8 * r->Ok_0.groups@.len(),
                        k2,
                    ),
                )),
            r is Ok ==> final(self).pos == label_record_start(
                old(self).data@,
                old(self).pos + 20 + 8 * r->Ok_0.groups@.len(),
                r->Ok_0.labels@.len() as int,
            ),
            r is Ok ==> section_header_bytes(
                old(self).msbt.header.endianness,
                r->Ok_0.section,
            ) == old(self).data@.subrange(old(self).pos as int, old(self).pos + 16),
            r == Err::<Lbl1, Error>(Error::InvalidUtf8) ==> exists|k: int|
                0 <= k && !is_utf8(
                    label_record_name(
                        old(self).data@,
                        #[trigger] label_record_start(
                            old(self).data@,
                            old(self).pos + 20 + 8 * dec32(
                                old(self).msbt.header.endianness,
                                old(self).data@.subrange(old(self).pos + 16, old(self).pos + 20),
                            ),
                            k,
                        ),
                    ),
                ),
    {
        let e = self.msbt.header.endianness;
        let section = match self.read_section() {
            Ok(s) => s,
            Err(err) => {
                return Err(err);
            },
        };
        let m = &section.magic;
        let magic_ok = m[0] == 0x4C && m[1] == 0x42 && m[2] == 0x4C && m[3] == 0x31;
        proof {
            assert(magic_ok <==> section.magic@ =~= seq![0x4Cu8, 0x42u8, 0x4Cu8, 0x31u8]);
        }
        if !magic_ok {
            return Err(Error::InvalidMagic);
        }
        let n = self.data.len();
        if n - self.pos < 4 {
            return Err(Error::Eof);
        }
        let group_count = get32(&self.data, self.pos, e);
        self.pos = self.pos + 4;
        if (((n - self.pos) as u64) / 8) < group_count as u64 {
            return Err(Error::Eof);
        }
        let mut groups: Vec<Group> = Vec::new();
        let mut total: u64 = 0;
        let mut gi: u32 = 0;
        while gi < group_count
            invariant
                gi <= group_count,
                groups@.len() == gi,
                e == old(self).msbt.header.endianness,
                old(self).data@.subrange(old(self).pos as int, old(self).pos + 4) == seq![
                    0x4Cu8,
                    0x42u8,
                    0x4Cu8,
                    0x31u8,
                ],
                total == sum_label_counts(groups@),
                total <= gi as int * 0xFFFF_FFFF,
                self.pos == old(self).pos + 20 + 8 * gi,
                self.pos + 8 * ((group_count - gi) as int) <= self.data@.len(),
                forall|k: int|
                    0 <= k < gi ==> (#[trigger] groups@[k]).label_count == dec32(
                        e,
                        self.data@.subrange(old(self).pos + 20 + 8 * k, old(self).pos + 24 + 8 * k),
                    ) && groups@[k].offset == dec32(
                        e,
                        self.data@.subrange(old(self).pos + 24 + 8 * k, old(self).pos + 28 + 8 * k),
                    ),
                self.data == old(self).data,
                self.msbt == old(self).msbt,
                self.got_pad == old(self).got_pad,
                old(self).pos + 16 <= self.pos,
            decreases group_count - gi,
        {
            let g = match self.read_group() {
                Ok(g) => g,
                Err(err) => {
                    return Err(err);
                },
            };
            let ghost groups_pre = groups@;
            groups.push(g);
            total = total + g.label_count as u64;
            gi = gi + 1;
            proof {
                assert(groups@.drop_last() =~= groups_pre);
            }
        }
        if total > 0xFFFF_FFFF {
            return Err(Error::TooLarge);
        }
        let n = self.data.len();
        if (((n - self.pos) as u64) / 5) < total {
            return Err(Error::Eof);
        }
        let total = total as usize;
        let mut labels: Vec<Label> = Vec::new();
        let mut seen: Vec<bool> = Vec::new();
        let mut i: usize = 0;
        while i < total
            invariant
                i <= total,
                labels@.len() == i,
                seen@.len() == i,
                forall|q: int| 0 <= q < i ==> labels@[q].wf(),
                forall|q: int| 0 <= q < i ==> !(#[trigger] seen@[q]),
            decreases total - i,
        {
            labels.push(Label { name: Vec::new() });
            seen.push(false);
            i = i + 1;
        }
        let ghost rbase = self.pos as int;
        proof {
            assert(rbase == old(self).pos + 20 + 8 * dec32(
                e,
                self.data@.subrange(old(self).pos + 16, old(self).pos + 20),
            ));
        }
        let ghost mut processed: int = 0;
        let mut gi: usize = 0;
        let g_len = groups.len();
        while gi < g_len
            invariant
                gi <= g_len,
                g_len == groups@.len(),
                labels@.len() == total,
                old(self).data@.subrange(old(self).pos as int, old(self).pos + 4) == seq![
                    0x4Cu8,
                    0x42u8,
                    0x4Cu8,
                    0x31u8,
                ],
                seen@.len() == total,
                e == old(self).msbt.header.endianness,
                forall|q: int| 0 <= q < total ==> labels@[q].wf(),
                processed == sum_label_counts(groups@.subrange(0, gi as int)),
                rbase == old(self).pos + 20 + 8 * dec32(
                    e,
                    old(self).data@.subrange(old(self).pos + 16, old(self).pos + 20),
                ),
                self.pos == label_record_start(self.data@, rbase, processed),
                0 <= processed,
                forall|k: int|
                    0 <= k < processed ==> ({
                        let p = #[trigger] label_record_start(self.data@, rbase, k);
                        &&& 0 <= label_record_index(self.data@, e, p) < total
                        &&& seen@[label_record_index(self.data@, e, p)]
                        &&& labels@[label_record_index(self.data@, e, p)].name@
                            == label_record_name(self.data@, p)
                    }),
                forall|idx: int|
                    0 <= idx < total && #[trigger] seen@[idx] ==> exists|k: int|
                        0 <= k < processed && label_record_index(
                            self.data@,
                            e,
                            #[trigger] label_record_start(self.data@, rbase, k),
                        ) == idx,
                forall|k1: int, k2: int|
                    0 <= k1 < k2 < processed ==> label_record_index(
                        self.data@,
                        e,
                        #[trigger] label_record_start(self.data@, rbase, k1),
                    ) != label_record_index(
                        self.data@,
                        e,
                        #[trigger] label_record_start(self.data@, rbase, k2),
                    ),
                self.pos <= self.data@.len(),
                self.data == old(self).data,
                self.msbt == old(self).msbt,
                self.got_pad == old(self).got_pad,
                old(self).pos + 16 <= self.pos,
            decreases g_len - gi,
        {
            let count = groups[gi].label_count;
            let ghost processed0 = processed;
            let mut c: u32 = 0;
            while c < count
                invariant
                    c <= count,
                    labels@.len() == total,
                    seen@.len() == total,
                    old(self).data@.subrange(old(self).pos as int, old(self).pos + 4) == seq![
                    0x4Cu8,
                    0x42u8,
                    0x4Cu8,
                    0x31u8,
                ],
                    e == old(self).msbt.header.endianness,
                    forall|q: int| 0 <= q < total ==> labels@[q].wf(),
                    processed == processed0 + c,
                    0 <= processed0,
                    rbase == old(self).pos + 20 + 8 * dec32(
                        e,
                        old(self).data@.subrange(old(self).pos + 16, old(self).pos + 20),
                    ),
                    self.pos == label_record_start(self.data@, rbase, processed),
                    forall|k: int|
                        0 <= k < processed ==> ({
                            let p = #[trigger] label_record_start(self.data@, rbase, k);
                            &&& 0 <= label_record_index(self.data@, e, p) < total
                            &&& seen@[label_record_index(self.data@, e, p)]
                            &&& labels@[label_record_index(self.data@, e, p)].name@
                                == label_record_name(self.data@, p)
                        }),
                    forall|idx: int|
                        0 <= idx < total && #[trigger] seen@[idx] ==> exists|k: int|
                            0 <= k < processed && label_record_index(
                                self.data@,
                                e,
                                #[trigger] label_record_start(self.data@, rbase, k),
                            ) == idx,
                        forall|k1: int, k2: int|
                        0 <= k1 < k2 < processed ==> label_record_index(
                            self.data@,
                            e,
                            #[trigger] label_record_start(self.data@, rbase, k1),
                        ) != label_record_index(
                            self.data@,
                            e,
                            #[trigger] label_record_start(self.data@, rbase, k2),
                        ),
                    self.pos <= self.data@.len(),
                    self.data == old(self).data,
                    self.msbt == old(self).msbt,
                    self.got_pad == old(self).got_pad,
                    old(self).pos + 16 <= self.pos,
                decreases count - c,
            {
                let n = self.data.len();
                if n - self.pos < 1 {
                    return Err(Error::Eof);
                }
                let name_len = self.data[self.pos] as usize;
                if n - self.pos - 1 < name_len + 4 {
                    return Err(Error::Eof);
                }
                let name = crate::bytes::copy_range(
                    &self.data,
                    self.pos + 1,
                    self.pos + 1 + name_len,
                );
                if !check_utf8(&name) {
                    proof {
                        assert(label_record_name(
                            self.data@,
                            label_record_start(self.data@, rbase, processed),
                        ) =~= name@);
                        let ghost base_expr = old(self).pos + 20 + 8 * dec32(
                            e,
                            old(self).data@.subrange(old(self).pos + 16, old(self).pos + 20),
                        );
                        assert(rbase == base_expr);
                        assert(exists|k: int|
                            0 <= k && !is_utf8(
                                label_record_name(
                                    old(self).data@,
                                    #[trigger] label_record_start(old(self).data@, base_expr, k),
                                ),
                            )) by {
                            assert(!is_utf8(
                                label_record_name(
                                    old(self).data@,
                                    label_record_start(old(self).data@, base_expr, processed),
                                ),
                            ));
                        }
                    }
                    return Err(Error::InvalidUtf8);
                }
                let index = get32(&self.data, self.pos + 1 + name_len, e);
                let ghost p_cur = self.pos as int;
                proof {
                    assert(label_record_len(self.data@, p_cur) == 1 + name_len + 4);
                    assert(label_record_name(self.data@, p_cur) =~= name@);
                    assert(label_record_index(self.data@, e, p_cur) == index);
                }
                self.pos = self.pos + 1 + name_len + 4;
                if index as usize >= total {
                    return Err(Error::InvalidLabelIndex);
                }
                if seen[index as usize] {
                    return Err(Error::InvalidLabelIndex);
                }
                proof {
                    assert forall|k: int| 0 <= k < processed implies label_record_index(
                        self.data@,
                        e,
                        #[trigger] label_record_start(self.data@, rbase, k),
                    ) != index by {
                        let p = label_record_start(self.data@, rbase, k);
                        if label_record_index(self.data@, e, p) == index {
                            assert(seen@[index as int]);
                        }
                    }
                }
                let ghost labels_pre = labels@;
                let ghost seen_pre = seen@;
                labels.set(index as usize, Label { name });
                seen.set(index as usize, true);
                c = c + 1;
                proof {
                    processed = processed + 1;
                    assert(label_record_start(self.data@, rbase, processed)
                        == label_record_start(self.data@, rbase, processed - 1)
                        + label_record_len(self.data@, p_cur));
                    assert forall|k: int| 0 <= k < processed implies ({
                        let p = #[trigger] label_record_start(self.data@, rbase, k);
                        &&& 0 <= label_record_index(self.data@, e, p) < total
                        &&& seen@[label_record_index(self.data@, e, p)]
                        &&& labels@[label_record_index(self.data@, e, p)].name@
                            == label_record_name(self.data@, p)
                    }) by {
                        let p = label_record_start(self.data@, rbase, k);
                        if k < processed - 1 {
                            assert(label_record_index(self.data@, e, p) != index);
                        } else {
                            assert(p == p_cur);
                        }
                    }
                    assert forall|idx: int|
                        0 <= idx < total && #[trigger] seen@[idx] implies exists|k: int|
                            0 <= k < processed && label_record_index(
                                self.data@,
                                e,
                                #[trigger] label_record_start(self.data@, rbase, k),
                            ) == idx by {
                        if idx == index {
                            assert(label_record_index(
                                self.data@,
                                e,
                                label_record_start(self.data@, rbase, processed - 1),
                            ) == idx);
                        } else {
                            assert(seen_pre[idx]);
                        }
                    }
                    assert forall|k1: int, k2: int| 0 <= k1 < k2 < processed implies
                        label_record_index(
                            self.data@,
                            e,
                            #[trigger] label_record_start(self.data@, rbase, k1),
                        ) != label_record_index(
                            self.data@,
                            e,
                            #[trigger] label_record_start(self.data@, rbase, k2),
                        ) by {
                        if k2 == processed - 1 {
                            assert(label_record_index(
                                self.data@,
                                e,
                                label_record_start(self.data@, rbase, k1),
                            ) != index);
                        }
                    }
                }
            }
            gi = gi + 1;
            proof {
                let pre = groups@.subrange(0, gi as int);
                assert(pre.drop_last() =~= groups@.subrange(0, gi - 1));
                assert(pre.last() == groups@[gi - 1]);
            }
        }
        proof {
            assert(groups@.subrange(0, g_len as int) =~= groups@);
            assert(processed == total);
        }
        let mut blob: u64 = 0;
        let mut i: usize = 0;
        while i < total
            invariant
                i <= total,
                labels@.len() == total,
                total <= 0xFFFF_FFFF,
                e == old(self).msbt.header.endianness,
                self.pos == label_record_start(self.data@, rbase, total as int),
                self.data == old(self).data,
                forall|k: int|
                    0 <= k < total ==> ({
                        let p = #[trigger] label_record_start(self.data@, rbase, k);
                        &&& 0 <= label_record_index(self.data@, e, p) < total
                        &&& labels@[label_record_index(self.data@, e, p)].name@
                            == label_record_name(self.data@, p)
                    }),
                forall|k1: int, k2: int|
                    0 <= k1 < k2 < total ==> label_record_index(
                        self.data@,
                        e,
                        #[trigger] label_record_start(self.data@, rbase, k1),
                    ) != label_record_index(
                        self.data@,
                        e,
                        #[trigger] label_record_start(self.data@, rbase, k2),
                    ),
                forall|q: int| 0 <= q < total ==> labels@[q].wf(),
                blob == labels_blob_len(labels@.subrange(0, i as int)),
                blob <= 260 * i,
            decreases total - i,
        {
            let len = labels[i].name.len();
            blob = blob + 5 + len as u64;
            i = i + 1;
            proof {
                let pre = labels@.subrange(0, i as int);
                assert(pre.drop_last() =~= labels@.subrange(0, i - 1));
                assert(pre.last() == labels@[i - 1]);
            }
        }
        proof {
            assert(labels@.subrange(0, total as int) =~= labels@);
        }
        let payload: u64 = 4 + 8 * (g_len as u64) + blob;
        let padded = Msbt::plus_padding_of_wide(16 + payload);
        if padded > 0xFFFF_FFF0 {
            return Err(Error::TooLarge);
        }
        let l = Lbl1 { section, groups, labels };
        proof {
            assert(l.labels@.len() > 0 ==> l.groups@.len() > 0) by {
                if l.groups@.len() == 0 {
                    assert(sum_label_counts(l.groups@) == 0);
                }
            }
        }
        Ok(l)
    }

    /// Advances past the alignment gap after a section. The first time a
    /// nonzero gap is seen, the byte found there is adopted as the
    /// container-wide pad byte. A file that ends unaligned with nothing
    /// left to read is refused; one that ends inside the gap is accepted.
    fn skip_padding(&mut self) -> (r: Result<(), Error>)
        requires
            old(self).pos <= old(self).data@.len(),
        ensures
            final(self).data == old(self).data,
            final(self).got_pad ==> (final(self).msbt == (Msbt {
                pad_byte: final(self).msbt.pad_byte,
                ..old(self).msbt
            })),
            !final(self).got_pad ==> final(self).msbt == old(self).msbt,
            old(self).pos <= final(self).pos <= final(self).data@.len(),
            r is Err <==> old(self).pos % 16 != 0 && old(self).pos == old(self).data@.len(),
            r is Err ==> r->Err_0 == Error::Eof && final(self).pos == old(self).pos,
            r is Ok ==> final(self).pos == (if old(self).pos % 16 == 0 {
                old(self).pos as int
            } else if plus_padding(old(self).pos as int) <= old(self).data@.len() {
                plus_padding(old(self).pos as int)
            } else {
                old(self).data@.len() as int
            }),
            old(self).pos % 16 == 0 ==> *final(self) == *old(self),
            r is Ok && old(self).pos % 16 != 0 && !old(self).got_pad ==> final(self).got_pad
                && final(self).msbt.pad_byte == old(self).data@[old(self).pos as int],
            old(self).got_pad ==> final(self).msbt == old(self).msbt && final(self).got_pad,
            old(self).msbt.sections_wf() ==> final(self).msbt.sections_wf(),
            old(self).msbt.order_wf() ==> final(self).msbt.order_wf(),
            final(self).msbt.header == old(self).msbt.header,
            final(self).msbt.section_order == old(self).msbt.section_order,
    {
        proof {
            reveal(Msbt::sections_wf);
            reveal(crate::bytes::pad_len);
        }
        let n = self.data.len();
        let rem = self.pos % 16;
        if rem > 0 {
            if self.pos >= n {
                return Err(Error::Eof);
            }
            let b = self.data[self.pos];
            if !self.got_pad {
                self.msbt.pad_byte = b;
                self.got_pad = true;
            }
            let gap = 16 - rem;
            if n - self.pos < gap {
                self.pos = n;
            } else {
                self.pos = self.pos + gap;
            }
        }
        proof {
            assert(forall|u: SectionTag|
                #[trigger] self.msbt.has_section(u) <==> old(self).msbt.has_section(u));
            assert(self.msbt.num_present() == old(self).msbt.num_present());
        }
        Ok(())
    }

/// Reads sections until the input runs out, dispatching on each 4-byte
    /// tag, recording the order sections appear in, and skipping the
    /// alignment gap after each one. An unrecognized or repeated tag is
    /// fatal and carries the raw 4 bytes; fewer than 4 trailing bytes end
    /// the parse.
    pub fn read_sections(&mut self) -> (r: Result<(), Error>)
        requires
            old(self).pos <= old(self).data@.len(),
            old(self).msbt.sections_wf(),
            old(self).msbt.order_wf(),
        ensures
            final(self).data == old(self).data,
            final(self).msbt.header == old(self).msbt.header,
            r is Ok ==> final(self).msbt.sections_wf() && final(self).msbt.order_wf(),
            old(self).msbt.section_order@.is_prefix_of(final(self).msbt.section_order@),
            old(self).data@.len() - old(self).pos < 4 ==> r is Ok && final(self).msbt == old(
                self,
            ).msbt && final(self).pos == old(self).pos,
            old(self).data@.len() - old(self).pos >= 4 && !known_tag(
                old(self).data@,
                old(self).pos as int,
            ) ==> r == Err::<(), Error>(
                Error::InvalidSection(
                    old(self).data@[old(self).pos as int],
                    old(self).data@[old(self).pos + 1],
                    old(self).data@[old(self).pos + 2],
                    old(self).data@[old(self).pos + 3],
                ),
            ),
    {
        proof {
            assert(old(self).msbt.section_order@.is_prefix_of(old(self).msbt.section_order@)) by {
                assert(old(self).msbt.section_order@.subrange(
                    0,
                    old(self).msbt.section_order@.len() as int,
                ) =~= old(self).msbt.section_order@);
            }
        }
        let n0 = self.data.len();
        if n0 - self.pos >= 4 {
            let t0 = self.data[self.pos];
            let t1 = self.data[self.pos + 1];
            let t2 = self.data[self.pos + 2];
            let t3 = self.data[self.pos + 3];
            let known = (t0 == 0x4C && t1 == 0x42 && t2 == 0x4C && t3 == 0x31) || (t0 == 0x41 && t1
                == 0x54 && t2 == 0x52 && t3 == 0x31) || (t0 == 0x41 && t1 == 0x54 && t2 == 0x4F
                && t3 == 0x31) || (t0 == 0x54 && t1 == 0x53 && t2 == 0x59 && t3 == 0x31) || (t0
                == 0x54 && t1 == 0x58 && t2 == 0x54 && t3 == 0x32) || (t0 == 0x4E && t1 == 0x4C
                && t2 == 0x49 && t3 == 0x31);
            proof {
                assert(self.data@.subrange(self.pos as int, self.pos + 4) =~= seq![
                    self.data@[self.pos as int],
                    self.data@[self.pos + 1],
                    self.data@[self.pos + 2],
                    self.data@[self.pos + 3],
                ]);
            }
            if !known {
                return Err(Error::InvalidSection(t0, t1, t2, t3));
            }
        }
        loop
            invariant
                self.pos <= self.data@.len(),
                self.data == old(self).data,
                self.msbt.header == old(self).msbt.header,
                self.msbt.sections_wf(),
                self.msbt.order_wf(),
                old(self).msbt.section_order@.is_prefix_of(self.msbt.section_order@),
                old(self).data@.len() - old(self).pos >= 4 ==> known_tag(
                    old(self).data@,
                    old(self).pos as int,
                ),
                old(self).data@.len() - old(self).pos < 4 ==> self.msbt == old(self).msbt
                    && self.pos == old(self).pos,
            decreases self.data@.len() - self.pos,
        {
            let n = self.data.len();
            if n - self.pos < 4 {
                return Ok(());
            }
            let t0 = self.data[self.pos];
            let t1 = self.data[self.pos + 1];
            let t2 = self.data[self.pos + 2];
            let t3 = self.data[self.pos + 3];
            let ghost m_pre = self.msbt;
            if t0 == 0x4C && t1 == 0x42 && t2 == 0x4C && t3 == 0x31 {
                if self.msbt.lbl1.is_some() {
                    return Err(Error::InvalidSection(t0, t1, t2, t3));
                }
                let s = match self.read_lbl1() {
                    Ok(s) => s,
                    Err(e) => {
                        return Err(e);
                    },
                };
                self.msbt.lbl1 = Some(s);
                self.msbt.section_order.push(SectionTag::Lbl1);
                proof {
                    reveal(Msbt::sections_wf);
                    assert(forall|u: SectionTag|
                        u != SectionTag::Lbl1 ==> (#[trigger] self.msbt.has_section(u)
                            <==> m_pre.has_section(u)));
                    lemma_order_push(m_pre, self.msbt, SectionTag::Lbl1);
                }
            } else if t0 == 0x41 && t1 == 0x54 && t2 == 0x52 && t3 == 0x31 {
                if self.msbt.atr1.is_some() {
                    return Err(Error::InvalidSection(t0, t1, t2, t3));
                }
                let s = match self.read_atr1() {
                    Ok(s) => s,
                    Err(e) => {
                        return Err(e);
                    },
                };
                self.msbt.atr1 = Some(s);
                self.msbt.section_order.push(SectionTag::Atr1);
                proof {
                    reveal(Msbt::sections_wf);
                    assert(forall|u: SectionTag|
                        u != SectionTag::Atr1 ==> (#[trigger] self.msbt.has_section(u)
                            <==> m_pre.has_section(u)));
                    lemma_order_push(m_pre, self.msbt, SectionTag::Atr1);
                }
            } else if t0 == 0x41 && t1 == 0x54 && t2 == 0x4F && t3 == 0x31 {
                if self.msbt.ato1.is_some() {
                    return Err(Error::InvalidSection(t0, t1, t2, t3));
                }
                let s = match self.read_ato1() {
                    Ok(s) => s,
                    Err(e) => {
                        return Err(e);
                    },
                };
                self.msbt.ato1 = Some(s);
                self.msbt.section_order.push(SectionTag::Ato1);
                proof {
                    reveal(Msbt::sections_wf);
                    assert(forall|u: SectionTag|
                        u != SectionTag::Ato1 ==> (#[trigger] self.msbt.has_section(u)
                            <==> m_pre.has_section(u)));
                    lemma_order_push(m_pre, self.msbt, SectionTag::Ato1);
                }
            } else if t0 == 0x54 && t1 == 0x53 && t2 == 0x59 && t3 == 0x31 {
                if self.msbt.tsy1.is_some() {
                    return Err(Error::InvalidSection(t0, t1, t2, t3));
                }
                let s = match self.read_tsy1() {
                    Ok(s) => s,
                    Err(e) => {
                        return Err(e);
                    },
                };
                self.msbt.tsy1 = Some(s);
                self.msbt.section_order.push(SectionTag::Tsy1);
                proof {
                    reveal(Msbt::sections_wf);
                    assert(forall|u: SectionTag|
                        u != SectionTag::Tsy1 ==> (#[trigger] self.msbt.has_section(u)
                            <==> m_pre.has_section(u)));
                    lemma_order_push(m_pre, self.msbt, SectionTag::Tsy1);
                }
            } else if t0 == 0x54 && t1 == 0x58 && t2 == 0x54 && t3 == 0x32 {
                if self.msbt.txt2.is_some() {
                    return Err(Error::InvalidSection(t0, t1, t2, t3));
                }
                let s = match self.read_txt2() {
                    Ok(s) => s,
                    Err(e) => {
                        return Err(e);
                    },
                };
                self.msbt.txt2 = Some(s);
                self.msbt.section_order.push(SectionTag::Txt2);
                proof {
                    reveal(Msbt::sections_wf);
                    assert(forall|u: SectionTag|
                        u != SectionTag::Txt2 ==> (#[trigger] self.msbt.has_section(u)
                            <==> m_pre.has_section(u)));
                    lemma_order_push(m_pre, self.msbt, SectionTag::Txt2);
                }
            } else if t0 == 0x4E && t1 == 0x4C && t2 == 0x49 && t3 == 0x31 {
                if self.msbt.nli1.is_some() {
                    return Err(Error::InvalidSection(t0, t1, t2, t3));
                }
                let s = match self.read_nli1() {
                    Ok(s) => s,
                    Err(e) => {
                        return Err(e);
                    },
                };
                self.msbt.nli1 = Some(s);
                self.msbt.section_order.push(SectionTag::Nli1);
                proof {
                    reveal(Msbt::sections_wf);
                    assert(forall|u: SectionTag|
                        u != SectionTag::Nli1 ==> (#[trigger] self.msbt.has_section(u)
                            <==> m_pre.has_section(u)));
                    lemma_order_push(m_pre, self.msbt, SectionTag::Nli1);
                }
            } else {
                return Err(Error::InvalidSection(t0, t1, t2, t3));
            }
            match self.skip_padding() {
                Ok(()) => {},
                Err(e) => {
                    return Err(e);
                },
            }
        }
    }
}

/// Pushing the tag of a newly present section onto an order list that onto an order list that
/// already names exactly the present sections keeps it naming exactly the
/// present sections, each once.
proof fn lemma_order_push(old_m: Msbt, new_m: Msbt, t: SectionTag)
    requires
        old_m.order_wf(),
        !old_m.has_section(t),
        new_m.section_order@ == old_m.section_order@.push(t),
        new_m.has_section(t),
        forall|u: SectionTag| u != t ==> (new_m.has_section(u) <==> old_m.has_section(u)),
        new_m.num_present() == old_m.num_present() + 1,
    ensures
        new_m.order_wf(),
{
    let no = new_m.section_order@;
    let oo = old_m.section_order@;
    assert(!oo.contains(t));
    assert forall|i: int, j: int| 0 <= i < j < no.len() implies no[i] != no[j] by {
        if j == no.len() - 1 {
            assert(no[j] == t);
            assert(no[i] == oo[i]);
            if oo[i] == t {
                assert(oo.contains(t));
            }
        } else {
            assert(no[i] == oo[i] && no[j] == oo[j]);
        }
    }
    assert forall|u: SectionTag| #[trigger] no.contains(u) implies new_m.has_section(u) by {
        let k = choose|k: int| 0 <= k < no.len() && no[k] == u;
        if k == no.len() - 1 {
            assert(u == t);
        } else {
            assert(oo[k] == u);
            assert(oo.contains(u));
        }
    }
    assert forall|u: SectionTag| #[trigger] new_m.has_section(u) implies no.contains(u) by {
        if u == t {
            assert(no[no.len() - 1] == t);
        } else {
            assert(old_m.has_section(u));
            assert(oo.contains(u));
            let k = choose|k: int| 0 <= k < oo.len() && oo[k] == u;
            assert(no[k] == u);
        }
    }
}


} // verus!
