//! The `TXT2` section: the string table. On disk it is a count, an offset
//! array, then the entries' raw bytes back to back; each entry is further
//! lexed into literal text runs and embedded formatting directives. The
//! lexer is total and lossless: re-encoding what it produced reproduces the
//! entry's exact original bytes.

use vstd::prelude::*;

use crate::{Encoding, Endianness, Error};
use crate::bytes::{copy_range, plus_padding, push_bytes};
use crate::endian::{dec16, enc16, enc32, get16, get32, put16, put32};
use crate::section::Section;

verus! {

/// One element of a string-table entry.
#[derive(Debug, Clone)]
pub enum TextElement {
    /// A run of raw encoded text bytes, kept exactly as stored.
    Literal(Vec<u8>),
    /// An opening formatting directive: two identifying codes and a raw
    /// parameter block.
    Directive { group: u16, kind: u16, params: Vec<u8> },
    /// A closing directive: just the two identifying codes.
    Close { group: u16, kind: u16 },
}

/// The reserved marker code point that opens a directive.
pub const DIRECTIVE_MARKER: u16 = 0x0E;

/// The reserved marker code point that closes a directive.
pub const CLOSE_MARKER: u16 = 0x0F;

/// A marker code point as it is stored: one byte under UTF-8, one code unit
/// under UTF-16.
pub open spec fn marker_bytes(enc: Encoding, e: Endianness, m: u16) -> Seq<u8> {
    match enc {
        Encoding::Utf8 => seq![m as u8],
        Encoding::Utf16 => enc16(e, m),
    }
}

impl TextElement {
    /// A directive's parameter block fits its 16-bit length field.
    pub open spec fn wf(self) -> bool {
        match self {
            TextElement::Directive { params, .. } => params@.len() <= 0xFFFF,
            _ => true,
        }
    }
}

/// The exact bytes one element re-encodes to.
pub open spec fn elem_bytes(enc: Encoding, e: Endianness, el: TextElement) -> Seq<u8> {
    match el {
        TextElement::Literal(b) => b@,
        TextElement::Directive { group, kind, params } => marker_bytes(enc, e, DIRECTIVE_MARKER)
            + enc16(e, group) + enc16(e, kind) + enc16(e, params@.len() as u16) + params@,
        TextElement::Close { group, kind } => marker_bytes(enc, e, CLOSE_MARKER) + enc16(e, group)
            + enc16(e, kind),
    }
}

/// The bytes a whole entry re-encodes to.
pub open spec fn elems_bytes(enc: Encoding, e: Endianness, els: Seq<TextElement>) -> Seq<u8>
    decreases els.len(),
{
    if els.len() == 0 {
        Seq::empty()
    } else {
        elems_bytes(enc, e, els.drop_last()) + elem_bytes(enc, e, els.last())
    }
}

/// A prefix of an entry never re-encodes longer than the whole entry.
pub proof fn lemma_elems_bytes_prefix(enc: Encoding, e: Endianness, els: Seq<TextElement>, i: int)
    requires
        0 <= i <= els.len(),
    ensures
        elems_bytes(enc, e, els.subrange(0, i)).len() <= elems_bytes(enc, e, els).len(),
    decreases els.len() - i,
{
    if i < els.len() {
        lemma_elems_bytes_prefix(enc, e, els, i + 1);
        let pre = els.subrange(0, i + 1);
        assert(pre.drop_last() =~= els.subrange(0, i));
        assert(pre.last() == els[i]);
    } else {
        assert(els.subrange(0, i) =~= els);
    }
}

/// Appending one element appends its bytes.
proof fn lemma_elems_push(enc: Encoding, e: Endianness, els: Seq<TextElement>, el: TextElement)
    ensures
        elems_bytes(enc, e, els.push(el)) == elems_bytes(enc, e, els) + elem_bytes(enc, e, el),
{
    assert(els.push(el).drop_last() =~= els);
    assert(els.push(el).last() == el);
}

/// Adjacent subranges concatenate.
proof fn lemma_subrange_split(s: Seq<u8>, a: int, b: int, c: int)
    requires
        0 <= a <= b <= c <= s.len(),
    ensures
        s.subrange(a, c) == s.subrange(a, b) + s.subrange(b, c),
{
    assert(s.subrange(a, c) =~= s.subrange(a, b) + s.subrange(b, c));
}

/// The stored code unit at `o`: one byte under UTF-8, two under UTF-16.
pub open spec fn unit_at(b: Seq<u8>, enc: Encoding, e: Endianness, o: int) -> int {
    match enc {
        Encoding::Utf8 => b[o] as int,
        Encoding::Utf16 => dec16(e, b.subrange(o, o + 2)),
    }
}

/// Byte width of one code unit.
pub open spec fn unit_len(enc: Encoding) -> int {
    match enc {
        Encoding::Utf8 => 1,
        Encoding::Utf16 => 2,
    }
}

/// Whether a whole directive record is recognizable at `o`: the opening
/// marker unit, and the full record — two codes, a length field and that
/// many parameter bytes — inside `end`.
pub open spec fn directive_fits(b: Seq<u8>, enc: Encoding, e: Endianness, o: int, end: int) -> bool {
    &&& o + unit_len(enc) + 6 <= end
    &&& unit_at(b, enc, e, o) == DIRECTIVE_MARKER
    &&& o + unit_len(enc) + 6 + dec16(
        e,
        b.subrange(o + unit_len(enc) + 4, o + unit_len(enc) + 6),
    ) <= end
}

/// Whether a whole close record is recognizable at `o`: the closing marker
/// unit and its two codes inside `end`.
pub open spec fn close_fits(b: Seq<u8>, enc: Encoding, e: Endianness, o: int, end: int) -> bool {
    &&& o + unit_len(enc) + 4 <= end
    &&& unit_at(b, enc, e, o) == CLOSE_MARKER
}

/// Tries to lex a directive or close record at `pos`; `None` means no
/// marker record is recognizable there and the bytes are literal text.
#[verifier::rlimit(100)]
fn try_lex_marker(data: &Vec<u8>, pos: usize, end: usize, enc: Encoding, e: Endianness) -> (r:
    Option<(TextElement, usize)>)
    requires
        pos < end <= data@.len(),
    ensures
        r is Some <==> directive_fits(data@, enc, e, pos as int, end as int) || close_fits(
            data@,
            enc,
            e,
            pos as int,
            end as int,
        ),
        r is Some ==> ({
            let (el, np) = r->0;
            &&& pos < np <= end
            &&& el.wf()
            &&& elem_bytes(enc, e, el) == data@.subrange(pos as int, np as int)
            &&& (el is Directive <==> directive_fits(data@, enc, e, pos as int, end as int))
        }),
{
    let remaining = end - pos;
    let marker_len: usize = match enc {
        Encoding::Utf8 => 1,
        Encoding::Utf16 => 2,
    };
    if remaining < marker_len {
        return None;
    }
    let unit: u16 = match enc {
        Encoding::Utf8 => data[pos] as u16,
        Encoding::Utf16 => get16(data, pos, e),
    };
    proof {
        assert(unit == unit_at(data@, enc, e, pos as int));
    }
    if unit == DIRECTIVE_MARKER && remaining >= marker_len + 6 {
        let plen = get16(data, pos + marker_len + 4, e) as usize;
        proof {
            assert(plen == dec16(
                e,
                data@.subrange(pos + marker_len + 4, pos + marker_len + 6),
            ));
        }
        if plen <= remaining - (marker_len + 6) {
            let group = get16(data, pos + marker_len, e);
            let kind = get16(data, pos + marker_len + 2, e);
            let params = copy_range(data, pos + marker_len + 6, pos + marker_len + 6 + plen);
            let el = TextElement::Directive { group, kind, params };
            let np = pos + marker_len + 6 + plen;
            proof {
                assert(marker_bytes(enc, e, DIRECTIVE_MARKER) =~= data@.subrange(
                    pos as int,
                    pos + marker_len,
                ));
                assert(elem_bytes(enc, e, el) =~= data@.subrange(pos as int, np as int));
            }
            return Some((el, np));
        }
    }
    if unit == CLOSE_MARKER && remaining >= marker_len + 4 {
        let group = get16(data, pos + marker_len, e);
        let kind = get16(data, pos + marker_len + 2, e);
        let el = TextElement::Close { group, kind };
        let np = pos + marker_len + 4;
        proof {
            assert(marker_bytes(enc, e, CLOSE_MARKER) =~= data@.subrange(
                pos as int,
                pos + marker_len,
            ));
            assert(elem_bytes(enc, e, el) =~= data@.subrange(pos as int, np as int));
        }
        return Some((el, np));
    }
    None
}

/// Lexes `data[start..end]` into text elements. Total and lossless: any
/// byte range lexes, and what comes out re-encodes to exactly the input
/// bytes. A directive or close marker is recognized only when its full
/// record fits in the remaining bytes; anything else joins a literal run.
pub fn parse_elements(data: &Vec<u8>, start: usize, end: usize, enc: Encoding, e: Endianness) -> (r:
    Vec<TextElement>)
    requires
        start <= end <= data@.len(),
    ensures
        elems_bytes(enc, e, r@) == data@.subrange(start as int, end as int),
        forall|i: int| 0 <= i < r@.len() ==> r@[i].wf(),
{
    let mut out: Vec<TextElement> = Vec::new();
    let mut lit: Vec<u8> = Vec::new();
    let mut pos = start;
    while pos < end
        invariant
            start <= pos <= end <= data@.len(),
            elems_bytes(enc, e, out@) + lit@ == data@.subrange(start as int, pos as int),
            forall|i: int| 0 <= i < out@.len() ==> out@[i].wf(),
        decreases end - pos,
    {
        match try_lex_marker(data, pos, end, enc, e) {
            Some((el, np)) => {
                if lit.len() > 0 {
                    proof {
                        lemma_elems_push(enc, e, out@, TextElement::Literal(lit));
                    }
                    out.push(TextElement::Literal(lit));
                    lit = Vec::new();
                    proof {
                        assert(elems_bytes(enc, e, out@) + lit@ =~= data@.subrange(
                            start as int,
                            pos as int,
                        ));
                    }
                }
                let ghost out_mid = out@;
                proof {
                    lemma_elems_push(enc, e, out_mid, el);
                    lemma_subrange_split(data@, start as int, pos as int, np as int);
                }
                out.push(el);
                proof {
                    assert(elems_bytes(enc, e, out@) + lit@ =~= data@.subrange(
                        start as int,
                        np as int,
                    ));
                }
                pos = np;
            },
            None => {
                let step: usize = match enc {
                    Encoding::Utf8 => 1,
                    Encoding::Utf16 => {
                        if end - pos >= 2 {
                            2
                        } else {
                            1
                        }
                    },
                };
                let ghost lit_pre = lit@;
                lit.push(data[pos]);
                if step == 2 {
                    lit.push(data[pos + 1]);
                }
                proof {
                    lemma_subrange_split(data@, start as int, pos as int, pos + step);
                    if step == 2 {
                        assert(lit@ =~= lit_pre.push(data@[pos as int]).push(data@[pos + 1]));
                        assert(data@.subrange(pos as int, pos + step) =~= seq![
                            data@[pos as int],
                            data@[pos + 1],
                        ]);
                    } else {
                        assert(lit@ =~= lit_pre.push(data@[pos as int]));
                        assert(data@.subrange(pos as int, pos + step) =~= seq![
                            data@[pos as int],
                        ]);
                    }
                    assert(elems_bytes(enc, e, out@) + lit@ =~= data@.subrange(
                        start as int,
                        pos + step,
                    ));
                }
                pos = pos + step;
            },
        }
    }
    if lit.len() > 0 {
        let ghost out_pre = out@;
        out.push(TextElement::Literal(lit));
        proof {
            assert(out@.drop_last() =~= out_pre);
        }
    }
    assert(elems_bytes(enc, e, out@) =~= data@.subrange(start as int, end as int));
    out
}

/// Appends one element's exact bytes.
pub fn write_element(el: &TextElement, out: &mut Vec<u8>, enc: Encoding, e: Endianness)
    requires
        el.wf(),
    ensures
        final(out)@ == old(out)@ + elem_bytes(enc, e, *el),
{
    match el {
        TextElement::Literal(b) => {
            push_bytes(out, b);
        },
        TextElement::Directive { group, kind, params } => {
            match enc {
                Encoding::Utf8 => {
                    out.push(DIRECTIVE_MARKER as u8);
                },
                Encoding::Utf16 => {
                    put16(out, e, DIRECTIVE_MARKER);
                },
            }
            put16(out, e, *group);
            put16(out, e, *kind);
            put16(out, e, params.len() as u16);
            push_bytes(out, params);
            assert(out@ =~= old(out)@ + elem_bytes(enc, e, *el));
        },
        TextElement::Close { group, kind } => {
            match enc {
                Encoding::Utf8 => {
                    out.push(CLOSE_MARKER as u8);
                },
                Encoding::Utf16 => {
                    put16(out, e, CLOSE_MARKER);
                },
            }
            put16(out, e, *group);
            put16(out, e, *kind);
            assert(out@ =~= old(out)@ + elem_bytes(enc, e, *el));
        },
    }
}

/// Computes the byte length one entry re-encodes to.
pub fn entry_size(els: &Vec<TextElement>, enc: Encoding, e: Endianness) -> (r: u64)
    requires
        elems_bytes(enc, e, els@).len() <= 0xFFFF_FFFF,
    ensures
        r == elems_bytes(enc, e, els@).len(),
{
    let marker_len: u64 = match enc {
        Encoding::Utf8 => 1,
        Encoding::Utf16 => 2,
    };
    let n = els.len();
    let mut total: u64 = 0;
    let mut i: usize = 0;
    while i < n
        invariant
            i <= n,
            n == els@.len(),
            marker_len == (if enc is Utf8 { 1int } else { 2int }),
            elems_bytes(enc, e, els@).len() <= 0xFFFF_FFFF,
            total == elems_bytes(enc, e, els@.subrange(0, i as int)).len(),
            total <= elems_bytes(enc, e, els@).len(),
        decreases n - i,
    {
        proof {
            let pre = els@.subrange(0, i + 1);
            assert(pre.drop_last() =~= els@.subrange(0, i as int));
            assert(pre.last() == els@[i as int]);
            lemma_elems_bytes_prefix(enc, e, els@, i + 1);
            assert(elem_bytes(enc, e, els@[i as int]).len() <= 0xFFFF_FFFF);
        }
        let el_len: u64 = match &els[i] {
            TextElement::Literal(b) => b.len() as u64,
            TextElement::Directive { params, .. } => marker_len + 6 + params.len() as u64,
            TextElement::Close { .. } => marker_len + 4,
        };
        proof {
            assert(el_len == elem_bytes(enc, e, els@[i as int]).len());
        }
        total = total + el_len;
        i = i + 1;
    }
    proof {
        assert(els@.subrange(0, n as int) =~= els@);
    }
    total
}

/// The concatenated bytes of all entries.
pub open spec fn values_bytes(enc: Encoding, e: Endianness, vs: Seq<Vec<TextElement>>) -> Seq<u8>
    decreases vs.len(),
{
    if vs.len() == 0 {
        Seq::empty()
    } else {
        values_bytes(enc, e, vs.drop_last()) + elems_bytes(enc, e, vs.last()@)
    }
}

/// Total byte length of all entries.
pub open spec fn values_len(enc: Encoding, e: Endianness, vs: Seq<Vec<TextElement>>) -> int {
    values_bytes(enc, e, vs).len() as int
}

/// A prefix of the entries never re-encodes longer than all of them.
pub proof fn lemma_values_prefix(enc: Encoding, e: Endianness, vs: Seq<Vec<TextElement>>, i: int)
    requires
        0 <= i <= vs.len(),
    ensures
        values_len(enc, e, vs.subrange(0, i)) <= values_len(enc, e, vs),
    decreases vs.len() - i,
{
    if i < vs.len() {
        lemma_values_prefix(enc, e, vs, i + 1);
        let pre = vs.subrange(0, i + 1);
        assert(pre.drop_last() =~= vs.subrange(0, i));
        assert(pre.last() == vs[i]);
    } else {
        assert(vs.subrange(0, i) =~= vs);
    }
}

/// The offset array: the i-th offset is the baseline (count field plus
/// offset array) plus the byte length of entries `[0..i)`.
pub open spec fn offsets_bytes(enc: Encoding, e: Endianness, vs: Seq<Vec<TextElement>>, i: int) -> Seq<
    u8,
>
    decreases i,
{
    if i <= 0 {
        Seq::empty()
    } else {
        offsets_bytes(enc, e, vs, i - 1) + enc32(
            e,
            (4 * vs.len() + 4 + values_len(enc, e, vs.subrange(0, i - 1))) as u32,
        )
    }
}

/// The `i`-th stored offset word of a string-table payload that begins at
/// `pos` (offsets follow the 4-byte count field).
pub open spec fn stored_offset(b: Seq<u8>, e: Endianness, pos: int, i: int) -> int {
    crate::endian::dec32(e, b.subrange(pos + 4 + 4 * i, pos + 8 + 4 * i))
}

/// The byte length of entry `i` among `n`, derived as the next entry's
/// offset minus its own, with the declared payload size `size` standing in
/// for the offset after the last entry.
pub open spec fn stored_entry_len(
    b: Seq<u8>,
    e: Endianness,
    pos: int,
    size: int,
    n: int,
    i: int,
) -> int {
    if i + 1 < n {
        stored_offset(b, e, pos, i + 1) - stored_offset(b, e, pos, i)
    } else {
        size - stored_offset(b, e, pos, i)
    }
}

/// Where entry `i`'s bytes begin: the entries lie back to back right after
/// the offset array, each as long as the offset difference says.
pub open spec fn stored_entry_start(
    b: Seq<u8>,
    e: Endianness,
    pos: int,
    size: int,
    n: int,
    i: int,
) -> int
    decreases i,
{
    if i <= 0 {
        pos + 4 + 4 * n
    } else {
        stored_entry_start(b, e, pos, size, n, i - 1) + stored_entry_len(b, e, pos, size, n, i - 1)
    }
}

/// The string-table section: positionally indexed entries, each a sequence
/// of text elements. The position is the index space labels and global IDs
/// refer to.
#[derive(Debug, Clone)]
pub struct Txt2 {
    pub section: Section,
    pub values: Vec<Vec<TextElement>>,
}

impl Txt2 {
    /// Byte length of the payload: count field, offset array, entry bytes.
    pub open spec fn payload_len(self, enc: Encoding, e: Endianness) -> int {
        4 + 4 * self.values@.len() + values_len(enc, e, self.values@)
    }

    /// The payload bytes under the file's encoding and byte order.
    pub open spec fn payload(self, enc: Encoding, e: Endianness) -> Seq<u8> {
        enc32(e, self.values@.len() as u32) + offsets_bytes(
            enc,
            e,
            self.values@,
            self.values@.len() as int,
        ) + values_bytes(enc, e, self.values@)
    }

    /// Well-formed under the file's encoding and byte order: every element
    /// fits its record and the padded section fits 32-bit size arithmetic.
    pub open spec fn wf(self, enc: Encoding, e: Endianness) -> bool {
        &&& self.section.wf()
        &&& forall|i: int, j: int|
            0 <= i < self.values@.len() && 0 <= j < self.values@[i]@.len()
                ==> self.values@[i]@[j].wf()
        &&& plus_padding(16 + 4 + 4 * self.values@.len() + values_len(enc, e, self.values@))
            <= 0xFFFF_FFF0
    }

    /// Computes the payload's byte length from current content.
    pub fn payload_size(&self, enc: Encoding, e: Endianness) -> (r: u64)
        requires
            self.wf(enc, e),
        ensures
            r == self.payload_len(enc, e),
    {
        proof {
            crate::bytes::lemma_plus_padding_bounds(16 + self.payload_len(enc, e));
        }
        let n = self.values.len();
        let mut total: u64 = 0;
        let mut i: usize = 0;
        while i < n
            invariant
                i <= n,
                n == self.values@.len(),
                self.wf(enc, e),
                4 + 4 * (n as int) + values_len(enc, e, self.values@) <= 0xFFFF_FFE0,
                total == values_len(enc, e, self.values@.subrange(0, i as int)),
                total <= values_len(enc, e, self.values@),
            decreases n - i,
        {
            proof {
                let pre = self.values@.subrange(0, i + 1);
                assert(pre.drop_last() =~= self.values@.subrange(0, i as int));
                assert(pre.last() == self.values@[i as int]);
                lemma_values_prefix(enc, e, self.values@, i + 1);
                assert(elems_bytes(enc, e, self.values@[i as int]@).len() <= 0xFFFF_FFFF);
            }
            let v = entry_size(&self.values[i], enc, e);
            total = total + v;
            i = i + 1;
        }
        proof {
            assert(self.values@.subrange(0, n as int) =~= self.values@);
        }
        4 + 4 * n as u64 + total
    }

    /// The entries, in index order.
    pub fn values(&self) -> (r: &Vec<Vec<TextElement>>)
        ensures
            r@ == self.values@,
    {
        &self.values
    }
}

/// Appends the section's payload bytes: entry count, the offset array
/// (each offset the baseline plus the byte length of the entries before
/// it), then every entry's bytes back to back.
pub fn write_txt2_payload(t: &Txt2, out: &mut Vec<u8>, enc: Encoding, e: Endianness)
    requires
        t.wf(enc, e),
    ensures
        final(out)@ == old(out)@ + t.payload(enc, e),
{
    proof {
        crate::bytes::lemma_plus_padding_bounds(16 + t.payload_len(enc, e));
    }
    let n = t.values.len();
    put32(out, e, n as u32);
    let mut total: u64 = 0;
    let mut i: usize = 0;
    while i < n
        invariant
            i <= n,
            n == t.values@.len(),
            t.wf(enc, e),
            4 + 4 * (n as int) + values_len(enc, e, t.values@) <= 0xFFFF_FFE0,
            total == values_len(enc, e, t.values@.subrange(0, i as int)),
            total <= values_len(enc, e, t.values@),
            out@ == old(out)@ + enc32(e, t.values@.len() as u32) + offsets_bytes(
                enc,
                e,
                t.values@,
                i as int,
            ),
        decreases n - i,
    {
        let off: u64 = 4 * (n as u64) + 4 + total;
        put32(out, e, off as u32);
        proof {
            let pre = t.values@.subrange(0, i + 1);
            assert(pre.drop_last() =~= t.values@.subrange(0, i as int));
            assert(pre.last() == t.values@[i as int]);
            lemma_values_prefix(enc, e, t.values@, i + 1);
            assert(elems_bytes(enc, e, t.values@[i as int]@).len() <= 0xFFFF_FFFF);
        }
        let v = entry_size(&t.values[i], enc, e);
        total = total + v;
        i = i + 1;
    }
    proof {
        assert(t.values@.subrange(0, n as int) =~= t.values@);
    }
    let mut i: usize = 0;
    while i < n
        invariant
            i <= n,
            n == t.values@.len(),
            t.wf(enc, e),
            out@ == old(out)@ + enc32(e, t.values@.len() as u32) + offsets_bytes(
                enc,
                e,
                t.values@,
                n as int,
            ) + values_bytes(enc, e, t.values@.subrange(0, i as int)),
        decreases n - i,
    {
        let els = &t.values[i];
        let m = els.len();
        let mut j: usize = 0;
        while j < m
            invariant
                j <= m,
                i < n,
                n == t.values@.len(),
                m == t.values@[i as int]@.len(),
                els@ == t.values@[i as int]@,
                t.wf(enc, e),
                out@ == old(out)@ + enc32(e, t.values@.len() as u32) + offsets_bytes(
                    enc,
                    e,
                    t.values@,
                    n as int,
                ) + values_bytes(enc, e, t.values@.subrange(0, i as int)) + elems_bytes(
                    enc,
                    e,
                    els@.subrange(0, j as int),
                ),
            decreases m - j,
        {
            assert(els@[j as int].wf());
            write_element(&els[j], out, enc, e);
            j = j + 1;
            proof {
                let pre = els@.subrange(0, j as int);
                assert(pre.drop_last() =~= els@.subrange(0, j - 1));
                assert(pre.last() == els@[j - 1]);
                assert(out@ =~= old(out)@ + enc32(e, t.values@.len() as u32) + offsets_bytes(
                    enc,
                    e,
                    t.values@,
                    n as int,
                ) + values_bytes(enc, e, t.values@.subrange(0, i as int)) + elems_bytes(
                    enc,
                    e,
                    pre,
                ));
            }
        }
        i = i + 1;
        proof {
            let pre = t.values@.subrange(0, i as int);
            assert(pre.drop_last() =~= t.values@.subrange(0, i - 1));
            assert(pre.last() == t.values@[i - 1]);
            assert(els@.subrange(0, m as int) =~= els@);
            assert(out@ =~= old(out)@ + enc32(e, t.values@.len() as u32) + offsets_bytes(
                enc,
                e,
                t.values@,
                n as int,
            ) + values_bytes(enc, e, pre));
        }
    }
    proof {
        assert(t.values@.subrange(0, n as int) =~= t.values@);
        assert(out@ =~= old(out)@ + t.payload(enc, e));
    }
}

} // verus!
