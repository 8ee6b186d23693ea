//! Fixed-width integers laid out in the byte order the header selected.
//!
//! The specification side says which byte sequence an integer denotes; the
//! executable side reads and writes those sequences and is proved against it.

use vstd::prelude::*;

use crate::Endianness;

verus! {

/// The two bytes of `x` in big-endian order.
pub open spec fn be16(x: u16) -> Seq<u8> {
    seq![(x / 0x100) as u8, (x % 0x100) as u8]
}

/// The two bytes of `x` in the order `e` selects.
pub open spec fn enc16(e: Endianness, x: u16) -> Seq<u8> {
    match e {
        Endianness::Big => be16(x),
        Endianness::Little => seq![(x % 0x100) as u8, (x / 0x100) as u8],
    }
}

/// The four bytes of `x` in big-endian order.
pub open spec fn be32(x: u32) -> Seq<u8> {
    seq![
        (x / 0x100_0000) as u8,
        ((x / 0x1_0000) % 0x100) as u8,
        ((x / 0x100) % 0x100) as u8,
        (x % 0x100) as u8,
    ]
}

/// The four bytes of `x` in the order `e` selects.
pub open spec fn enc32(e: Endianness, x: u32) -> Seq<u8> {
    match e {
        Endianness::Big => be32(x),
        Endianness::Little => be32(x).reverse(),
    }
}

/// The integer whose two bytes, in the order `e` selects, are `s`.
pub open spec fn dec16(e: Endianness, s: Seq<u8>) -> int
    recommends
        s.len() == 2,
{
    match e {
        Endianness::Big => s[0] * 0x100 + s[1],
        Endianness::Little => s[1] * 0x100 + s[0],
    }
}

/// The integer whose four bytes, in the order `e` selects, are `s`.
pub open spec fn dec32(e: Endianness, s: Seq<u8>) -> int
    recommends
        s.len() == 4,
{
    match e {
        Endianness::Big => s[0] * 0x100_0000 + s[1] * 0x1_0000 + s[2] * 0x100 + s[3],
        Endianness::Little => s[3] * 0x100_0000 + s[2] * 0x1_0000 + s[1] * 0x100 + s[0],
    }
}

/// Decoding inverts encoding.
pub proof fn lemma_dec16_enc16(e: Endianness, x: u16)
    ensures
        dec16(e, enc16(e, x)) == x,
{
}

/// Decoding inverts encoding.
pub proof fn lemma_dec32_enc32(e: Endianness, x: u32)
    ensures
        dec32(e, enc32(e, x)) == x,
{
    assert(enc32(e, x).len() == 4);
    assert(dec32(e, enc32(e, x)) == x) by {
        let s = enc32(e, x);
        match e {
            Endianness::Big => {
                assert(s[0] == x / 0x100_0000 && s[1] == (x / 0x1_0000) % 0x100 && s[2] == (x
                    / 0x100) % 0x100 && s[3] == x % 0x100);
            },
            Endianness::Little => {
                assert(s == be32(x).reverse());
                assert(s[3] == x / 0x100_0000 && s[2] == (x / 0x1_0000) % 0x100 && s[1] == (x
                    / 0x100) % 0x100 && s[0] == x % 0x100);
            },
        }
    }
}

/// Appends the two bytes of `x` in the order `e` selects.
pub fn put16(out: &mut Vec<u8>, e: Endianness, x: u16)
    ensures
        final(out)@ == old(out)@ + enc16(e, x),
{
    let hi: u8 = (x / 0x100) as u8;
    let lo: u8 = (x % 0x100) as u8;
    match e {
        Endianness::Big => {
            out.push(hi);
            out.push(lo);
        },
        Endianness::Little => {
            out.push(lo);
            out.push(hi);
        },
    }
    assert(out@ =~= old(out)@ + enc16(e, x));
}

/// Appends the four bytes of `x` in the order `e` selects.
pub fn put32(out: &mut Vec<u8>, e: Endianness, x: u32)
    ensures
        final(out)@ == old(out)@ + enc32(e, x),
{
    let b0: u8 = (x / 0x100_0000) as u8;
    let b1: u8 = ((x / 0x1_0000) % 0x100) as u8;
    let b2: u8 = ((x / 0x100) % 0x100) as u8;
    let b3: u8 = (x % 0x100) as u8;
    match e {
        Endianness::Big => {
            out.push(b0);
            out.push(b1);
            out.push(b2);
            out.push(b3);
        },
        Endianness::Little => {
            out.push(b3);
            out.push(b2);
            out.push(b1);
            out.push(b0);
        },
    }
    assert(out@ =~= old(out)@ + enc32(e, x));
}

/// Reads the `u16` whose bytes stand at `pos`, in the order `e` selects.
///
/// The postcondition pins the value down as the one whose encoding is exactly
/// those two bytes, which makes every read reversible.
pub fn get16(data: &Vec<u8>, pos: usize, e: Endianness) -> (r: u16)
    requires
        pos + 2 <= data@.len(),
    ensures
        enc16(e, r) == data@.subrange(pos as int, pos + 2),
        r == dec16(e, data@.subrange(pos as int, pos + 2)),
{
    let n = data.len();
    let a = data[pos];
    let b = data[pos + 1];
    let r: u16 = match e {
        Endianness::Big => a as u16 * 0x100 + b as u16,
        Endianness::Little => b as u16 * 0x100 + a as u16,
    };
    proof {
        let (hi, lo) = match e {
            Endianness::Big => (a, b),
            Endianness::Little => (b, a),
        };
        assert(r == hi as u16 * 0x100 + lo as u16);
        assert(r / 0x100 == hi && r % 0x100 == lo) by (nonlinear_arith)
            requires
                r == hi as u16 * 0x100 + lo as u16,
                hi <= 0xFF,
                lo <= 0xFF,
        ;
        assert(enc16(e, r) =~= data@.subrange(pos as int, pos + 2));
        lemma_dec16_enc16(e, r);
    }
    r
}

/// Reads the `u32` whose bytes stand at `pos`, in the order `e` selects.
pub fn get32(data: &Vec<u8>, pos: usize, e: Endianness) -> (r: u32)
    requires
        pos + 4 <= data@.len(),
    ensures
        enc32(e, r) == data@.subrange(pos as int, pos + 4),
        r == dec32(e, data@.subrange(pos as int, pos + 4)),
{
    let n = data.len();
    let a = data[pos];
    let b = data[pos + 1];
    let c = data[pos + 2];
    let d = data[pos + 3];
    let (b0, b1, b2, b3) = match e {
        Endianness::Big => (a, b, c, d),
        Endianness::Little => (d, c, b, a),
    };
    let r: u32 = b0 as u32 * 0x100_0000 + b1 as u32 * 0x1_0000 + b2 as u32 * 0x100 + b3 as u32;
    proof {
        assert(r / 0x100_0000 == b0 && (r / 0x1_0000) % 0x100 == b1 && (r / 0x100) % 0x100 == b2
            && r % 0x100 == b3) by (nonlinear_arith)
            requires
                r == b0 as u32 * 0x100_0000 + b1 as u32 * 0x1_0000 + b2 as u32 * 0x100
                    + b3 as u32,
                b0 <= 0xFF,
                b1 <= 0xFF,
                b2 <= 0xFF,
                b3 <= 0xFF,
        ;
        assert(be32(r) =~= seq![b0, b1, b2, b3]);
        assert(enc32(e, r) =~= data@.subrange(pos as int, pos + 4));
        lemma_dec32_enc32(e, r);
    }
    r
}

} // verus!
