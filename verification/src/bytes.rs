//! Small byte-buffer helpers shared by every section codec: copying a range
//! out of the input, appending one buffer to another, and the 16-byte
//! alignment padding that closes every section.

use vstd::prelude::*;

verus! {

/// How many pad bytes bring a stream of length `n` up to the next 16-byte
/// boundary (zero when it is already aligned).
#[verifier::opaque]
pub open spec fn pad_len(n: int) -> int {
    (16 - n % 16) % 16
}

/// `n` plus its alignment gap: the next multiple of 16 at or above `n`.
pub open spec fn plus_padding(n: int) -> int {
    n + pad_len(n)
}

/// The gap bytes themselves: `pad_len(n)` copies of the file's pad byte.
pub open spec fn pad_seq(n: int, b: u8) -> Seq<u8> {
    Seq::new(pad_len(n) as nat, |i: int| b)
}

/// `s` brought up to the next 16-byte boundary with copies of `b`.
pub open spec fn padded_to_16(s: Seq<u8>, b: u8) -> Seq<u8> {
    s + pad_seq(s.len() as int, b)
}

/// Alignment never moves an offset backwards nor by 16 or more.
pub proof fn lemma_plus_padding_bounds(n: int)
    requires
        n >= 0,
    ensures
        n <= plus_padding(n) <= n + 15,
{
    reveal(pad_len);
}

/// Padding a block appended at an aligned offset pads only the block.
pub proof fn lemma_padded_append(a: Seq<u8>, b: Seq<u8>, pad: u8)
    requires
        a.len() % 16 == 0,
    ensures
        padded_to_16(a + b, pad) == a + padded_to_16(b, pad),
{
    reveal(pad_len);
    assert((a + b).len() % 16 == b.len() % 16) by {
        assert((a + b).len() == a.len() + b.len());
    }
    assert(padded_to_16(a + b, pad) =~= a + padded_to_16(b, pad));
}

/// A copy of `data[start..end]`.
pub fn copy_range(data: &Vec<u8>, start: usize, end: usize) -> (r: Vec<u8>)
    requires
        start <= end,
        end <= data@.len(),
    ensures
        r@ == data@.subrange(start as int, end as int),
{
    let mut r: Vec<u8> = Vec::new();
    let mut i = start;
    while i < end
        invariant
            start <= i <= end,
            end <= data@.len(),
            r@ == data@.subrange(start as int, i as int),
        decreases end - i,
    {
        r.push(data[i]);
        i = i + 1;
        assert(r@ =~= data@.subrange(start as int, i as int));
    }
    r
}

/// Appends all of `src` to `out`.
pub fn push_bytes(out: &mut Vec<u8>, src: &Vec<u8>)
    ensures
        final(out)@ == old(out)@ + src@,
{
    let n = src.len();
    let mut i: usize = 0;
    while i < n
        invariant
            i <= n,
            n == src@.len(),
            out@ == old(out)@ + src@.subrange(0, i as int),
        decreases n - i,
    {
        out.push(src[i]);
        i = i + 1;
        assert(out@ =~= old(out)@ + src@.subrange(0, i as int));
    }
    assert(out@ =~= old(out)@ + src@);
}

/// Fills `out` with the pad byte `b` up to the next 16-byte boundary.
pub fn pad_to_16(out: &mut Vec<u8>, b: u8)
    ensures
        final(out)@ == padded_to_16(old(out)@, b),
        final(out)@.len() % 16 == 0,
{
    proof {
        reveal(pad_len);
    }
    let rem = out.len() % 16;
    if rem > 0 {
        let gap = 16 - rem;
        let mut i: usize = 0;
        while i < gap
            invariant
                i <= gap,
                gap == pad_len(old(out)@.len() as int),
                out@ == old(out)@ + pad_seq(old(out)@.len() as int, b).subrange(0, i as int),
            decreases gap - i,
        {
            out.push(b);
            i = i + 1;
            assert(out@ =~= old(out)@ + pad_seq(old(out)@.len() as int, b).subrange(
                0,
                i as int,
            ));
        }
    }
    assert(out@ =~= padded_to_16(old(out)@, b));
}

} // verus!
