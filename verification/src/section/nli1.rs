//! The `NLI1` section: the global-ID table, mapping external numeric IDs to
//! the shared index space. Held ascending by ID, so a write always emits
//! entries in ascending-ID order whatever order the source file had.

use vstd::prelude::*;

use crate::{Endianness, Error};
use crate::bytes::plus_padding;
use crate::endian::{enc32, get32, put32};
use crate::section::Section;

verus! {

/// Strictly ascending by ID; strictness makes IDs unique.
pub open spec fn sorted_by_id(s: Seq<(u32, u32)>) -> bool {
    forall|i: int, j: int| 0 <= i < j < s.len() ==> s[i].0 < s[j].0
}

/// The 8 payload bytes of one entry: index first, then ID, as the file
/// stores them.
pub open spec fn entry_bytes(e: Endianness, p: (u32, u32)) -> Seq<u8> {
    enc32(e, p.1) + enc32(e, p.0)
}

/// The concatenated entry records in stored (ascending-ID) order.
pub open spec fn entries_bytes(e: Endianness, s: Seq<(u32, u32)>) -> Seq<u8>
    decreases s.len(),
{
    if s.len() == 0 {
        Seq::empty()
    } else {
        entries_bytes(e, s.drop_last()) + entry_bytes(e, s.last())
    }
}

/// The global-ID table. `global_ids` holds (ID, index) pairs strictly
/// ascending by ID; `id_count` is the stored count field, refreshed by
/// `Msbt::update`.
#[derive(Debug, Clone)]
pub struct Nli1 {
    pub section: Section,
    pub id_count: u32,
    pub global_ids: Vec<(u32, u32)>,
}

impl Nli1 {
    /// Byte length of the payload: empty when the declared size is zero,
    /// else a count field plus 8 bytes per entry.
    pub open spec fn payload_len(self) -> int {
        if self.section.size > 0 {
            4 + 8 * self.global_ids@.len() as int
        } else {
            0
        }
    }

    /// The payload bytes. A zero declared size means no entries and no
    /// count field at all.
    pub open spec fn payload(self, e: Endianness) -> Seq<u8> {
        if self.section.size > 0 {
            enc32(e, self.id_count) + entries_bytes(e, self.global_ids@)
        } else {
            Seq::empty()
        }
    }

    /// Well-formed: envelope widths right, entries strictly ascending by
    /// ID, counts inside 32-bit range, padded section inside 32-bit size
    /// arithmetic.
    pub open spec fn wf(self) -> bool {
        &&& self.section.wf()
        &&& sorted_by_id(self.global_ids@)
        &&& self.section.size == 0 ==> self.global_ids@.len() == 0
        &&& self.global_ids@.len() <= 0xFFFF_FFFF
        &&& plus_padding(16 + self.payload_len()) <= 0xFFFF_FFF0
    }

    /// The (ID, index) pairs, ascending by ID.
    pub fn global_ids(&self) -> (r: &Vec<(u32, u32)>)
        ensures
            r@ == self.global_ids@,
    {
        &self.global_ids
    }
}

/// After any write, the emitted global-ID entries ascend by ID: the
/// payload writes the stored entries in order, and a well-formed table
/// stores them strictly ascending.
pub proof fn lemma_global_id_write_order(t: Nli1)
    requires
        t.wf(),
    ensures
        sorted_by_id(t.global_ids@),
        forall|i: int, j: int|
            0 <= i < j < t.global_ids@.len() ==> t.global_ids@[i].0 < t.global_ids@[j].0,
{
}

/// `(id, index)` placed into the ID-sorted `s`: an existing ID's entry is
/// replaced, a new ID inserted at its sorted position.
pub open spec fn spec_insert_gid(s: Seq<(u32, u32)>, id: u32, index: u32) -> Seq<(u32, u32)>
    decreases s.len(),
{
    if s.len() == 0 {
        seq![(id, index)]
    } else if id < s[0].0 {
        seq![(id, index)] + s
    } else if id == s[0].0 {
        seq![(id, index)] + s.drop_first()
    } else {
        seq![s[0]] + spec_insert_gid(s.drop_first(), id, index)
    }
}

/// Where the first ID not below `id` sits is where the spec insertion
/// places or replaces.
proof fn lemma_insert_gid_at(s: Seq<(u32, u32)>, id: u32, index: u32, i: int)
    requires
        0 <= i <= s.len(),
        forall|j: int| 0 <= j < i ==> s[j].0 < id,
        i < s.len() ==> s[i].0 >= id,
    ensures
        spec_insert_gid(s, id, index) == (if i < s.len() && s[i].0 == id {
            s.subrange(0, i).push((id, index)) + s.subrange(i + 1, s.len() as int)
        } else {
            s.subrange(0, i).push((id, index)) + s.subrange(i, s.len() as int)
        }),
    decreases s.len(),
{
    if s.len() == 0 {
        assert(spec_insert_gid(s, id, index) =~= s.subrange(0, i).push((id, index)) + s.subrange(
            i,
            s.len() as int,
        ));
    } else if id < s[0].0 {
        assert(i == 0);
        assert(spec_insert_gid(s, id, index) =~= s.subrange(0, 0).push((id, index)) + s.subrange(
            0,
            s.len() as int,
        ));
    } else if id == s[0].0 {
        assert(i == 0);
        assert(spec_insert_gid(s, id, index) =~= s.subrange(0, 0).push((id, index)) + s.subrange(
            1,
            s.len() as int,
        ));
    } else {
        let rest = s.drop_first();
        assert(i >= 1);
        lemma_insert_gid_at(rest, id, index, i - 1);
        if i < s.len() && s[i].0 == id {
            assert(rest.subrange(0, i - 1) =~= s.subrange(1, i));
            assert(rest.subrange(i, rest.len() as int) =~= s.subrange(i + 1, s.len() as int));
            assert(seq![s[0]] + (s.subrange(1, i).push((id, index)) + s.subrange(
                i + 1,
                s.len() as int,
            )) =~= s.subrange(0, i).push((id, index)) + s.subrange(i + 1, s.len() as int));
        } else {
            assert(rest.subrange(0, i - 1) =~= s.subrange(1, i));
            assert(rest.subrange(i - 1, rest.len() as int) =~= s.subrange(i, s.len() as int));
            assert(seq![s[0]] + (s.subrange(1, i).push((id, index)) + s.subrange(
                i,
                s.len() as int,
            )) =~= s.subrange(0, i).push((id, index)) + s.subrange(i, s.len() as int));
        }
    }
}

/// Places `(id, index)` into the ID-sorted `v`: the result is exactly the
/// spec insertion — an existing ID's entry replaced, a new ID inserted at
/// its sorted position; appending a strictly larger ID is exactly a push.
pub fn insert_global_id(v: Vec<(u32, u32)>, id: u32, index: u32) -> (r: Vec<(u32, u32)>)
    requires
        sorted_by_id(v@),
    ensures
        r@ == spec_insert_gid(v@, id, index),
        sorted_by_id(r@),
        v@.len() <= r@.len() <= v@.len() + 1,
        (forall|q: int| 0 <= q < v@.len() ==> v@[q].0 < id) ==> r@ == v@.push((id, index)),
{
    let mut v = v;
    let n = v.len();
    let mut i: usize = 0;
    while i < n && v[i].0 < id
        invariant
            i <= n,
            n == v@.len(),
            sorted_by_id(v@),
            forall|j: int| 0 <= j < i ==> v@[j].0 < id,
        decreases n - i,
    {
        i = i + 1;
    }
    let ghost v0 = v@;
    proof {
        lemma_insert_gid_at(v0, id, index, i as int);
    }
    if i < n {
        let hit = v[i].0 == id;
        if hit {
            v.set(i, (id, index));
            assert(sorted_by_id(v@)) by {
                assert(v0[i as int].0 == id);
                assert(forall|q: int| 0 <= q < v@.len() && q != i ==> v@[q] == v0[q]);
            }
            assert(v@ =~= v0.subrange(0, i as int).push((id, index)) + v0.subrange(
                i + 1,
                v0.len() as int,
            ));
            return v;
        }
        v.insert(i, (id, index));
        assert(sorted_by_id(v@)) by {
            assert(v0[i as int].0 > id);
            assert(forall|q: int| 0 <= q < i ==> v@[q] == v0[q]);
            assert(v@[i as int] == (id, index));
            assert(forall|q: int| i < q < v@.len() ==> v@[q] == v0[q - 1]);
        }
        assert(v@ =~= v0.subrange(0, i as int).push((id, index)) + v0.subrange(
            i as int,
            v0.len() as int,
        ));
        return v;
    }
    v.push((id, index));
    assert(sorted_by_id(v@)) by {
        assert(forall|q: int| 0 <= q < v@.len() - 1 ==> v@[q] == v0[q]);
    }
    assert(v@ =~= v0.subrange(0, i as int).push((id, index)) + v0.subrange(
        i as int,
        v0.len() as int,
    ));
    v
}

/// Appends the section's payload bytes.
pub fn write_nli1_payload(t: &Nli1, out: &mut Vec<u8>, e: Endianness)
    requires
        t.wf(),
    ensures
        final(out)@ == old(out)@ + t.payload(e),
{
    if t.section.size > 0 {
        put32(out, e, t.id_count);
        let n = t.global_ids.len();
        let mut i: usize = 0;
        while i < n
            invariant
                i <= n,
                n == t.global_ids@.len(),
                out@ == old(out)@ + enc32(e, t.id_count) + entries_bytes(
                    e,
                    t.global_ids@.subrange(0, i as int),
                ),
            decreases n - i,
        {
            let p = t.global_ids[i];
            put32(out, e, p.1);
            put32(out, e, p.0);
            i = i + 1;
            proof {
                let pre = t.global_ids@.subrange(0, i as int);
                assert(pre.drop_last() =~= t.global_ids@.subrange(0, i - 1));
                assert(pre.last() == t.global_ids@[i - 1]);
                assert(out@ =~= old(out)@ + enc32(e, t.id_count) + entries_bytes(e, pre));
            }
        }
        proof {
            assert(t.global_ids@.subrange(0, n as int) =~= t.global_ids@);
        }
    }
}

} // verus!
