//! The `LBL1` section: a disk-resident hash table binding textual labels to
//! the index space shared with the other sections.
//!
//! Labels are read bucket by bucket but stored densely at their explicit
//! index; on write they are flattened and re-sorted by a checksum computed
//! over each name's bytes, and the bucket list is re-emitted as last set.
//! Regenerating bucket boundaries after edits is `Lbl1::update_groups`'s job.

use vstd::prelude::*;

use crate::Endianness;
use crate::bytes::plus_padding;
use crate::endian::{enc32, put32};
use crate::section::Section;

verus! {

/// A UTF-8 continuation byte.
pub open spec fn utf8_cont(b: u8) -> bool {
    0x80 <= b <= 0xBF
}

/// Whether `s[i..]` is well-formed UTF-8 (the shortest-form table of the
/// encoding, surrogates excluded).
pub open spec fn utf8_from(s: Seq<u8>, i: int) -> bool
    decreases s.len() - i,
{
    if i < 0 || i >= s.len() {
        true
    } else {
        let b = s[i];
        if b < 0x80 {
            utf8_from(s, i + 1)
        } else if 0xC2 <= b <= 0xDF {
            i + 2 <= s.len() && utf8_cont(s[i + 1]) && utf8_from(s, i + 2)
        } else if b == 0xE0 {
            i + 3 <= s.len() && 0xA0 <= s[i + 1] <= 0xBF && utf8_cont(s[i + 2]) && utf8_from(
                s,
                i + 3,
            )
        } else if 0xE1 <= b <= 0xEC || b == 0xEE || b == 0xEF {
            i + 3 <= s.len() && utf8_cont(s[i + 1]) && utf8_cont(s[i + 2]) && utf8_from(s, i + 3)
        } else if b == 0xED {
            i + 3 <= s.len() && 0x80 <= s[i + 1] <= 0x9F && utf8_cont(s[i + 2]) && utf8_from(
                s,
                i + 3,
            )
        } else if b == 0xF0 {
            i + 4 <= s.len() && 0x90 <= s[i + 1] <= 0xBF && utf8_cont(s[i + 2]) && utf8_cont(
                s[i + 3],
            ) && utf8_from(s, i + 4)
        } else if 0xF1 <= b <= 0xF3 {
            i + 4 <= s.len() && utf8_cont(s[i + 1]) && utf8_cont(s[i + 2]) && utf8_cont(s[i + 3])
                && utf8_from(s, i + 4)
        } else if b == 0xF4 {
            i + 4 <= s.len() && 0x80 <= s[i + 1] <= 0x8F && utf8_cont(s[i + 2]) && utf8_cont(
                s[i + 3],
            ) && utf8_from(s, i + 4)
        } else {
            false
        }
    }
}

/// Whether `s` is well-formed UTF-8.
pub open spec fn is_utf8(s: Seq<u8>) -> bool {
    utf8_from(s, 0)
}

/// Decides `utf8_from(v@, i)`.
fn check_utf8_from(v: &Vec<u8>, i: usize) -> (r: bool)
    requires
        i <= v@.len(),
    ensures
        r == utf8_from(v@, i as int),
    decreases v@.len() - i,
{
    let n = v.len();
    if i >= n {
        return true;
    }
    let b = v[i];
    if b < 0x80 {
        check_utf8_from(v, i + 1)
    } else if 0xC2 <= b && b <= 0xDF {
        n - i >= 2 && 0x80 <= v[i + 1] && v[i + 1] <= 0xBF && check_utf8_from(v, i + 2)
    } else if b == 0xE0 {
        n - i >= 3 && 0xA0 <= v[i + 1] && v[i + 1] <= 0xBF && 0x80 <= v[i + 2] && v[i + 2] <= 0xBF
            && check_utf8_from(v, i + 3)
    } else if (0xE1 <= b && b <= 0xEC) || b == 0xEE || b == 0xEF {
        n - i >= 3 && 0x80 <= v[i + 1] && v[i + 1] <= 0xBF && 0x80 <= v[i + 2] && v[i + 2] <= 0xBF
            && check_utf8_from(v, i + 3)
    } else if b == 0xED {
        n - i >= 3 && 0x80 <= v[i + 1] && v[i + 1] <= 0x9F && 0x80 <= v[i + 2] && v[i + 2] <= 0xBF
            && check_utf8_from(v, i + 3)
    } else if b == 0xF0 {
        n - i >= 4 && 0x90 <= v[i + 1] && v[i + 1] <= 0xBF && 0x80 <= v[i + 2] && v[i + 2] <= 0xBF
            && 0x80 <= v[i + 3] && v[i + 3] <= 0xBF && check_utf8_from(v, i + 4)
    } else if 0xF1 <= b && b <= 0xF3 {
        n - i >= 4 && 0x80 <= v[i + 1] && v[i + 1] <= 0xBF && 0x80 <= v[i + 2] && v[i + 2] <= 0xBF
            && 0x80 <= v[i + 3] && v[i + 3] <= 0xBF && check_utf8_from(v, i + 4)
    } else if b == 0xF4 {
        n - i >= 4 && 0x80 <= v[i + 1] && v[i + 1] <= 0x8F && 0x80 <= v[i + 2] && v[i + 2] <= 0xBF
            && 0x80 <= v[i + 3] && v[i + 3] <= 0xBF && check_utf8_from(v, i + 4)
    } else {
        false
    }
}

/// Decides whether `v` is well-formed UTF-8.
pub fn check_utf8(v: &Vec<u8>) -> (r: bool)
    ensures
        r == is_utf8(v@),
{
    check_utf8_from(v, 0)
}

/// One bucket of the on-disk hash table: how many labels hash into it, and
/// the byte offset inside the payload where its labels begin.
#[derive(Debug, Clone, Copy, PartialEq, Eq, Structural)]
pub struct Group {
    pub label_count: u32,
    pub offset: u32,
}

/// One label: printable text of at most 255 bytes. Its logical identity is
/// the index it occupies in the table's dense array.
#[derive(Debug, Clone)]
pub struct Label {
    pub name: Vec<u8>,
}

impl Label {
    /// Well-formed: the name fits its 1-byte length prefix and is
    /// well-formed text.
    pub open spec fn wf(self) -> bool {
        &&& self.name@.len() <= 255
        &&& is_utf8(self.name@)
    }
}

/// One step of the label checksum: the running hash folded with one name
/// byte, in 32-bit wrapping arithmetic.
pub open spec fn hash_step(h: nat, b: u8) -> nat {
    ((h * 0x492 + b) % 0x1_0000_0000) as nat
}

/// The checksum accumulator over all of `name`.
pub open spec fn name_hash(name: Seq<u8>) -> nat
    decreases name.len(),
{
    if name.len() == 0 {
        0
    } else {
        hash_step(name_hash(name.drop_last()), name.last())
    }
}

/// The bucket a name falls into, among `group_count` buckets.
pub open spec fn spec_checksum(name: Seq<u8>, group_count: nat) -> nat
    recommends
        group_count > 0,
{
    name_hash(name) % group_count
}

/// Computes the bucket of `name` among `group_count` buckets.
///
/// This is the fixed, externally agreed hash of the format: readers of the
/// file locate a label by this value, so it is pinned by tests.
pub fn checksum(name: &Vec<u8>, group_count: u64) -> (r: u64)
    requires
        group_count > 0,
    ensures
        r == spec_checksum(name@, group_count as nat),
        r < group_count,
{
    let n = name.len();
    let mut h: u64 = 0;
    let mut i: usize = 0;
    while i < n
        invariant
            i <= n,
            n == name@.len(),
            h == name_hash(name@.subrange(0, i as int)),
            h < 0x1_0000_0000,
        decreases n - i,
    {
        let b = name[i];
        h = (h * 0x492 + b as u64) % 0x1_0000_0000;
        i = i + 1;
        proof {
            let pre = name@.subrange(0, i as int);
            assert(pre.drop_last() =~= name@.subrange(0, i - 1));
            assert(pre.last() == name@[i - 1]);
        }
    }
    assert(name@.subrange(0, n as int) =~= name@);
    h % group_count
}

/// The sort key a label is emitted under: its checksum in the high half,
/// its index in the low half, so that sorting by key is sorting by checksum
/// with ties broken by index.
pub open spec fn label_key(checksum: nat, index: nat) -> u64 {
    (checksum * 0x1_0000_0000 + index) as u64
}

/// The index packed into the low half of a key.
pub open spec fn key_index(k: u64) -> int {
    k as int % 0x1_0000_0000
}

/// The keys of all labels of a table with `group_count` buckets, in index
/// order.
pub open spec fn keys_of(labels: Seq<Label>, group_count: nat) -> Seq<u64> {
    Seq::new(labels.len(), |i: int| label_key(spec_checksum(labels[i].name@, group_count), i as nat))
}

/// `x` placed into the already-sorted `s`.
pub open spec fn insert_sorted(s: Seq<u64>, x: u64) -> Seq<u64>
    decreases s.len(),
{
    if s.len() == 0 {
        seq![x]
    } else if x <= s[0] {
        seq![x] + s
    } else {
        seq![s[0]] + insert_sorted(s.drop_first(), x)
    }
}

/// `s` sorted ascending by repeated insertion.
pub open spec fn sort_seq(s: Seq<u64>) -> Seq<u64>
    decreases s.len(),
{
    if s.len() == 0 {
        Seq::empty()
    } else {
        insert_sorted(sort_seq(s.drop_last()), s.last())
    }
}

/// Ascending order.
pub open spec fn sorted_u64(s: Seq<u64>) -> bool {
    forall|i: int, j: int| 0 <= i < j < s.len() ==> s[i] <= s[j]
}

/// Inserting keeps a sorted sequence sorted and adds exactly the new key.
pub proof fn lemma_insert_sorted(s: Seq<u64>, x: u64)
    requires
        sorted_u64(s),
    ensures
        sorted_u64(insert_sorted(s, x)),
        insert_sorted(s, x).to_multiset() == s.to_multiset().insert(x),
        insert_sorted(s, x).len() == s.len() + 1,
    decreases s.len(),
{
    s.to_multiset_ensures();
    insert_sorted(s, x).to_multiset_ensures();
    if s.len() == 0 {
        assert(insert_sorted(s, x) =~= seq![x]);
        assert(seq![x].to_multiset() == s.to_multiset().insert(x)) by {
            broadcast use vstd::seq_lib::group_to_multiset_ensures;

            assert(seq![x] =~= Seq::<u64>::empty().push(x));
            assert(Seq::<u64>::empty().push(x).to_multiset() =~= Seq::<u64>::empty()
                .to_multiset().insert(x));
            assert(s =~= Seq::<u64>::empty());
        }
    } else if x <= s[0] {
        assert(insert_sorted(s, x) == seq![x] + s);
        assert((seq![x] + s).to_multiset() == s.to_multiset().insert(x)) by {
            assert(seq![x] + s =~= seq![x].push(s[0]).add(s.drop_first()));
            lemma_multiset_prepend(s, x);
        }
    } else {
        let rest = s.drop_first();
        assert(sorted_u64(rest));
        lemma_insert_sorted(rest, x);
        let inner = insert_sorted(rest, x);
        assert(insert_sorted(s, x) == seq![s[0]] + inner);
        assert forall|i: int, j: int|
            0 <= i < j < (seq![s[0]] + inner).len() implies (seq![s[0]] + inner)[i] <= (seq![
            s[0],
        ] + inner)[j] by {
            if i == 0 {
                let y = inner[j - 1];
                assert(inner.to_multiset().count(y) > 0) by {
                    inner.to_multiset_ensures();
                }
                assert(rest.to_multiset().insert(x).count(y) > 0);
                if y != x {
                    assert(rest.to_multiset().count(y) > 0);
                    rest.to_multiset_ensures();
                    let k = choose|k: int| 0 <= k < rest.len() && rest[k] == y;
                    assert(s[0] <= s[k + 1]);
                }
            }
        }
        lemma_multiset_prepend_any(inner, s[0]);
        assert((seq![s[0]] + inner).to_multiset() == inner.to_multiset().insert(s[0]));
        lemma_multiset_prepend_any(s.drop_first(), s[0]);
        assert(seq![s[0]] + s.drop_first() =~= s);
        assert(s.to_multiset() == rest.to_multiset().insert(s[0]));
        assert(inner.to_multiset() == rest.to_multiset().insert(x));
        assert(inner.to_multiset().insert(s[0]) =~= rest.to_multiset().insert(x).insert(s[0]));
        assert(rest.to_multiset().insert(x).insert(s[0]) =~= rest.to_multiset().insert(
            s[0],
        ).insert(x));
    }
}

/// A one-element prefix adds one occurrence to the multiset.
proof fn lemma_multiset_prepend(s: Seq<u64>, x: u64)
    requires
        s.len() > 0,
    ensures
        (seq![x] + s).to_multiset() == s.to_multiset().insert(x),
{
    lemma_multiset_prepend_any(s, x)
}

/// A one-element prefix adds one occurrence to the multiset (any length).
proof fn lemma_multiset_prepend_any(s: Seq<u64>, x: u64)
    ensures
        (seq![x] + s).to_multiset() == s.to_multiset().insert(x),
    decreases s.len(),
{
    broadcast use vstd::seq_lib::group_to_multiset_ensures;

    if s.len() == 0 {
        assert(seq![x] + s =~= Seq::<u64>::empty().push(x));
        assert(Seq::<u64>::empty().push(x).to_multiset() =~= Seq::<u64>::empty()
            .to_multiset().insert(x));
        assert(s.to_multiset() =~= Seq::<u64>::empty().to_multiset());
    } else {
        let t = seq![x] + s;
        let u = seq![x] + s.drop_last();
        lemma_multiset_prepend_any(s.drop_last(), x);
        assert(t =~= u.push(s.last()));
        assert(u.push(s.last()).to_multiset() =~= u.to_multiset().insert(s.last()));
        assert(s =~= s.drop_last().push(s.last()));
        assert(s.drop_last().push(s.last()).to_multiset() =~= s.drop_last()
            .to_multiset().insert(s.last()));
        assert(s.drop_last().to_multiset().insert(x).insert(s.last()) =~= s.drop_last()
            .to_multiset().insert(s.last()).insert(x));
    }
}

/// Sorting yields an ascending permutation.
pub proof fn lemma_sort_seq(s: Seq<u64>)
    ensures
        sorted_u64(sort_seq(s)),
        sort_seq(s).to_multiset() == s.to_multiset(),
        sort_seq(s).len() == s.len(),
    decreases s.len(),
{
    broadcast use vstd::seq_lib::group_to_multiset_ensures;

    if s.len() == 0 {
        assert(sort_seq(s) =~= Seq::<u64>::empty());
    } else {
        lemma_sort_seq(s.drop_last());
        lemma_insert_sorted(sort_seq(s.drop_last()), s.last());
        assert(s =~= s.drop_last().push(s.last()));
        assert(s.drop_last().push(s.last()).to_multiset() =~= s.drop_last()
            .to_multiset().insert(s.last()));
    }
}

/// Places `x` into sorted `v`, keeping it sorted; the result is the spec
/// insertion.
fn insert_key(v: Vec<u64>, x: u64) -> (r: Vec<u64>)
    ensures
        r@ == insert_sorted(v@, x),
    decreases v@.len(),
{
    let mut v = v;
    let n = v.len();
    let mut i: usize = 0;
    while i < n && v[i] < x
        invariant
            i <= n,
            n == v@.len(),
            forall|j: int| 0 <= j < i ==> v@[j] < x,
        decreases n - i,
    {
        i = i + 1;
    }
    assert(forall|j: int| 0 <= j < i ==> v@[j] < x);
    assert(i < n ==> x <= v@[i as int]);
    proof {
        lemma_insert_at(v@, x, i as int);
    }
    v.insert(i, x);
    v
}

/// Where the first key not below `x` sits is where the spec insertion puts
/// `x`.
proof fn lemma_insert_at(s: Seq<u64>, x: u64, i: int)
    requires
        0 <= i <= s.len(),
        forall|j: int| 0 <= j < i ==> s[j] < x,
        i < s.len() ==> x <= s[i],
    ensures
        insert_sorted(s, x) == s.subrange(0, i).push(x) + s.subrange(i, s.len() as int),
    decreases s.len(),
{
    if s.len() == 0 {
        assert(insert_sorted(s, x) =~= s.subrange(0, i).push(x) + s.subrange(i, s.len() as int));
    } else if x <= s[0] {
        assert(i == 0);
        assert(insert_sorted(s, x) =~= s.subrange(0, 0).push(x) + s.subrange(0, s.len() as int));
    } else {
        let rest = s.drop_first();
        assert(i >= 1);
        lemma_insert_at(rest, x, i - 1);
        assert(rest.subrange(0, i - 1) =~= s.subrange(1, i));
        assert(rest.subrange(i - 1, rest.len() as int) =~= s.subrange(i, s.len() as int));
        assert(seq![s[0]] + (s.subrange(1, i).push(x) + s.subrange(i, s.len() as int)) =~= s
            .subrange(0, i).push(x) + s.subrange(i, s.len() as int));
    }
}

/// Sorts `keys` ascending; the result is the spec sort.
pub fn sort_keys(keys: &Vec<u64>) -> (r: Vec<u64>)
    ensures
        r@ == sort_seq(keys@),
{
    let n = keys.len();
    let mut acc: Vec<u64> = Vec::new();
    let mut i: usize = 0;
    while i < n
        invariant
            i <= n,
            n == keys@.len(),
            acc@ == sort_seq(keys@.subrange(0, i as int)),
        decreases n - i,
    {
        acc = insert_key(acc, keys[i]);
        i = i + 1;
        proof {
            let pre = keys@.subrange(0, i as int);
            assert(pre.drop_last() =~= keys@.subrange(0, i - 1));
            assert(pre.last() == keys@[i - 1]);
        }
    }
    assert(keys@.subrange(0, n as int) =~= keys@);
    acc
}

/// Packing a checksum and an index into a key loses neither.
pub proof fn lemma_key_index(c: nat, i: nat)
    requires
        c < 0x1_0000_0000,
        i < 0x1_0000_0000,
    ensures
        label_key(c, i) == c * 0x1_0000_0000 + i,
        key_index(label_key(c, i)) == i,
{
    assert(c * 0x1_0000_0000 + i < 0x1_0000_0000_0000_0000) by (nonlinear_arith)
        requires
            c < 0x1_0000_0000,
            i < 0x1_0000_0000,
    ;
    assert((c * 0x1_0000_0000 + i) % 0x1_0000_0000 == i) by (nonlinear_arith)
        requires
            i < 0x1_0000_0000,
    ;
}

/// The label records never shrink a blob: their total length is nonnegative.
pub proof fn lemma_blob_len_nonneg(labels: Seq<Label>)
    ensures
        labels_blob_len(labels) >= 0,
    decreases labels.len(),
{
    if labels.len() > 0 {
        lemma_blob_len_nonneg(labels.drop_last());
    }
}

/// Byte length of the label record at `p`: a 1-byte name length, the name,
/// then a 4-byte stored index.
pub open spec fn label_record_len(b: Seq<u8>, p: int) -> int {
    1 + b[p] + 4
}

/// The name bytes of the label record at `p`.
pub open spec fn label_record_name(b: Seq<u8>, p: int) -> Seq<u8> {
    b.subrange(p + 1, p + 1 + b[p])
}

/// The stored index of the label record at `p`.
pub open spec fn label_record_index(b: Seq<u8>, e: Endianness, p: int) -> int {
    crate::endian::dec32(e, b.subrange(p + 1 + b[p], p + 5 + b[p]))
}

/// Where the `k`-th label record begins, the records lying back to back
/// from `p0` on.
pub open spec fn label_record_start(b: Seq<u8>, p0: int, k: int) -> int
    decreases k,
{
    if k <= 0 {
        p0
    } else {
        label_record_start(b, p0, k - 1) + label_record_len(b, label_record_start(b, p0, k - 1))
    }
}

/// Replacing one label changes the records' total length by the name
/// difference.
pub proof fn lemma_blob_len_update(s: Seq<Label>, i: int, l: Label)
    requires
        0 <= i < s.len(),
    ensures
        labels_blob_len(s.update(i, l)) == labels_blob_len(s) - s[i].name@.len() + l.name@.len(),
    decreases s.len(),
{
    let u = s.update(i, l);
    assert(u.len() == s.len());
    if i == s.len() - 1 {
        assert(u.drop_last() =~= s.drop_last());
        assert(u.last() == l);
    } else {
        assert(u.drop_last() =~= s.drop_last().update(i, l));
        assert(u.last() == s.last());
        lemma_blob_len_update(s.drop_last(), i, l);
    }
}

/// Total label count declared by the bucket list.
pub open spec fn sum_label_counts(gs: Seq<Group>) -> int
    decreases gs.len(),
{
    if gs.len() == 0 {
        0
    } else {
        sum_label_counts(gs.drop_last()) + gs.last().label_count
    }
}

/// The label hash-table section.
#[derive(Debug, Clone)]
pub struct Lbl1 {
    pub section: Section,
    pub groups: Vec<Group>,
    pub labels: Vec<Label>,
}

/// The 8 payload bytes of one bucket record.
pub open spec fn group_bytes(e: Endianness, g: Group) -> Seq<u8> {
    enc32(e, g.label_count) + enc32(e, g.offset)
}

/// The concatenated bucket records.
pub open spec fn groups_bytes(e: Endianness, gs: Seq<Group>) -> Seq<u8>
    decreases gs.len(),
{
    if gs.len() == 0 {
        Seq::empty()
    } else {
        groups_bytes(e, gs.drop_last()) + group_bytes(e, gs.last())
    }
}

/// One emitted label record: 1-byte name length, name bytes, then the
/// label's stored index.
pub open spec fn label_entry_bytes(e: Endianness, labels: Seq<Label>, k: u64) -> Seq<u8> {
    let i = key_index(k);
    if 0 <= i < labels.len() {
        seq![labels[i].name@.len() as u8] + labels[i].name@ + enc32(e, i as u32)
    } else {
        Seq::empty()
    }
}

/// The label records emitted for the keys `ks`, in that order.
pub open spec fn labels_bytes(e: Endianness, labels: Seq<Label>, ks: Seq<u64>) -> Seq<u8>
    decreases ks.len(),
{
    if ks.len() == 0 {
        Seq::empty()
    } else {
        labels_bytes(e, labels, ks.drop_last()) + label_entry_bytes(e, labels, ks.last())
    }
}

/// Total byte length of the label records in index order.
pub open spec fn labels_blob_len(labels: Seq<Label>) -> int
    decreases labels.len(),
{
    if labels.len() == 0 {
        0
    } else {
        labels_blob_len(labels.drop_last()) + 5 + labels.last().name@.len()
    }
}

/// How many labels of `labels` hash into bucket `b` among `g` buckets.
pub open spec fn bucket_count_spec(labels: Seq<Label>, g: nat, b: int) -> int
    decreases labels.len(),
{
    if labels.len() == 0 {
        0
    } else {
        bucket_count_spec(labels.drop_last(), g, b) + if spec_checksum(
            labels.last().name@,
            g,
        ) == b {
            1int
        } else {
            0int
        }
    }
}

impl Lbl1 {
    /// Byte length of the section's payload.
    pub open spec fn payload_len(self) -> int {
        4 + 8 * self.groups@.len() + labels_blob_len(self.labels@)
    }

    /// The payload: bucket count, bucket records, then the labels flattened
    /// and sorted by checksum key.
    pub open spec fn payload(self, e: Endianness) -> Seq<u8> {
        enc32(e, self.groups@.len() as u32) + groups_bytes(e, self.groups@) + labels_bytes(
            e,
            self.labels@,
            sort_seq(keys_of(self.labels@, self.groups@.len())),
        )
    }

    /// Well-formed: every label fits its record, indices fit the 32-bit
    /// index field, a nonempty table has at least one bucket, and the padded
    /// section fits the format's 32-bit size arithmetic.
    pub open spec fn wf(self) -> bool {
        &&& self.section.wf()
        &&& forall|i: int| 0 <= i < self.labels@.len() ==> self.labels@[i].wf()
        &&& self.labels@.len() <= 0xFFFF_FFFF
        &&& self.labels@.len() > 0 ==> self.groups@.len() > 0
        &&& plus_padding(16 + self.payload_len()) <= 0xFFFF_FFF0
    }

    /// Every key of the sorted emission order addresses a label of the
    /// table.
    pub proof fn lemma_sorted_keys_in_range(self)
        requires
            self.wf(),
        ensures
            forall|j: int|
                0 <= j < sort_seq(keys_of(self.labels@, self.groups@.len())).len() ==> 0
                    <= #[trigger] key_index(sort_seq(keys_of(self.labels@, self.groups@.len()))[j])
                    < self.labels@.len(),
    {
        let ks = keys_of(self.labels@, self.groups@.len());
        let sorted = sort_seq(ks);
        lemma_sort_seq(ks);
        ks.to_multiset_ensures();
        sorted.to_multiset_ensures();
        lemma_blob_len_nonneg(self.labels@);
        crate::bytes::lemma_plus_padding_bounds(16 + self.payload_len());
        assert forall|j: int| 0 <= j < sorted.len() implies 0 <= #[trigger] key_index(sorted[j])
            < self.labels@.len() by {
            let k = sorted[j];
            assert(sorted.to_multiset().count(k) > 0);
            assert(ks.contains(k));
            let i = choose|i: int| 0 <= i < ks.len() && ks[i] == k;
            assert(self.labels@.len() > 0);
            assert(self.groups@.len() > 0);
            assert(8 * self.groups@.len() <= self.payload_len());
            assert(spec_checksum(self.labels@[i].name@, self.groups@.len())
                < self.groups@.len());
            lemma_key_index(spec_checksum(self.labels@[i].name@, self.groups@.len()), i as nat);
        }
    }

    /// Computes the payload's byte length from current content.
    pub fn payload_size(&self) -> (r: u64)
        requires
            self.wf(),
        ensures
            r == self.payload_len(),
    {
        proof {
            lemma_blob_len_nonneg(self.labels@);
            crate::bytes::lemma_plus_padding_bounds(16 + self.payload_len());
        }
        let n = self.labels.len();
        let mut blob: u64 = 0;
        let mut i: usize = 0;
        while i < n
            invariant
                i <= n,
                n == self.labels@.len(),
                n <= 0xFFFF_FFFF,
                forall|q: int| 0 <= q < n ==> self.labels@[q].wf(),
                blob == labels_blob_len(self.labels@.subrange(0, i as int)),
                blob <= 260 * i,
            decreases n - i,
        {
            let len = self.labels[i].name.len();
            blob = blob + 5 + len as u64;
            i = i + 1;
            proof {
                let pre = self.labels@.subrange(0, i as int);
                assert(pre.drop_last() =~= self.labels@.subrange(0, i - 1));
                assert(pre.last() == self.labels@[i - 1]);
            }
        }
        proof {
            assert(self.labels@.subrange(0, n as int) =~= self.labels@);
            assert(8 * self.groups@.len() + labels_blob_len(self.labels@) <= self.payload_len());
        }
        4 + 8 * self.groups.len() as u64 + blob
    }

    /// Regenerates the bucket boundaries from current content: each
    /// bucket's label count becomes the number of labels whose checksum
    /// selects it. The bucket count and each bucket's metadata offset are
    /// kept, and the labels are untouched.
    pub fn update_groups(&mut self)
        requires
            old(self).wf(),
        ensures
            final(self).wf(),
            final(self).labels == old(self).labels,
            final(self).section == old(self).section,
            final(self).groups@.len() == old(self).groups@.len(),
            forall|b: int|
                0 <= b < final(self).groups@.len() ==> final(self).groups@[b].label_count
                    == bucket_count_spec(
                    final(self).labels@,
                    final(self).groups@.len(),
                    b,
                ) && final(self).groups@[b].offset == old(self).groups@[b].offset,
    {
        let g = self.groups.len();
        if g == 0 {
            return ;
        }
        let n = self.labels.len();
        let mut counts: Vec<u64> = Vec::new();
        let mut b: usize = 0;
        while b < g
            invariant
                b <= g,
                counts@.len() == b,
                *self == *old(self),
                g == self.groups@.len(),
                forall|q: int| 0 <= q < b ==> counts@[q] == 0,
            decreases g - b,
        {
            counts.push(0);
            b = b + 1;
        }
        let mut i: usize = 0;
        while i < n
            invariant
                i <= n,
                n == self.labels@.len(),
                g == self.groups@.len(),
                g > 0,
                counts@.len() == g,
                *self == *old(self),
                self.wf(),
                forall|q: int|
                    0 <= q < g ==> counts@[q] == bucket_count_spec(
                        self.labels@.subrange(0, i as int),
                        g as nat,
                        q,
                    ) && counts@[q] <= i,
            decreases n - i,
        {
            let c = checksum(&self.labels[i].name, g as u64) as usize;
            let ghost counts_pre = counts@;
            let cur = counts[c];
            counts.set(c, cur + 1);
            i = i + 1;
            proof {
                let pre = self.labels@.subrange(0, i as int);
                assert(pre.drop_last() =~= self.labels@.subrange(0, i - 1));
                assert(pre.last() == self.labels@[i - 1]);
                assert(forall|q: int|
                    0 <= q < g && q != c ==> counts@[q] == counts_pre[q]);
            }
        }
        proof {
            assert(self.labels@.subrange(0, n as int) =~= self.labels@);
        }
        let mut b: usize = 0;
        while b < g
            invariant
                b <= g,
                g == self.groups@.len(),
                n == self.labels@.len(),
                counts@.len() == g,
                self.wf(),
                n <= 0xFFFF_FFFF,
                self.labels == old(self).labels,
                self.section == old(self).section,
                forall|q: int|
                    0 <= q < g ==> counts@[q] == bucket_count_spec(
                        self.labels@,
                        g as nat,
                        q,
                    ) && counts@[q] <= n,
                forall|q: int| b <= q < g ==> self.groups@[q] == old(self).groups@[q],
                forall|q: int|
                    0 <= q < b ==> (#[trigger] self.groups@[q]).label_count
                        == bucket_count_spec(self.labels@, g as nat, q) && self.groups@[q].offset
                        == old(self).groups@[q].offset,
            decreases g - b,
        {
            let count = counts[b];
            let offset = self.groups[b].offset;
            self.groups.set(b, Group { label_count: count as u32, offset });
            b = b + 1;
        }
    }

    /// The bucket list.
    pub fn groups(&self) -> (r: &Vec<Group>)
        ensures
            r@ == self.groups@,
    {
        &self.groups
    }

    /// The dense label array; a label's position is its index.
    pub fn labels(&self) -> (r: &Vec<Label>)
        ensures
            r@ == self.labels@,
    {
        &self.labels
    }
}

/// Appends the section's payload bytes: bucket count, bucket records, then
/// the labels sorted by checksum key, each as (length-prefixed name, stored
/// index).
pub fn write_lbl1_payload(l: &Lbl1, out: &mut Vec<u8>, e: Endianness)
    requires
        l.wf(),
    ensures
        final(out)@ == old(out)@ + l.payload(e),
{
    let g_count = l.groups.len();
    proof {
        lemma_blob_len_nonneg(l.labels@);
        crate::bytes::lemma_plus_padding_bounds(16 + l.payload_len());
    }
    put32(out, e, g_count as u32);
    let mut i: usize = 0;
    while i < g_count
        invariant
            i <= g_count,
            g_count == l.groups@.len(),
            out@ == old(out)@ + enc32(e, l.groups@.len() as u32) + groups_bytes(
                e,
                l.groups@.subrange(0, i as int),
            ),
        decreases g_count - i,
    {
        let g = l.groups[i];
        put32(out, e, g.label_count);
        put32(out, e, g.offset);
        i = i + 1;
        proof {
            let pre = l.groups@.subrange(0, i as int);
            assert(pre.drop_last() =~= l.groups@.subrange(0, i - 1));
            assert(pre.last() == l.groups@[i - 1]);
            assert(out@ =~= old(out)@ + enc32(e, l.groups@.len() as u32) + groups_bytes(e, pre));
        }
    }
    proof {
        assert(l.groups@.subrange(0, g_count as int) =~= l.groups@);
    }
    let lab_count = l.labels.len();
    let mut keys: Vec<u64> = Vec::new();
    let mut j: usize = 0;
    while j < lab_count
        invariant
            j <= lab_count,
            lab_count == l.labels@.len(),
            l.wf(),
            g_count == l.groups@.len(),
            lab_count > 0 ==> g_count > 0,
            g_count <= 0x2000_0000,
            keys@ == keys_of(l.labels@, l.groups@.len()).subrange(0, j as int),
        decreases lab_count - j,
    {
        let c = checksum(&l.labels[j].name, g_count as u64);
        proof {
            lemma_key_index(c as nat, j as nat);
        }
        let k: u64 = c * 0x1_0000_0000 + j as u64;
        keys.push(k);
        j = j + 1;
        proof {
            assert(keys@ =~= keys_of(l.labels@, l.groups@.len()).subrange(0, j as int));
        }
    }
    proof {
        assert(keys@ =~= keys_of(l.labels@, l.groups@.len()));
    }
    let sorted = sort_keys(&keys);
    proof {
        l.lemma_sorted_keys_in_range();
    }
    let s_count = sorted.len();
    let mut t: usize = 0;
    while t < s_count
        invariant
            t <= s_count,
            s_count == sorted@.len(),
            l.wf(),
            lab_count == l.labels@.len(),
            sorted@ == sort_seq(keys_of(l.labels@, l.groups@.len())),
            forall|q: int|
                0 <= q < s_count ==> 0 <= #[trigger] key_index(sorted@[q]) < l.labels@.len(),
            out@ == old(out)@ + enc32(e, l.groups@.len() as u32) + groups_bytes(e, l.groups@)
                + labels_bytes(e, l.labels@, sorted@.subrange(0, t as int)),
        decreases s_count - t,
    {
        let k = sorted[t];
        let idx = (k % 0x1_0000_0000) as usize;
        assert(idx == key_index(sorted@[t as int]));
        let name_len = l.labels[idx].name.len();
        assert(l.labels@[idx as int].wf());
        out.push(name_len as u8);
        crate::bytes::push_bytes(out, &l.labels[idx].name);
        put32(out, e, idx as u32);
        t = t + 1;
        proof {
            let pre = sorted@.subrange(0, t as int);
            assert(pre.drop_last() =~= sorted@.subrange(0, t - 1));
            assert(pre.last() == sorted@[t - 1]);
            assert(out@ =~= old(out)@ + enc32(e, l.groups@.len() as u32) + groups_bytes(
                e,
                l.groups@,
            ) + labels_bytes(e, l.labels@, pre));
        }
    }
    proof {
        assert(sorted@.subrange(0, s_count as int) =~= sorted@);
        assert(out@ =~= old(out)@ + l.payload(e));
    }
}

} // verus!
