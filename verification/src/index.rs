//! The open-addressed persistent index: hash-prefix slots with skipped
//! counters and key-correction offsets, so that collisions displace entries
//! into later slots without ever moving the ones already placed.

use vstd::prelude::*;
use vstd::arithmetic::power2::{pow2, lemma_pow2_adds, lemma_pow2_pos, lemma2_to64};
use crate::index_item::{IndexItem, IndexEntry, ItemModel, EntryModel, item_bytes, parse_item};
use crate::content_address::ContentAddress;
use crate::content::{Content, same_slot};
use crate::error::Error;
use crate::table::RefCount;

verus! {

/// The most index bits an index may have: the slot array must stay
/// addressable in memory on every supported target, so growth stops here
/// even though a key of `k` bytes could in principle index `8 * k` bits.
/// Once an index reaches this cap a full displacement walk can surface
/// `IndexFull` to the caller instead of growing further.
pub const MAX_INDEX_BITS: usize = 28;

/// The value of the first `n` bytes of `h` read as a little-endian number.
pub open spec fn le_prefix(h: Seq<u8>, n: int) -> int
    decreases n,
{
    if n <= 0 {
        0
    } else {
        le_prefix(h, n - 1) + h[n - 1] * pow2((8 * (n - 1)) as nat)
    }
}

/// The preferred slot of a key under `index_bits` bits: its first bytes as
/// a little-endian number, masked to the index size.
pub open spec fn spec_preferred(h: Seq<u8>, index_bits: int) -> int {
    le_prefix(h, (index_bits + 7) / 8) % pow2(index_bits as nat) as int
}

/// A prefix value fits in as many bits as it has bytes.
proof fn lemma_le_prefix_bound(h: Seq<u8>, n: int)
    requires
        0 <= n <= h.len(),
    ensures
        0 <= le_prefix(h, n) < pow2((8 * n) as nat),
    decreases n,
{
    lemma_pow2_pos((8 * n) as nat);
    if n > 0 {
        lemma_le_prefix_bound(h, n - 1);
        lemma_pow2_adds((8 * (n - 1)) as nat, 8);
        lemma2_to64();
        let p = pow2((8 * (n - 1)) as nat) as int;
        assert(pow2((8 * n) as nat) == p * 256);
        assert(h[n - 1] * p <= 255 * p) by (nonlinear_arith)
            requires
                0 <= h[n - 1] <= 255,
                p >= 0,
        ;
        assert(h[n - 1] * p >= 0) by (nonlinear_arith)
            requires
                h[n - 1] >= 0,
                p >= 0,
        ;
    }
}

/// The open-addressed index of the store.
pub struct Index {
    items: Vec<IndexItem>,
    suffix_len: usize,
    key_bytes: usize,
    index_mask: u64,
    index_bits: usize,
    index_full_bytes: usize,
    item_count: usize,
    item_size: usize,
    skipped_count_watermark: u8,
    key_correction_watermark: usize,
}

/// A pair of index parameters the engine accepts.
pub open spec fn valid_geometry(key_bytes: int, index_bits: int) -> bool {
    &&& 1 <= key_bytes <= 8
    &&& 0 <= index_bits <= 8 * key_bytes
    &&& index_bits <= MAX_INDEX_BITS as int
}

impl Index {
    /// The slots, as models.
    pub closed spec fn view(&self) -> Seq<ItemModel> {
        self.items@.map_values(|it: IndexItem| it@)
    }

    pub closed spec fn spec_key_bytes(&self) -> int {
        self.key_bytes as int
    }

    pub closed spec fn spec_index_bits(&self) -> int {
        self.index_bits as int
    }

    pub closed spec fn spec_suffix_len(&self) -> int {
        self.suffix_len as int
    }

    pub closed spec fn spec_item_count(&self) -> int {
        self.item_count as int
    }

    pub closed spec fn spec_skipped_watermark(&self) -> int {
        self.skipped_count_watermark as int
    }

    pub closed spec fn spec_correction_watermark(&self) -> int {
        self.key_correction_watermark as int
    }

    /// The geometry equations and slot well-formedness.
    pub closed spec fn wf(&self) -> bool {
        &&& valid_geometry(self.key_bytes as int, self.index_bits as int)
        &&& self.index_full_bytes == self.index_bits / 8
        &&& self.suffix_len == self.key_bytes - self.index_full_bytes
        &&& self.item_count as int == pow2(self.index_bits as nat)
        &&& self.index_mask as int == self.item_count - 1
        &&& self.item_size == 7 + self.suffix_len
        &&& self.items@.len() == self.item_count
        &&& forall|i: int| 0 <= i < self@.len() ==> (#[trigger] self@[i]).wf(self.suffix_len as int)
        &&& 1 <= self.item_count
    }

    /// The geometry facts, spelt out for callers.
    pub proof fn lemma_geometry(&self)
        requires
            self.wf(),
        ensures
            valid_geometry(self.spec_key_bytes(), self.spec_index_bits()),
            self.spec_item_count() == pow2(self.spec_index_bits() as nat),
            1 <= self.spec_item_count() <= 0x10000000,
            self.spec_suffix_len() == self.spec_key_bytes() - self.spec_index_bits() / 8,
            self@.len() == self.spec_item_count(),
            forall|i: int|
                0 <= i < self@.len() ==> (#[trigger] self@[i]).wf(self.spec_suffix_len()),
    {
        lemma2_to64();
        vstd::arithmetic::power2::lemma_pow2_strictly_increases(
            self.index_bits as nat,
            29,
        );
    }

    /// A fresh, empty index with the given geometry.
    pub fn anonymous(key_bytes: usize, index_bits: usize) -> (r: Index)
        requires
            valid_geometry(key_bytes as int, index_bits as int),
        ensures
            r.wf(),
            r.spec_key_bytes() == key_bytes,
            r.spec_index_bits() == index_bits,
            forall|i: int|
                0 <= i < r@.len() ==> (#[trigger] r@[i]).entry is None && r@[i].skipped_count
                    == 0,
            r.spec_skipped_watermark() == 0,
            r.spec_correction_watermark() == 0,
    {
        proof {
            lemma2_to64();
            vstd::arithmetic::power2::lemma_pow2_strictly_increases(index_bits as nat, 29);
            lemma_pow2_pos(index_bits as nat);
        }
        let item_count: usize = pow2_usize(index_bits);
        let index_full_bytes: usize = index_bits / 8;
        let suffix_len: usize = key_bytes - index_full_bytes;
        let mut items: Vec<IndexItem> = Vec::new();
        let mut i: usize = 0;
        while i < item_count
            invariant
                i <= item_count,
                items@.len() == i,
                forall|j: int|
                    0 <= j < i ==> (#[trigger] items@[j])@.entry is None && items@[j]@.skipped_count
                        == 0,
            decreases item_count - i,
        {
            items.push(IndexItem::empty());
            i = i + 1;
        }
        let r = Index {
            items,
            suffix_len,
            key_bytes,
            index_mask: (item_count - 1) as u64,
            index_bits,
            index_full_bytes,
            item_count,
            item_size: 7 + suffix_len,
            skipped_count_watermark: 0,
            key_correction_watermark: 0,
        };
        proof {
            assert(8 * (index_bits as int / 8) <= index_bits as int) by {
                vstd::arithmetic::div_mod::lemma_fundamental_div_mod(index_bits as int, 8);
            };
            assert forall|j: int| 0 <= j < r@.len() implies (#[trigger] r@[j]).wf(
                r.suffix_len as int,
            ) by {
                assert(r@[j] == r.items@[j]@);
            }
        }
        r
    }

    /// Opens an index over the record bytes of its file; the image is
    /// normalised to the geometry's length, short images reading as empty
    /// slots, exactly as mapping a freshly-extended file would.
    pub fn open(key_bytes: usize, index_bits: usize, bytes: Vec<u8>) -> (r: Index)
        requires
            valid_geometry(key_bytes as int, index_bits as int),
        ensures
            r.wf(),
            r.spec_key_bytes() == key_bytes,
            r.spec_index_bits() == index_bits,
            r.spec_skipped_watermark() == 0,
            r.spec_correction_watermark() == 0,
            forall|i: int|
                0 <= i < r@.len() && (i + 1) * (7 + r.spec_suffix_len()) <= bytes@.len() ==> (
                #[trigger] r@[i]) == parse_item(
                    bytes@.subrange(
                        i * (7 + r.spec_suffix_len()),
                        (i + 1) * (7 + r.spec_suffix_len()),
                    ),
                    r.spec_suffix_len(),
                ),
            bytes@.len() == 0 ==> forall|i: int|
                0 <= i < r@.len() ==> (#[trigger] r@[i]).entry is None && r@[i].skipped_count
                    == 0,
    {
        proof {
            lemma2_to64();
            if (index_bits as nat) < 28 {
                vstd::arithmetic::power2::lemma_pow2_strictly_increases(index_bits as nat, 28);
            }
            lemma_pow2_pos(index_bits as nat);
        }
        let item_count: usize = pow2_usize(index_bits);
        let index_full_bytes: usize = index_bits / 8;
        let suffix_len: usize = key_bytes - index_full_bytes;
        let item_size: usize = 7 + suffix_len;
        proof {
            assert(item_count <= 0x10000000);
            assert(item_size <= 15);
            vstd::arithmetic::mul::lemma_mul_upper_bound(item_count as int, 0x10000000,
                item_size as int, 15);
        }
        let mut bytes = bytes;
        // Extend with zeroes out to a whole number of records, as mapping a
        // freshly grown file would.
        let ghost given = bytes@;
        let needed: usize = item_count * item_size;
        while bytes.len() < needed
            invariant
                needed == item_count * item_size,
                bytes@.len() >= given.len() ==> bytes@.subrange(0, given.len() as int) == given,
                bytes@.len() >= given.len() || bytes@ == given,
                given.len() == 0 ==> forall|k: int| 0 <= k < bytes@.len() ==> bytes@[k] == 0u8,
            decreases needed - bytes@.len(),
        {
            let ghost before = bytes@;
            bytes.push(0);
            proof {
                assert(bytes@.subrange(0, given.len() as int) =~= given.subrange(
                    0,
                    given.len() as int,
                ));
                assert(given.subrange(0, given.len() as int) =~= given);
            }
        }
        let mut items: Vec<IndexItem> = Vec::new();
        let mut i: usize = 0;
        while i < item_count
            invariant
                valid_geometry(key_bytes as int, index_bits as int),
                index_full_bytes == index_bits / 8,
                suffix_len == key_bytes - index_full_bytes,
                suffix_len <= 8,
                item_size == 7 + suffix_len,
                needed == item_count * item_size,
                item_count <= 0x10000000,
                bytes@.len() >= needed,
                bytes@.len() >= given.len() ==> bytes@.subrange(0, given.len() as int) == given,
                bytes@.len() >= given.len() || bytes@ == given,
                i <= item_count,
                items@.len() == i,
                forall|j: int| 0 <= j < i ==> (#[trigger] items@[j])@.wf(suffix_len as int),
                forall|j: int|
                    0 <= j < i && (j + 1) * item_size <= given.len() ==> (#[trigger] items@[j])@
                        == parse_item(
                        given.subrange(j * item_size, (j + 1) * item_size),
                        suffix_len as int,
                    ),
                given.len() == 0 ==> forall|j: int|
                    0 <= j < i ==> ((#[trigger] items@[j])@.entry is None
                        && items@[j]@.skipped_count == 0),
                given.len() == 0 ==> forall|k: int| 0 <= k < bytes@.len() ==> bytes@[k] == 0u8,
            decreases item_count - i,
        {
            proof {
                vstd::arithmetic::mul::lemma_mul_inequality(
                    i as int + 1,
                    item_count as int,
                    item_size as int,
                );
                vstd::arithmetic::mul::lemma_mul_is_distributive_add_other_way(
                    item_size as int,
                    i as int,
                    1,
                );
                vstd::arithmetic::mul::lemma_mul_nonnegative(i as int, item_size as int);
            }
            let it = IndexItem::decode(&bytes, i * item_size, suffix_len);
            proof {
                if (i as int + 1) * item_size <= given.len() {
                    if bytes@.len() >= given.len() {
                        assert forall|k: int| 0 <= k < given.len() implies bytes@[k] == given[k]
                        by {
                            assert(bytes@.subrange(0, given.len() as int)[k] == bytes@[k]);
                        }
                    }
                    assert(bytes@.subrange(
                        i as int * item_size,
                        i as int * item_size + 7 + suffix_len,
                    ) =~= given.subrange(i as int * item_size, (i as int + 1) * item_size));
                }
            }
            proof {
                if given.len() == 0 {
                    // Every byte is zero, so the record's occupancy word is
                    // zero and its skipped counter too.
                    let sl = suffix_len as int;
                    let off = i as int * item_size;
                    assert(it@ == parse_item(
                        bytes@.subrange(off, off + 7 + sl),
                        sl,
                    ));
                    assert(bytes@.subrange(off, off + 7 + sl)[0] == 0u8);
                    assert(bytes@.subrange(off, off + 7 + sl)[1] == 0u8);
                    assert(bytes@.subrange(off, off + 7 + sl)[2] == 0u8);
                    assert(crate::bytes::le16_val(0u8, 0u8) == 0);
                }
            }
            items.push(it);
            i = i + 1;
        }
        let r = Index {
            items,
            suffix_len,
            key_bytes,
            index_mask: (item_count - 1) as u64,
            index_bits,
            index_full_bytes,
            item_count,
            item_size,
            skipped_count_watermark: 0,
            key_correction_watermark: 0,
        };
        proof {
            assert forall|j: int| 0 <= j < r@.len() implies (#[trigger] r@[j]).wf(
                r.suffix_len as int,
            ) by {
                assert(r@[j] == r.items@[j]@);
            }
            assert forall|j: int|
                0 <= j < r@.len() && (j + 1) * (7 + r.spec_suffix_len()) <= given.len()
                implies (#[trigger] r@[j]) == parse_item(
                given.subrange(j * (7 + r.spec_suffix_len()), (j + 1) * (7 + r.spec_suffix_len())),
                r.spec_suffix_len(),
            ) by {
                assert(r@[j] == r.items@[j]@);
            }
        }
        r
    }

    /// Serialises the index: one record per slot.
    pub fn to_bytes(&self) -> (r: Vec<u8>)
        requires
            self.wf(),
        ensures
            r@.len() == self.spec_item_count() * (7 + self.spec_suffix_len()),
            forall|i: int|
                0 <= i < self@.len() ==> r@.subrange(
                    i * (7 + self.spec_suffix_len()),
                    (i + 1) * (7 + self.spec_suffix_len()),
                ) == item_bytes(#[trigger] self@[i], self.spec_suffix_len()),
    {
        let mut out: Vec<u8> = Vec::new();
        let mut i: usize = 0;
        proof {
            self.lemma_geometry();
        }
        while i < self.item_count
            invariant
                self.wf(),
                i <= self.item_count,
                out@.len() == i * (7 + self.spec_suffix_len()),
                forall|j: int|
                    0 <= j < i ==> out@.subrange(
                        j * (7 + self.spec_suffix_len()),
                        (j + 1) * (7 + self.spec_suffix_len()),
                    ) == item_bytes(#[trigger] self@[j], self.spec_suffix_len()),
            decreases self.spec_item_count() - i,
        {
            let ghost before = out@;
            proof {
                crate::index_item::lemma_item_round_trip(self@[i as int],
                    self.spec_suffix_len());
                assert(self@[i as int] == self.items@[i as int]@);
            }
            self.items[i].encode_to(&mut out, self.suffix_len);
            proof {
                let isz = 7 + self.spec_suffix_len();
                vstd::arithmetic::mul::lemma_mul_is_distributive_add_other_way(isz, i as int, 1);
                assert(out@.subrange(i as int * isz, (i as int + 1) * isz) =~= item_bytes(
                    self@[i as int],
                    self.spec_suffix_len(),
                ));
                assert forall|j: int|
                    0 <= j < i + 1 implies out@.subrange(j * isz, (j + 1) * isz) == item_bytes(
                    #[trigger] self@[j],
                    self.spec_suffix_len(),
                ) by {
                    if j < i {
                        vstd::arithmetic::mul::lemma_mul_inequality(j + 1, i as int, isz);
                        vstd::arithmetic::mul::lemma_mul_is_distributive_add_other_way(isz, j, 1);
                        vstd::arithmetic::mul::lemma_mul_nonnegative(j, isz);
                        assert(out@.subrange(j * isz, (j + 1) * isz) =~= before.subrange(
                            j * isz,
                            (j + 1) * isz,
                        ));
                    }
                }
            }
            i = i + 1;
        }
        out
    }

    /// The key width currently persisted with the index.
    pub fn key_bytes_value(&self) -> (r: usize)
        ensures
            r == self.spec_key_bytes(),
    {
        self.key_bytes
    }

    /// The index bit width currently persisted with the index.
    pub fn index_bits_value(&self) -> (r: usize)
        ensures
            r == self.spec_index_bits(),
    {
        self.index_bits
    }

    /// The sizes the index would take after one growth step: one more index
    /// bit, with the key bytes widened to contain it.
    pub fn next_size(&self) -> (r: (usize, usize))
        requires
            self.wf(),
        ensures
            r.1 == self.spec_index_bits() + 1,
            r.0 == (if self.spec_key_bytes() >= (self.spec_index_bits() + 1 + 7) / 8 {
                self.spec_key_bytes()
            } else {
                (self.spec_index_bits() + 1 + 7) / 8
            }),
    {
        let index_bits = self.index_bits + 1;
        let needed = (index_bits + 7) / 8;
        let key_bytes = if self.key_bytes >= needed {
            self.key_bytes
        } else {
            needed
        };
        (key_bytes, index_bits)
    }

    /// Reads the two watermarks without resetting them.
    pub(crate) fn watermarks(&self) -> (r: (u8, usize))
        ensures
            r.0 == self.spec_skipped_watermark(),
            r.1 == self.spec_correction_watermark(),
    {
        (self.skipped_count_watermark, self.key_correction_watermark)
    }

    /// Returns and resets the two watermarks: the highest skipped counter
    /// and the highest key correction seen since the last call.
    pub fn take_watermarks(&mut self) -> (r: (u8, usize))
        requires
            old(self).wf(),
        ensures
            final(self).wf(),
            r.0 == old(self).spec_skipped_watermark(),
            r.1 == old(self).spec_correction_watermark(),
            final(self).spec_skipped_watermark() == 0,
            final(self).spec_correction_watermark() == 0,
            final(self)@ == old(self)@,
            final(self).spec_key_bytes() == old(self).spec_key_bytes(),
            final(self).spec_index_bits() == old(self).spec_index_bits(),
    {
        let r = (self.skipped_count_watermark, self.key_correction_watermark);
        self.skipped_count_watermark = 0;
        self.key_correction_watermark = 0;
        proof {
            assert(self.items@ == old(self).items@);
            assert(self@ =~= old(self)@);
        }
        r
    }
}

/// Whether an address currently stores the given full key.
pub open spec fn content_key_matches(con: Content, a: ContentAddress, key: Seq<u8>) -> bool {
    con.spec_at(a) is Some && con.spec_at(a)->Some_0.key == key
}

/// Whether a slot holds an entry with the given correction and suffix.
pub open spec fn slot_matches(m: ItemModel, c: int, suffix: Seq<u8>) -> bool {
    m.entry is Some && m.entry->Some_0.key_correction == c && m.entry->Some_0.key_suffix == suffix
}

/// What the lookup walk finds, starting at correction `c` with `fuel`
/// probes left: the first entry whose correction and suffix match and whose
/// content holds the full key; nothing once a slot's skipped counter is
/// zero.
pub open spec fn spec_find_from(
    v: Seq<ItemModel>,
    n: int,
    pref: int,
    suffix: Seq<u8>,
    key: Seq<u8>,
    con: Content,
    c: int,
    fuel: nat,
) -> Option<ContentAddress>
    decreases fuel,
{
    if fuel == 0 {
        None
    } else {
        let m = v[(pref + c) % n];
        if slot_matches(m, c, suffix) && content_key_matches(con, m.entry->Some_0.address, key) {
            Some(m.entry->Some_0.address)
        } else if m.skipped_count == 0 {
            None
        } else {
            spec_find_from(v, n, pref, suffix, key, con, c + 1, (fuel - 1) as nat)
        }
    }
}

/// What the insert walk decides: bump an existing entry, insert into the
/// first empty slot, or give up because a counter or the probe bound would
/// overflow.
pub enum EditOutcome {
    Bump(ContentAddress, int),
    Insert(int, int),
    Full,
}

/// The insert walk from correction `c` with `fuel` probes left.
pub open spec fn spec_edit_from(
    v: Seq<ItemModel>,
    n: int,
    pref: int,
    suffix: Seq<u8>,
    key: Seq<u8>,
    con: Content,
    c: int,
    fuel: nat,
) -> EditOutcome
    decreases fuel,
{
    if fuel == 0 {
        EditOutcome::Full
    } else {
        let m = v[(pref + c) % n];
        if m.entry is Some {
            if slot_matches(m, c, suffix) && content_key_matches(con, m.entry->Some_0.address,
                key) {
                EditOutcome::Bump(m.entry->Some_0.address, c)
            } else if m.skipped_count == 255 {
                EditOutcome::Full
            } else {
                spec_edit_from(v, n, pref, suffix, key, con, c + 1, (fuel - 1) as nat)
            }
        } else {
            EditOutcome::Insert((pref + c) % n, c)
        }
    }
}

/// What the removal walk finds: the address and correction of the first
/// full-key match, if the walk reaches one.
pub open spec fn spec_remove_from(
    v: Seq<ItemModel>,
    n: int,
    pref: int,
    suffix: Seq<u8>,
    key: Seq<u8>,
    con: Content,
    c: int,
    fuel: nat,
) -> Option<(ContentAddress, int)>
    decreases fuel,
{
    if fuel == 0 {
        None
    } else {
        let m = v[(pref + c) % n];
        if slot_matches(m, c, suffix) && content_key_matches(con, m.entry->Some_0.address, key) {
            Some((m.entry->Some_0.address, c))
        } else if m.skipped_count == 0 {
            None
        } else {
            spec_remove_from(v, n, pref, suffix, key, con, c + 1, (fuel - 1) as nat)
        }
    }
}

/// Whether slot `i` lies on the walk of the first `c` corrections from
/// `pref`.
pub open spec fn walked(pref: int, c: int, n: int, i: int) -> bool {
    exists|j: int| 0 <= j < c && #[trigger] ((pref + j) % n) == i
}

/// The little-endian bytes of `v`, `count` of them: the key prefix a slot
/// position implies.
pub open spec fn le_bytes_of(v: int, count: int) -> Seq<u8>
    decreases count,
{
    if count <= 0 {
        Seq::empty()
    } else {
        seq![(v % 256) as u8] + le_bytes_of(v / 256, count - 1)
    }
}

/// The largest skipped counter an insert walk of `c` steps from `pref`
/// leaves behind: each walked slot's starting counter plus the one bump
/// the walk gives it. Zero for an empty walk.
pub open spec fn walk_skipped_max(v: Seq<ItemModel>, n: int, pref: int, c: int) -> int
    decreases c,
{
    if c <= 0 {
        0
    } else {
        let s = v[(pref + (c - 1)) % n].skipped_count + 1;
        let m = walk_skipped_max(v, n, pref, c - 1);
        if s > m {
            s
        } else {
            m
        }
    }
}

/// One insert walk over slot models, as `insert_at` performs it: each
/// occupied slot walked past gets one skipped bump, a counter already at
/// its ceiling or a walk that exhausts its bound fails, and the first
/// empty slot takes the entry with the accumulated correction.
pub open spec fn spec_insert_walk(
    v: Seq<ItemModel>,
    n: int,
    bound: int,
    pref: int,
    suffix: Seq<u8>,
    address: ContentAddress,
    c: int,
) -> Result<Seq<ItemModel>, ()>
    decreases bound - c,
{
    if c >= bound {
        Err(())
    } else {
        let idx = (pref + c) % n;
        if v[idx].entry is Some {
            if v[idx].skipped_count == 255 {
                Err(())
            } else {
                spec_insert_walk(
                    v.update(
                        idx,
                        (ItemModel {
                            skipped_count: (v[idx].skipped_count + 1) as u8,
                            entry: v[idx].entry,
                        }),
                    ),
                    n,
                    bound,
                    pref,
                    suffix,
                    address,
                    c + 1,
                )
            }
        } else {
            Ok(
                v.update(
                    idx,
                    (ItemModel {
                        skipped_count: v[idx].skipped_count,
                        entry: Some(
                            (EntryModel { key_correction: c, key_suffix: suffix, address }),
                        ),
                    }),
                ),
            )
        }
    }
}

/// The whole rebuild `from_existing` performs, one source slot at a time.
/// A narrow geometry re-places each entry under the partial key its slot
/// and suffix imply, zero-padded to eight bytes; a widening one recovers
/// the full key from the content layer and drops entries whose address
/// holds nothing. It fails exactly when an insert walk does.
pub open spec fn spec_rebuild_from(
    src: Seq<ItemModel>,
    n_src: int,
    src_bits: int,
    content: Content,
    n_new: int,
    new_bits: int,
    new_kb: int,
    narrow: bool,
    i: int,
    acc: Seq<ItemModel>,
) -> Result<Seq<ItemModel>, ()>
    decreases n_src - i,
{
    let bound = if n_new < 32768 {
        n_new
    } else {
        32768
    };
    if i >= n_src {
        Ok(acc)
    } else {
        match src[i].entry {
            None => spec_rebuild_from(src, n_src, src_bits, content, n_new, new_bits, new_kb,
                narrow, i + 1, acc),
            Some(e) => {
                if narrow {
                    let corr_m = e.key_correction % n_src;
                    let pref_old = (i + n_src - corr_m) % n_src;
                    let partial = le_bytes_of(pref_old, src_bits / 8) + e.key_suffix;
                    let padded = partial + Seq::new((8 - partial.len()) as nat, |q: int| 0u8);
                    let pref = spec_preferred(padded, new_bits);
                    let sfx = padded.subrange(new_bits / 8, new_kb);
                    match spec_insert_walk(acc, n_new, bound, pref, sfx, e.address, 0) {
                        Ok(acc2) => spec_rebuild_from(src, n_src, src_bits, content, n_new,
                            new_bits, new_kb, narrow, i + 1, acc2),
                        Err(()) => Err(()),
                    }
                } else {
                    match content.spec_at(e.address) {
                        None => spec_rebuild_from(src, n_src, src_bits, content, n_new,
                            new_bits, new_kb, narrow, i + 1, acc),
                        Some(sm) => {
                            let pref = spec_preferred(sm.key, new_bits);
                            let sfx = sm.key.subrange(new_bits / 8, new_kb);
                            match spec_insert_walk(acc, n_new, bound, pref, sfx, e.address, 0) {
                                Ok(acc2) => spec_rebuild_from(src, n_src, src_bits, content,
                                    n_new, new_bits, new_kb, narrow, i + 1, acc2),
                                Err(()) => Err(()),
                            }
                        }
                    }
                }
            }
        }
    }
}

/// Distinct walk steps within one revolution land on distinct slots.
pub proof fn lemma_probe_distinct(n: int, pref: int, a: int, b: int)
    requires
        0 < n,
        0 <= a < b,
        b - a < n,
        pref >= 0,
    ensures
        (pref + a) % n != (pref + b) % n,
{
    let x = pref + a;
    let y = pref + b;
    vstd::arithmetic::div_mod::lemma_fundamental_div_mod(x, n);
    vstd::arithmetic::div_mod::lemma_fundamental_div_mod(y, n);
    if x % n == y % n {
        assert(y - x == n * (y / n - x / n)) by (nonlinear_arith)
            requires
                y == n * (y / n) + y % n,
                x == n * (x / n) + x % n,
                x % n == y % n,
        ;
        assert(false) by (nonlinear_arith)
            requires
                y - x == n * (y / n - x / n),
                0 < y - x < n,
        ;
    }
}

/// A found result of the lookup walk really holds the key.
pub proof fn lemma_find_matches(
    v: Seq<ItemModel>,
    n: int,
    pref: int,
    suffix: Seq<u8>,
    key: Seq<u8>,
    con: Content,
    c: int,
    fuel: nat,
)
    requires
        spec_find_from(v, n, pref, suffix, key, con, c, fuel) is Some,
    ensures
        content_key_matches(
            con,
            spec_find_from(v, n, pref, suffix, key, con, c, fuel)->Some_0,
            key,
        ),
    decreases fuel,
{
    if fuel > 0 {
        let m = v[(pref + c) % n];
        if slot_matches(m, c, suffix) && content_key_matches(con, m.entry->Some_0.address, key) {
        } else if m.skipped_count == 0 {
        } else {
            lemma_find_matches(v, n, pref, suffix, key, con, c + 1, (fuel - 1) as nat);
        }
    }
}

impl Index {
    /// The preferred slot and the key suffix of a hash under this index's
    /// geometry.
    pub fn index_suffix_of(&self, hash: &Vec<u8>) -> (r: (usize, Vec<u8>))
        requires
            self.wf(),
            hash@.len() >= self.spec_key_bytes(),
        ensures
            r.0 == spec_preferred(hash@, self.spec_index_bits()),
            r.0 < self.spec_item_count(),
            r.1@ == hash@.subrange(
                self.spec_index_bits() / 8,
                self.spec_key_bytes(),
            ),
    {
        proof {
            self.lemma_geometry();
            lemma2_to64();
        }
        let nbytes: usize = (self.index_bits + 7) / 8;
        let mut acc: u64 = 0;
        let mut k: usize = 0;
        while k < nbytes
            invariant
                self.wf(),
                hash@.len() >= self.spec_key_bytes(),
                nbytes == (self.spec_index_bits() + 7) / 8,
                nbytes <= self.spec_key_bytes(),
                k <= nbytes,
                acc == le_prefix(hash@, k as int),
                acc < pow2((8 * k) as nat),
            decreases nbytes - k,
        {
            proof {
                lemma_le_prefix_bound(hash@, k as int + 1);
                lemma_pow2_adds((8 * k) as nat, 8);
                lemma2_to64();
                vstd::arithmetic::power2::lemma_pow2_strictly_increases((8 * k + 8) as nat, 64);
                vstd::bits::lemma_u64_shl_is_mul(hash@[k as int] as u64, (8 * k) as u64);
                assert((hash@[k as int] as u64) * pow2((8 * k) as nat) <= 255 * pow2(
                    (8 * k) as nat,
                )) by (nonlinear_arith)
                    requires
                        hash@[k as int] <= 255,
                        pow2((8 * k) as nat) >= 0,
                ;
            }
            acc = acc + ((hash[k] as u64) << ((8 * k) as u64));
            k = k + 1;
        }
        let pref: u64 = acc & self.index_mask;
        proof {
            lemma_pow2_pos(self.index_bits as nat);
            vstd::arithmetic::power2::lemma_pow2_strictly_increases(
                self.index_bits as nat,
                64,
            );
            assert(self.index_mask as int == pow2(self.index_bits as nat) - 1);
            assert(vstd::bits::low_bits_mask(self.index_bits as nat) == pow2(
                self.index_bits as nat,
            ) - 1);
            assert(self.index_mask == vstd::bits::low_bits_mask(self.index_bits as nat) as u64);
            vstd::bits::lemma_u64_low_bits_mask_is_mod(acc, self.index_bits as nat);
            vstd::arithmetic::div_mod::lemma_mod_division_less_than_divisor(
                acc as int,
                pow2(self.index_bits as nat) as int,
            );
            assert((acc % (pow2(self.index_bits as nat) as u64)) as int == acc as int % (pow2(
                self.index_bits as nat,
            ) as int));
        }
        let suffix = crate::bytes::read_bytes(hash, self.index_full_bytes,
            self.key_bytes - self.index_full_bytes);
        (pref as usize, suffix)
    }

    /// The first part of the key that a slot position implies, completed
    /// with a suffix: the partial key an entry stands for. A partial
    /// reversion of `index_suffix_of`.
    pub fn key_prefix(&self, index: usize, suffix: &Vec<u8>) -> (r: Vec<u8>)
        requires
            self.wf(),
            suffix@.len() == self.spec_suffix_len(),
        ensures
            r@.len() == self.spec_key_bytes(),
            r@.subrange(self.spec_index_bits() / 8, self.spec_key_bytes()) == suffix@,
            r@ == le_bytes_of(index as int, self.spec_index_bits() / 8) + suffix@,
    {
        let mut out: Vec<u8> = Vec::new();
        let mut k: usize = 0;
        let mut v: u64 = index as u64;
        let ghost ib = self.spec_index_bits() / 8;
        while k < self.index_full_bytes
            invariant
                k <= self.index_full_bytes,
                out@.len() == k,
                ib == self.spec_index_bits() / 8,
                self.index_full_bytes == ib,
                le_bytes_of(index as int, ib) == out@ + le_bytes_of(v as int, ib - k),
            decreases self.index_full_bytes - k,
        {
            let ghost v0k = v as int;
            let ghost out0 = out@;
            out.push((v % 256) as u8);
            v = v / 256;
            k = k + 1;
            proof {
                assert(le_bytes_of(v0k, ib - (k - 1)) == seq![(v0k % 256) as u8] + le_bytes_of(
                    v0k / 256,
                    ib - k,
                ));
                assert(out0 + le_bytes_of(v0k, ib - (k - 1)) =~= out@ + le_bytes_of(
                    v as int,
                    ib - k,
                ));
            }
        }
        proof {
            assert(le_bytes_of(index as int, ib) =~= out@);
        }
        crate::bytes::push_bytes(&mut out, suffix);
        proof {
            assert(out@.subrange(
                self.spec_index_bits() / 8,
                self.spec_key_bytes(),
            ) =~= suffix@);
        }
        out
    }
}

impl Index {
    /// Looks a key up: walks from its preferred slot, following positive
    /// skipped counters, until an entry matches the key's correction and
    /// suffix and the content layer confirms the full key.
    pub fn find(&self, hash: &Vec<u8>, content: &Content) -> (r: Option<ContentAddress>)
        requires
            self.wf(),
            content.wf(),
            hash@.len() >= self.spec_key_bytes(),
        ensures
            ({
                let n = self.spec_item_count();
                let pref = spec_preferred(hash@, self.spec_index_bits());
                let sfx = hash@.subrange(self.spec_index_bits() / 8, self.spec_key_bytes());
                r == spec_find_from(self@, n, pref, sfx, hash@, *content, 0, n as nat)
            }),
            r is Some ==> content_key_matches(*content, r->Some_0, hash@),
    {
        proof {
            self.lemma_geometry();
        }
        let (pref, suffix) = self.index_suffix_of(hash);
        let ghost n = self.spec_item_count();
        let ghost sfx = hash@.subrange(self.spec_index_bits() / 8, self.spec_key_bytes());
        let mut c: usize = 0;
        while c < self.item_count
            invariant
                self.wf(),
                content.wf(),
                hash@.len() >= self.spec_key_bytes(),
                n == self.spec_item_count(),
                pref == spec_preferred(hash@, self.spec_index_bits()),
                pref < n,
                suffix@ == sfx,
                sfx == hash@.subrange(self.spec_index_bits() / 8, self.spec_key_bytes()),
                c <= n,
                spec_find_from(self@, n, pref as int, sfx, hash@, *content, 0, n as nat)
                    == spec_find_from(
                    self@,
                    n,
                    pref as int,
                    sfx,
                    hash@,
                    *content,
                    c as int,
                    (n - c) as nat,
                ),
            decreases self.spec_item_count() - c,
        {
            proof {
                self.lemma_geometry();
            }
            let idx: usize = (pref + c) % self.item_count;
            proof {
                assert(self@[idx as int] == self.items@[idx as int]@);
            }
            let item = &self.items[idx];
            match &item.maybe_entry {
                Some(entry) => {
                    if entry.key_correction == c && crate::bytes::bytes_eq(&entry.key_suffix,
                        &suffix) {
                        match content.item_hash(&entry.address) {
                            Ok(k) => {
                                if crate::bytes::bytes_eq(&k, hash) {
                                    proof {
                                        lemma_find_matches(self@, n, pref as int, sfx, hash@,
                                            *content, 0, n as nat);
                                    }
                                    return Some(entry.address);
                                }
                            }
                            Err(()) => {}
                        }
                    }
                }
                None => {}
            }
            if item.skipped_count == 0 {
                return None;
            }
            c = c + 1;
        }
        None
    }

    /// Decrement the skipped counters along the walk of `count` slots from
    /// `begin`, as far as they are positive.
    fn decrement_skip_counts(&mut self, begin: usize, count: usize)
        requires
            old(self).wf(),
            begin < old(self).spec_item_count(),
            count <= old(self).spec_item_count(),
        ensures
            final(self).wf(),
            final(self).spec_key_bytes() == old(self).spec_key_bytes(),
            final(self).spec_index_bits() == old(self).spec_index_bits(),
            final(self).spec_item_count() == old(self).spec_item_count(),
            final(self).spec_suffix_len() == old(self).spec_suffix_len(),
            final(self)@.len() == old(self)@.len(),
            forall|i: int|
                0 <= i < final(self)@.len() ==> (#[trigger] final(self)@[i]).entry == old(
                    self,
                )@[i].entry,
            forall|i: int|
                0 <= i < final(self)@.len() ==> (#[trigger] final(self)@[i]).skipped_count == (
                if walked(begin as int, count as int, old(self).spec_item_count(), i) && old(
                    self,
                )@[i].skipped_count >= 1 {
                    old(self)@[i].skipped_count - 1
                } else {
                    old(self)@[i].skipped_count as int
                }),
    {
        let ghost n = self.spec_item_count();
        let mut j: usize = 0;
        while j < count
            invariant
                self.wf(),
                begin < n,
                count <= n,
                n == self.spec_item_count(),
                self.spec_key_bytes() == old(self).spec_key_bytes(),
                self.spec_index_bits() == old(self).spec_index_bits(),
                self.spec_suffix_len() == old(self).spec_suffix_len(),
                self@.len() == old(self)@.len(),
                j <= count,
                forall|i: int|
                    0 <= i < self@.len() ==> (#[trigger] self@[i]).entry == old(self)@[i].entry,
                forall|i: int|
                    0 <= i < self@.len() ==> (#[trigger] self@[i]).skipped_count == (
                    if walked(begin as int, j as int, n, i) && old(self)@[i].skipped_count >= 1 {
                        old(self)@[i].skipped_count - 1
                    } else {
                        old(self)@[i].skipped_count as int
                    }),
            decreases count - j,
        {
            proof {
                self.lemma_geometry();
            }
            let idx: usize = (begin + j) % self.item_count;
            let ghost before = self@;
            proof {
                // This slot has not been visited yet: earlier steps hit
                // other positions.
                assert(!walked(begin as int, j as int, n, idx as int)) by {
                    if walked(begin as int, j as int, n, idx as int) {
                        let jj = choose|jj: int|
                            0 <= jj < j && #[trigger] ((begin as int + jj) % n) == idx as int;
                        lemma_probe_distinct(n, begin as int, jj, j as int);
                    }
                };
                assert(self@[idx as int] == self.items@[idx as int]@);
            }
            let it = &mut self.items[idx];
            if it.skipped_count > 0 {
                it.skipped_count = it.skipped_count - 1;
            }
            proof {
                assert forall|i: int|
                    0 <= i < self@.len() implies (#[trigger] self@[i]).skipped_count == (
                if walked(begin as int, (j + 1) as int, n, i) && old(self)@[i].skipped_count
                    >= 1 {
                    old(self)@[i].skipped_count - 1
                } else {
                    old(self)@[i].skipped_count as int
                }) by {
                    if i == idx as int {
                        assert(walked(begin as int, (j + 1) as int, n, i)) by {
                            assert((begin as int + j) % n == idx as int);
                        };
                    } else {
                        assert(self@[i] == before[i]);
                        assert(walked(begin as int, (j + 1) as int, n, i) == walked(
                            begin as int,
                            j as int,
                            n,
                            i,
                        )) by {
                            if walked(begin as int, (j + 1) as int, n, i) {
                                let jj = choose|jj: int|
                                    0 <= jj < j + 1 && #[trigger] ((begin as int + jj) % n)
                                        == i;
                                if jj < j {
                                    assert(walked(begin as int, j as int, n, i));
                                }
                            }
                        };
                    }
                }
                assert forall|i: int|
                    0 <= i < self@.len() implies (#[trigger] self@[i]).entry == old(
                    self,
                )@[i].entry by {
                    if i != idx as int {
                        assert(self@[i] == before[i]);
                    }
                }
                assert forall|i: int| 0 <= i < self@.len() implies (#[trigger] self@[i]).wf(
                    self.suffix_len as int,
                ) by {
                    if i != idx as int {
                        assert(self@[i] == before[i]);
                    } else {
                        assert(before[i].wf(self.suffix_len as int));
                    }
                }
            }
            j = j + 1;
        }
    }
}

impl Index {
    /// Insert or bump a key. Walks from the key's preferred slot: an entry
    /// whose correction, suffix and full key match gets its reference
    /// bumped; the first empty slot takes a fresh entry with the payload
    /// emplaced in the content layer; every slot walked past has its
    /// skipped counter raised. `IndexFull` when a counter or the probe
    /// bound would overflow.
    #[verifier::rlimit(100)]
    pub fn edit_in(&mut self, hash: &Vec<u8>, data: &Vec<u8>, content: &mut Content) -> (r:
        Result<RefCount, Error>)
        requires
            old(self).wf(),
            old(content).wf(),
            hash@.len() >= old(self).spec_key_bytes(),
            hash@.len() == old(content).spec_key_len(),
            data@.len() <= 0xFFFF_FFF0_0000_0000,
        ensures
            final(self).wf(),
            final(content).wf(),
            final(content).spec_key_len() == old(content).spec_key_len(),
            final(self).spec_key_bytes() == old(self).spec_key_bytes(),
            final(self).spec_index_bits() == old(self).spec_index_bits(),
            final(self).spec_item_count() == old(self).spec_item_count(),
            final(self)@.len() == old(self)@.len(),
            forall|i: int|
                0 <= i < final(self)@.len() ==> (#[trigger] final(self)@[i]).skipped_count >= old(
                    self,
                )@[i].skipped_count,
            ({
                let n = old(self).spec_item_count();
                let pref = spec_preferred(hash@, old(self).spec_index_bits());
                let sfx = hash@.subrange(
                    old(self).spec_index_bits() / 8,
                    old(self).spec_key_bytes(),
                );
                let fuel = if n < 32768 {
                    n
                } else {
                    32768
                };
                match spec_edit_from(old(self)@, n, pref, sfx, hash@, *old(content), 0,
                    fuel as nat) {
                    EditOutcome::Bump(a, c) => {
                        &&& (old(content).spec_at(a)->Some_0.ref_count < 0x7FFF ==> {
                            &&& r == Ok::<RefCount, Error>(
                                ((old(content).spec_at(a)->Some_0.ref_count + 1) as u16),
                            )
                            &&& final(content).spec_at(a) == Some(
                                (crate::table::SlotModel {
                                    ref_count: (old(content).spec_at(a)->Some_0.ref_count
                                        + 1) as nat,
                                    ..old(content).spec_at(a)->Some_0
                                }),
                            )
                            &&& forall|a2: ContentAddress|
                                !same_slot(a2, a) ==> (#[trigger] final(content).spec_at(a2))
                                    == old(content).spec_at(a2)
                        })
                        &&& (old(content).spec_at(a)->Some_0.ref_count >= 0x7FFF ==> {
                            &&& r == Err::<RefCount, Error>(Error::Io)
                            &&& forall|a2: ContentAddress|
                                final(content).spec_at(a2) == old(content).spec_at(a2)
                        })
                        &&& forall|i: int|
                            0 <= i < final(self)@.len() ==> (#[trigger] final(self)@[i]).entry
                                == old(self)@[i].entry
                        &&& forall|j: int|
                            0 <= j < c ==> (#[trigger] final(self)@[(pref + j) % n]).skipped_count
                                >= 1
                        &&& (c == 0 ==> final(self)@ == old(self)@ && final(self).spec_skipped_watermark() == old(self).spec_skipped_watermark() && final(self).spec_correction_watermark() == old(self).spec_correction_watermark())
                        // Each walked slot's counter went up by exactly
                        // one; the watermarks record the maxima seen.
                        &&& forall|i: int|
                            0 <= i < final(self)@.len() ==> (#[trigger] final(self)@[
                                i]).skipped_count == (if walked(pref, c, n, i) {
                                old(self)@[i].skipped_count + 1
                            } else {
                                old(self)@[i].skipped_count as int
                            })
                        &&& final(self).spec_skipped_watermark() == (if walk_skipped_max(
                            old(self)@,
                            n,
                            pref,
                            c,
                        ) > old(self).spec_skipped_watermark() {
                            walk_skipped_max(old(self)@, n, pref, c)
                        } else {
                            old(self).spec_skipped_watermark()
                        })
                        &&& final(self).spec_correction_watermark() == (if c > old(
                            self,
                        ).spec_correction_watermark() {
                            c
                        } else {
                            old(self).spec_correction_watermark()
                        })
                    }
                    EditOutcome::Insert(slot, c) => {
                        ||| (r == Ok::<RefCount, Error>(1u16) && final(self)@[slot].skipped_count
                            == old(self)@[slot].skipped_count && (c == 0 ==> final(self).spec_skipped_watermark() == old(self).spec_skipped_watermark() && final(self).spec_correction_watermark() == old(self).spec_correction_watermark())
                            && (exists|a: ContentAddress|
                            {
                                &&& a.valid()
                                &&& old(content).spec_at(a) is None
                                &&& final(content).spec_at(a) == Some(
                                    (crate::table::SlotModel {
                                        key: hash@,
                                        data: data@,
                                        ref_count: 1,
                                    }),
                                )
                                &&& (forall|a2: ContentAddress|
                                    !same_slot(a2, a) ==> (#[trigger] final(content).spec_at(a2))
                                        == old(content).spec_at(a2))
                                &&& (#[trigger] final(self)@[slot]).entry == Some(
                                    (EntryModel { key_correction: c, key_suffix: sfx, address: a }),
                                )
                                &&& (forall|i: int|
                                    0 <= i < final(self)@.len() && i != slot
                                        ==> (#[trigger] final(self)@[i]).entry
                                        == old(self)@[i].entry)
                                &&& (forall|j: int|
                                    0 <= j < c ==> (#[trigger] final(self)@[(pref + j)
                                        % n]).skipped_count >= 1)
                            }) && (forall|i: int|
                            0 <= i < final(self)@.len() && i != slot ==> (#[trigger] final(self)@[i]).skipped_count == (if walked(pref, c, n, i) {
                                old(self)@[i].skipped_count + 1
                            } else {
                                old(self)@[i].skipped_count as int
                            })) && final(self).spec_skipped_watermark() == (if walk_skipped_max(
                            old(self)@,
                            n,
                            pref,
                            c,
                        ) > old(self).spec_skipped_watermark() {
                            walk_skipped_max(old(self)@, n, pref, c)
                        } else {
                            old(self).spec_skipped_watermark()
                        }) && final(self).spec_correction_watermark() == (if c > old(
                            self,
                        ).spec_correction_watermark() {
                            c
                        } else {
                            old(self).spec_correction_watermark()
                        }))
                        ||| (r == Err::<RefCount, Error>(Error::Io) && final(self)@ == old(self)@
                            && (forall|a2: ContentAddress|
                            final(content).spec_at(a2) == old(content).spec_at(a2)) && (exists|
                            z: int,
                        |
                            0 <= z < 64 && (#[trigger] old(content).spec_tables_of(z))
                                >= 0x4000000int / crate::content_address::entries_of(
                                crate::content::spec_class_of(z),
                            )))
                    }
                    EditOutcome::Full => {
                        &&& r == Err::<RefCount, Error>(Error::IndexFull)
                        &&& *final(content) == *old(content)
                        &&& forall|i: int|
                            0 <= i < final(self)@.len() ==> (#[trigger] final(self)@[i]).entry
                                == old(self)@[i].entry
                    }
                }
            }),
    {
        proof {
            self.lemma_geometry();
        }
        let (pref, suffix) = self.index_suffix_of(hash);
        let ghost n = self.spec_item_count();
        let ghost sfx = hash@.subrange(self.spec_index_bits() / 8, self.spec_key_bytes());
        let ghost v0 = self@;
        let ghost con0 = *content;
        let bound: usize = if self.item_count < 32768 {
            self.item_count
        } else {
            32768
        };
        let mut c: usize = 0;
        while c < bound
            invariant
                self.wf(),
                content.wf(),
                hash@.len() >= self.spec_key_bytes(),
                hash@.len() == content.spec_key_len(),
                data@.len() <= 0xFFFF_FFF0_0000_0000,
                n == self.spec_item_count(),
                n == old(self).spec_item_count(),
                self.spec_key_bytes() == old(self).spec_key_bytes(),
                self.spec_index_bits() == old(self).spec_index_bits(),
                self.spec_suffix_len() == old(self).spec_suffix_len(),
                content.spec_key_len() == old(content).spec_key_len(),
                v0 == old(self)@,
                con0 == *old(content),
                *content == con0,
                pref == spec_preferred(hash@, self.spec_index_bits()),
                pref < n,
                suffix@ == sfx,
                sfx == hash@.subrange(self.spec_index_bits() / 8, self.spec_key_bytes()),
                bound == (if n < 32768 {
                    n
                } else {
                    32768
                }),
                c <= bound,
                bound <= n,
                self@.len() == v0.len(),
                forall|i: int|
                    0 <= i < self@.len() ==> (#[trigger] self@[i]).entry == v0[i].entry,
                forall|i: int|
                    0 <= i < self@.len() ==> (#[trigger] self@[i]).skipped_count == (if walked(
                        pref as int,
                        c as int,
                        n,
                        i,
                    ) {
                        v0[i].skipped_count + 1
                    } else {
                        v0[i].skipped_count as int
                    }),
                forall|j: int|
                    0 <= j < c ==> (#[trigger] self@[(pref as int + j) % n]).skipped_count >= 1,
                c == 0 ==> self.spec_skipped_watermark() == old(self).spec_skipped_watermark()
                    && self.spec_correction_watermark() == old(
                    self,
                ).spec_correction_watermark(),
                self.spec_skipped_watermark() == (if walk_skipped_max(v0, n, pref as int,
                    c as int) > old(self).spec_skipped_watermark() {
                    walk_skipped_max(v0, n, pref as int, c as int)
                } else {
                    old(self).spec_skipped_watermark()
                }),
                self.spec_correction_watermark() == (if c as int > old(
                    self,
                ).spec_correction_watermark() {
                    c as int
                } else {
                    old(self).spec_correction_watermark()
                }),
                spec_edit_from(v0, n, pref as int, sfx, hash@, con0, 0, bound as nat)
                    == spec_edit_from(v0, n, pref as int, sfx, hash@, con0, c as int, (bound
                    - c) as nat),
            decreases bound - c,
        {
            proof {
                self.lemma_geometry();
            }
            let idx: usize = (pref + c) % self.item_count;
            proof {
                assert(self@[idx as int] == self.items@[idx as int]@);
                // The walk has not passed this slot yet, so it still reads
                // as it did at the start.
                assert(!walked(pref as int, c as int, n, idx as int)) by {
                    if walked(pref as int, c as int, n, idx as int) {
                        let jj = choose|jj: int|
                            0 <= jj < c && #[trigger] ((pref as int + jj) % n) == idx as int;
                        lemma_probe_distinct(n, pref as int, jj, c as int);
                    }
                };
            }
            let is_occupied: bool = self.items[idx].maybe_entry.is_some();
            if is_occupied {
                let candidate: bool = match &self.items[idx].maybe_entry {
                    Some(entry) => entry.key_correction == c && crate::bytes::bytes_eq(
                        &entry.key_suffix,
                        &suffix,
                    ),
                    None => false,
                };
                if candidate {
                    let address: ContentAddress = match &self.items[idx].maybe_entry {
                        Some(entry) => entry.address,
                        None => ContentAddress {
                            datum_size: crate::datum_size::DatumSize::Oversize,
                            content_table: 0,
                            entry_index: 0,
                        },
                    };
                    let current: Option<RefCount> = match content.item_ref_count(&address,
                        Some(hash)) {
                        Ok(rc0) => Some(rc0),
                        Err(()) => None,
                    };
                    match current {
                        Some(rc0) => {
                            proof {
                                assert(slot_matches(v0[idx as int], c as int, sfx));
                                assert(content_key_matches(con0, address, hash@));
                                assert(spec_edit_from(v0, n, pref as int, sfx, hash@, con0,
                                    c as int, (bound - c) as nat) == EditOutcome::Bump(address,
                                    c as int));
                            }
                            proof {
                                if c == 0 {
                                    assert forall|i: int| 0 <= i < self@.len() implies #[trigger] self@[i]
                                        == v0[i] by {
                                        assert(!walked(pref as int, 0, n, i));
                                        assert(self@[i].skipped_count == v0[i].skipped_count);
                                        assert(self@[i].entry == v0[i].entry);
                                        assert(self@[i] =~= v0[i]);
                                    }
                                    assert(self@ =~= v0);
                                }
                            }
                            if rc0 >= 0x7FFF {
                                // The slot's reference count is at its
                                // ceiling; one more cannot be recorded.
                                return Err(Error::Io);
                            }
                            let rc: RefCount = match content.bump(&address, Some(hash)) {
                                Ok(rc) => rc,
                                Err(()) => {
                                    proof {
                                        assert(false);
                                    }
                                    0
                                }
                            };
                            return Ok(rc);
                        }
                        None => {
                            proof {
                                assert(!content_key_matches(con0, address, hash@));
                            }
                        }
                    }
                }
                // A collision: raise the slot's skipped counter, or give up
                // when it cannot go higher.
                let sc: u8 = self.items[idx].skipped_count;
                if sc == 255 {
                    proof {
                        assert(self@[idx as int].skipped_count == v0[idx as int].skipped_count);
                        assert(spec_edit_from(v0, n, pref as int, sfx, hash@, con0, c as int, (
                        bound - c) as nat) == EditOutcome::Full);
                    }
                    return Err(Error::IndexFull);
                }
                let ghost before = self@;
                let it = &mut self.items[idx];
                it.skipped_count = it.skipped_count + 1;
                if self.skipped_count_watermark < sc + 1 {
                    self.skipped_count_watermark = sc + 1;
                }
                if self.key_correction_watermark < c + 1 {
                    self.key_correction_watermark = c + 1;
                }
                proof {
                    assert forall|i: int| 0 <= i < self@.len() implies (#[trigger] self@[i]).wf(
                        self.suffix_len as int,
                    ) by {
                        if i != idx as int {
                            assert(self@[i] == before[i]);
                        } else {
                            assert(before[i].wf(self.suffix_len as int));
                        }
                    }
                    assert forall|i: int|
                        0 <= i < self@.len() implies (#[trigger] self@[i]).skipped_count == (
                    if walked(pref as int, (c + 1) as int, n, i) {
                        v0[i].skipped_count + 1
                    } else {
                        v0[i].skipped_count as int
                    }) by {
                        if i == idx as int {
                            assert((pref as int + c) % n == idx as int);
                            assert(walked(pref as int, (c + 1) as int, n, i));
                        } else {
                            assert(self@[i] == before[i]);
                            assert(walked(pref as int, (c + 1) as int, n, i) == walked(
                                pref as int,
                                c as int,
                                n,
                                i,
                            )) by {
                                if walked(pref as int, (c + 1) as int, n, i) {
                                    let jj = choose|jj: int|
                                        0 <= jj < c + 1 && #[trigger] ((pref as int + jj) % n)
                                            == i;
                                    if jj < c {
                                        assert(walked(pref as int, c as int, n, i));
                                    }
                                }
                            };
                        }
                    }
                    assert forall|i: int|
                        0 <= i < self@.len() implies (#[trigger] self@[i]).entry
                        == v0[i].entry by {
                        if i != idx as int {
                            assert(self@[i] == before[i]);
                        }
                    }
                    assert forall|j: int|
                        0 <= j < c + 1 implies (#[trigger] self@[(pref as int + j)
                        % n]).skipped_count >= 1 by {
                        if j < c {
                            assert(before[(pref as int + j) % n].skipped_count >= 1);
                            if (pref as int + j) % n != idx as int {
                                assert(self@[(pref as int + j) % n] == before[(pref as int + j)
                                    % n]);
                            }
                        } else {
                            assert((pref as int + j) % n == idx as int);
                        }
                    }
                    assert(spec_edit_from(v0, n, pref as int, sfx, hash@, con0, c as int, (bound
                        - c) as nat) == spec_edit_from(v0, n, pref as int, sfx, hash@, con0, (c
                        + 1) as int, (bound - c - 1) as nat));
                    assert(sc as int == v0[idx as int].skipped_count);
                    assert(walk_skipped_max(v0, n, pref as int, (c + 1) as int) == (if v0[
                        idx as int].skipped_count + 1 > walk_skipped_max(v0, n, pref as int,
                        c as int) {
                        v0[idx as int].skipped_count + 1
                    } else {
                        walk_skipped_max(v0, n, pref as int, c as int)
                    }));
                }
                c = c + 1;
            } else {
                // An empty slot: the new entry goes here.
                proof {
                    assert(v0[idx as int].entry is None);
                    assert(spec_edit_from(v0, n, pref as int, sfx, hash@, con0, c as int, (bound
                        - c) as nat) == EditOutcome::Insert(idx as int, c as int));
                }
                match content.emplace(hash, data) {
                    Ok(address) => {
                        let ghost before = self@;
                        let sc: u8 = self.items[idx].skipped_count;
                        self.items.set(
                            idx,
                            IndexItem {
                                skipped_count: sc,
                                maybe_entry: Some(
                                    IndexEntry {
                                        key_correction: c,
                                        key_suffix: suffix,
                                        address,
                                    },
                                ),
                            },
                        );
                        if self.key_correction_watermark < c {
                            self.key_correction_watermark = c;
                        }
                        proof {
                            assert(self@ =~= before.update(
                                idx as int,
                                (ItemModel {
                                    skipped_count: before[idx as int].skipped_count,
                                    entry: Some(
                                        (EntryModel {
                                            key_correction: c as int,
                                            key_suffix: sfx,
                                            address,
                                        }),
                                    ),
                                }),
                            ));
                            assert(self@[idx as int].skipped_count == v0[idx as int].skipped_count);
                            assert forall|i: int|
                                0 <= i < self@.len() implies (#[trigger] self@[i]).wf(
                                self.suffix_len as int,
                            ) by {
                                if i != idx as int {
                                    assert(self@[i] == before[i]);
                                }
                            }
                            assert forall|j: int|
                                0 <= j < c implies (#[trigger] self@[(pref as int + j)
                                % n]).skipped_count >= 1 by {
                                assert(before[(pref as int + j) % n].skipped_count >= 1);
                                if (pref as int + j) % n != idx as int {
                                    assert(self@[(pref as int + j) % n] == before[(pref as int
                                        + j) % n]);
                                }
                            }
                        }
                        return Ok(1);
                    }
                    Err(_) => {
                        // Nothing could be emplaced: walk the trail back.
                        self.decrement_skip_counts(pref, c);
                        proof {
                            assert forall|i: int|
                                0 <= i < self@.len() implies #[trigger] self@[i]
                                == v0[i] by {
                                if walked(pref as int, c as int, n, i) {
                                    assert(self@[i].skipped_count == v0[i].skipped_count);
                                    assert(self@[i].entry == v0[i].entry);
                                } else {
                                    assert(self@[i].skipped_count == v0[i].skipped_count);
                                }
                                assert(self@[i] =~= v0[i]);
                            }
                            assert(self@ =~= v0);
                        }
                        return Err(Error::Io);
                    }
                }
            }
        }
        proof {
            assert(spec_edit_from(v0, n, pref as int, sfx, hash@, con0, c as int, 0)
                == EditOutcome::Full);
        }
        Err(Error::IndexFull)
    }
}

impl Index {
    /// Remove one reference to a key. Walks like the lookup; at the first
    /// full-key match the content reference is dropped, and when it was the
    /// last one the entry is erased and every skipped counter on its trail
    /// is walked back. Err when the key is not present.
    #[verifier::rlimit(100)]
    pub fn edit_out(&mut self, hash: &Vec<u8>, content: &mut Content) -> (r: Result<RefCount, ()>)
        requires
            old(self).wf(),
            old(content).wf(),
            hash@.len() >= old(self).spec_key_bytes(),
        ensures
            final(self).wf(),
            final(content).wf(),
            final(content).spec_key_len() == old(content).spec_key_len(),
            final(self).spec_key_bytes() == old(self).spec_key_bytes(),
            final(self).spec_index_bits() == old(self).spec_index_bits(),
            final(self).spec_item_count() == old(self).spec_item_count(),
            final(self)@.len() == old(self)@.len(),
            ({
                let n = old(self).spec_item_count();
                let pref = spec_preferred(hash@, old(self).spec_index_bits());
                let sfx = hash@.subrange(
                    old(self).spec_index_bits() / 8,
                    old(self).spec_key_bytes(),
                );
                match spec_remove_from(old(self)@, n, pref, sfx, hash@, *old(content), 0,
                    n as nat) {
                    Some((a, c)) => {
                        &&& r == Ok::<RefCount, ()>(
                            ((old(content).spec_at(a)->Some_0.ref_count - 1) as u16),
                        )
                        &&& (old(content).spec_at(a)->Some_0.ref_count > 1 ==> {
                            &&& final(content).spec_at(a) == Some(
                                (crate::table::SlotModel {
                                    ref_count: (old(content).spec_at(a)->Some_0.ref_count
                                        - 1) as nat,
                                    ..old(content).spec_at(a)->Some_0
                                }),
                            )
                            &&& final(self)@ == old(self)@
                        })
                        &&& (old(content).spec_at(a)->Some_0.ref_count == 1 ==> {
                            &&& final(content).spec_at(a) is None
                            &&& (#[trigger] final(self)@[(pref + c) % n]).entry is None
                            &&& (forall|i: int|
                                0 <= i < final(self)@.len() && i != (pref + c) % n
                                    ==> (#[trigger] final(self)@[i]).entry == old(self)@[i].entry)
                            // The erased entry's displacement trail is walked
                            // back by exactly one, nothing else moves.
                            &&& (forall|i: int|
                                0 <= i < final(self)@.len()
                                    ==> (#[trigger] final(self)@[i]).skipped_count == (if walked(
                                    pref,
                                    c,
                                    n,
                                    i,
                                ) && old(self)@[i].skipped_count >= 1 {
                                    old(self)@[i].skipped_count - 1
                                } else {
                                    old(self)@[i].skipped_count as int
                                }))
                        })
                        &&& forall|a2: ContentAddress|
                            !same_slot(a2, a) ==> (#[trigger] final(content).spec_at(a2)) == old(
                                content,
                            ).spec_at(a2)
                    }
                    None => {
                        &&& r == Err::<RefCount, ()>(())
                        &&& final(self)@ == old(self)@
                        &&& forall|a2: ContentAddress|
                            final(content).spec_at(a2) == old(content).spec_at(a2)
                    }
                }
            }),
    {
        proof {
            self.lemma_geometry();
        }
        let (pref, suffix) = self.index_suffix_of(hash);
        let ghost n = self.spec_item_count();
        let ghost sfx = hash@.subrange(self.spec_index_bits() / 8, self.spec_key_bytes());
        let ghost v0 = self@;
        let ghost con0 = *content;
        let mut c: usize = 0;
        while c < self.item_count
            invariant
                self.wf(),
                content.wf(),
                hash@.len() >= self.spec_key_bytes(),
                n == self.spec_item_count(),
                n == old(self).spec_item_count(),
                self.spec_key_bytes() == old(self).spec_key_bytes(),
                self.spec_index_bits() == old(self).spec_index_bits(),
                self.spec_suffix_len() == old(self).spec_suffix_len(),
                content.spec_key_len() == old(content).spec_key_len(),
                v0 == old(self)@,
                con0 == *old(content),
                *content == con0,
                self@ == v0,
                pref == spec_preferred(hash@, self.spec_index_bits()),
                pref < n,
                suffix@ == sfx,
                sfx == hash@.subrange(self.spec_index_bits() / 8, self.spec_key_bytes()),
                c <= n,
                spec_remove_from(v0, n, pref as int, sfx, hash@, con0, 0, n as nat)
                    == spec_remove_from(v0, n, pref as int, sfx, hash@, con0, c as int, (n
                    - c) as nat),
            decreases n - c,
        {
            proof {
                self.lemma_geometry();
            }
            let idx: usize = (pref + c) % self.item_count;
            proof {
                assert(self@[idx as int] == self.items@[idx as int]@);
            }
            let candidate: bool = match &self.items[idx].maybe_entry {
                Some(entry) => entry.key_correction == c && crate::bytes::bytes_eq(
                    &entry.key_suffix,
                    &suffix,
                ),
                None => false,
            };
            if candidate {
                let address: ContentAddress = match &self.items[idx].maybe_entry {
                    Some(entry) => entry.address,
                    None => ContentAddress {
                        datum_size: crate::datum_size::DatumSize::Oversize,
                        content_table: 0,
                        entry_index: 0,
                    },
                };
                let full_match: bool = match content.item_hash(&address) {
                    Ok(k) => crate::bytes::bytes_eq(&k, hash),
                    Err(()) => false,
                };
                if full_match {
                    proof {
                        assert(slot_matches(v0[idx as int], c as int, sfx));
                        assert(content_key_matches(con0, address, hash@));
                        assert(spec_remove_from(v0, n, pref as int, sfx, hash@, con0, c as int, (
                        n - c) as nat) == Some((address, c as int)));
                    }
                    let refs_left: RefCount = match content.free(&address, Some(hash)) {
                        Ok(rc) => rc,
                        Err(()) => {
                            proof {
                                assert(false);
                            }
                            0
                        }
                    };
                    if refs_left == 0 {
                        let ghost before = self@;
                        let sc: u8 = self.items[idx].skipped_count;
                        self.items.set(idx, IndexItem { skipped_count: sc, maybe_entry: None });
                        proof {
                            assert forall|i: int| 0 <= i < self@.len() implies (
                            #[trigger] self@[i]).wf(self.suffix_len as int) by {
                                if i != idx as int {
                                    assert(self@[i] == before[i]);
                                }
                            }
                        }
                        self.decrement_skip_counts(pref, c);
                        proof {
                            assert forall|i: int|
                                0 <= i < self@.len() && i != idx as int implies (
                            #[trigger] self@[i]).entry == v0[i].entry by {
                                assert(self@[i].entry == before.update(
                                    idx as int,
                                    (ItemModel {
                                        skipped_count: before[idx as int].skipped_count,
                                        entry: None,
                                    }),
                                )[i].entry);
                            }
                            assert(self@[idx as int].entry is None);
                            assert forall|i: int|
                                0 <= i < self@.len() implies (#[trigger] self@[i]).skipped_count
                                <= v0[i].skipped_count by {}
                        }
                    }
                    return Ok(refs_left);
                }
                proof {
                    assert(!content_key_matches(con0, address, hash@));
                }
            }
            if self.items[idx].skipped_count == 0 {
                return Err(());
            }
            c = c + 1;
        }
        Err(())
    }
}

impl Index {
    /// Places a rebuilt entry: walks from its preferred slot to the first
    /// empty one, raising the skipped counters it passes, and writes the
    /// entry there with the accumulated correction.
    fn insert_at(&mut self, pref: usize, suffix: Vec<u8>, address: ContentAddress) -> (r: Result<
        (),
        Error,
    >)
        requires
            old(self).wf(),
            pref < old(self).spec_item_count(),
            suffix@.len() == old(self).spec_suffix_len(),
            address.valid(),
        ensures
            final(self).wf(),
            final(self).spec_key_bytes() == old(self).spec_key_bytes(),
            final(self).spec_index_bits() == old(self).spec_index_bits(),
            final(self).spec_item_count() == old(self).spec_item_count(),
            r is Err ==> (r == Err::<(), Error>(Error::IndexFull)),
            // No entry is lost or rewritten: occupied slots only have their
            // skipped counters bumped.
            forall|j: int|
                0 <= j < old(self)@.len() && old(self)@[j].entry is Some ==> (
                #[trigger] final(self)@[j]).entry == old(self)@[j].entry,
            forall|j: int|
                0 <= j < old(self)@.len() && old(self)@[j].entry is None ==> ((
                #[trigger] final(self)@[j]).entry is None || (final(self)@[j].entry is Some
                    && final(self)@[j].entry->Some_0.address == address)),
            r is Ok ==> exists|j: int|
                0 <= j < final(self)@.len() && (#[trigger] final(self)@[j]).entry is Some
                    && final(self)@[j].entry->Some_0.address == address,
            // The walk's outcome and the written slots are exactly the
            // specified insert walk's.
            ({
                let n = old(self).spec_item_count();
                let bound = if n < 32768 {
                    n
                } else {
                    32768
                };
                let w = spec_insert_walk(old(self)@, n, bound, pref as int, suffix@, address, 0);
                &&& (r is Ok <==> w is Ok)
                &&& (r is Ok ==> final(self)@ == w->Ok_0)
            }),
    {
        proof {
            self.lemma_geometry();
        }
        let ghost n = self.spec_item_count();
        let bound: usize = if self.item_count < 32768 {
            self.item_count
        } else {
            32768
        };
        let mut c: usize = 0;
        while c < bound
            invariant
                self.wf(),
                n == self.spec_item_count(),
                n == old(self).spec_item_count(),
                self.spec_key_bytes() == old(self).spec_key_bytes(),
                self.spec_index_bits() == old(self).spec_index_bits(),
                self.spec_suffix_len() == old(self).spec_suffix_len(),
                pref < n,
                suffix@.len() == self.spec_suffix_len(),
                address.valid(),
                bound <= n,
                bound <= 32768,
                c <= bound,
                old(self)@.len() == n,
                self@.len() == n,
                bound as int == (if n < 32768 {
                    n
                } else {
                    32768
                }),
                forall|j: int|
                    0 <= j < n ==> (#[trigger] self@[j]).entry == old(self)@[j].entry,
                spec_insert_walk(old(self)@, n, bound as int, pref as int, suffix@, address, 0)
                    == spec_insert_walk(self@, n, bound as int, pref as int, suffix@, address,
                    c as int),
            decreases bound - c,
        {
            proof {
                self.lemma_geometry();
            }
            let idx: usize = (pref + c) % self.item_count;
            proof {
                assert(self@[idx as int] == self.items@[idx as int]@);
            }
            let is_occupied: bool = self.items[idx].maybe_entry.is_some();
            if is_occupied {
                let sc: u8 = self.items[idx].skipped_count;
                if sc == 255 {
                    proof {
                        assert(spec_insert_walk(self@, n, bound as int, pref as int, suffix@,
                            address, c as int) is Err);
                    }
                    return Err(Error::IndexFull);
                }
                let ghost before = self@;
                let it = &mut self.items[idx];
                it.skipped_count = it.skipped_count + 1;
                if self.skipped_count_watermark < sc + 1 {
                    self.skipped_count_watermark = sc + 1;
                }
                if self.key_correction_watermark < c + 1 {
                    self.key_correction_watermark = c + 1;
                }
                proof {
                    assert forall|i: int| 0 <= i < self@.len() implies (#[trigger] self@[i]).wf(
                        self.suffix_len as int,
                    ) by {
                        if i != idx as int {
                            assert(self@[i] == before[i]);
                        } else {
                            assert(before[i].wf(self.suffix_len as int));
                        }
                    }
                    assert forall|j: int| 0 <= j < n implies (#[trigger] self@[j]).entry
                        == before[j].entry by {
                        if j != idx as int {
                            assert(self@[j] == before[j]);
                        } else {
                            assert(self@[j] == self.items@[j]@);
                            assert(self.items@[j]@.entry == before[j].entry);
                        }
                    }
                    assert(self@ =~= before.update(
                        idx as int,
                        (ItemModel {
                            skipped_count: (before[idx as int].skipped_count + 1) as u8,
                            entry: before[idx as int].entry,
                        }),
                    ));
                    assert(spec_insert_walk(before, n, bound as int, pref as int, suffix@,
                        address, c as int) == spec_insert_walk(self@, n, bound as int,
                        pref as int, suffix@, address, (c + 1) as int));
                }
                c = c + 1;
            } else {
                let ghost before = self@;
                let sc: u8 = self.items[idx].skipped_count;
                self.items.set(
                    idx,
                    IndexItem {
                        skipped_count: sc,
                        maybe_entry: Some(
                            IndexEntry { key_correction: c, key_suffix: suffix, address },
                        ),
                    },
                );
                if self.key_correction_watermark < c {
                    self.key_correction_watermark = c;
                }
                proof {
                    assert forall|i: int| 0 <= i < self@.len() implies (#[trigger] self@[i]).wf(
                        self.suffix_len as int,
                    ) by {
                        if i != idx as int {
                            assert(self@[i] == before[i]);
                        } else {
                            assert(self@[i] == self.items@[i]@);
                            assert(self@[i].entry is Some);
                            assert(self@[i].entry->Some_0.key_correction == c as int);
                            assert(0 <= c < 0x8000);
                            assert(self@[i].entry->Some_0.key_suffix.len()
                                == self.suffix_len as int);
                            assert(self@[i].entry->Some_0.address.valid());
                        }
                    }
                    assert(self@[idx as int].entry is Some && self@[idx as int].entry
                        ->Some_0.address == address);
                    assert forall|j: int|
                        0 <= j < n && j != idx as int implies (#[trigger] self@[j]).entry
                        == before[j].entry by {
                        assert(self@[j] == before[j]);
                    }
                    assert(spec_insert_walk(before, n, bound as int, pref as int, suffix@,
                        address, c as int) == Ok::<Seq<ItemModel>, ()>(
                        before.update(
                            idx as int,
                            (ItemModel {
                                skipped_count: before[idx as int].skipped_count,
                                entry: Some(
                                    (EntryModel {
                                        key_correction: c as int,
                                        key_suffix: suffix@,
                                        address,
                                    }),
                                ),
                            }),
                        ),
                    ));
                    assert(self@ =~= before.update(
                        idx as int,
                        (ItemModel {
                            skipped_count: before[idx as int].skipped_count,
                            entry: Some(
                                (EntryModel {
                                    key_correction: c as int,
                                    key_suffix: suffix@,
                                    address,
                                }),
                            ),
                        }),
                    ));
                }
                return Ok(());
            }
        }
        proof {
            assert(spec_insert_walk(self@, n, bound as int, pref as int, suffix@, address,
                bound as int) is Err);
        }
        Err(Error::IndexFull)
    }

    /// Builds an index of a new geometry holding every entry of `source`,
    /// re-placed under that geometry. When the new key width fits within
    /// the old, each entry's partial key is reconstructed from its slot and
    /// suffix; a wider key is recovered in full from the content layer,
    /// which stores every key whole. A dangling entry whose address holds
    /// nothing is dropped. `IndexFull` when a skipped counter would
    /// overflow while re-placing.
    pub fn from_existing(
        source: &Index,
        key_bytes: usize,
        index_bits: usize,
        content: &Content,
    ) -> (r: Result<Index, Error>)
        requires
            source.wf(),
            content.wf(),
            valid_geometry(key_bytes as int, index_bits as int),
            key_bytes <= content.spec_key_len(),
        ensures
            match r {
                Ok(ix) => {
                    &&& ix.wf()
                    &&& ix.spec_key_bytes() == key_bytes
                    &&& ix.spec_index_bits() == index_bits
                    // Every address the rebuilt index holds came from the
                    // source, and every source address naming a live item
                    // is carried over.
                    &&& (forall|j: int|
                        0 <= j < ix@.len() && (#[trigger] ix@[j]).entry is Some ==> exists|
                        i0: int,
                    |
                        0 <= i0 < source@.len() && (#[trigger] source@[i0]).entry is Some
                            && source@[i0].entry->Some_0.address == ix@[j].entry->Some_0.address)
                    &&& (forall|i0: int|
                        0 <= i0 < source@.len() && (#[trigger] source@[i0]).entry is Some
                            && content.spec_at(source@[i0].entry->Some_0.address) is Some
                            ==> exists|j: int|
                            0 <= j < ix@.len() && (#[trigger] ix@[j]).entry is Some && ix@[
                                j].entry->Some_0.address == source@[i0].entry->Some_0.address)
                }
                Err(e) => e == Error::IndexFull,
            },
            // The rebuild is exactly the specified fold: it fails if and
            // only if some re-placement walk does, and on success the new
            // slots are the fold's.
            ({
                let n_new = pow2(index_bits as nat) as int;
                let w = spec_rebuild_from(
                    source@,
                    source.spec_item_count(),
                    source.spec_index_bits(),
                    *content,
                    n_new,
                    index_bits as int,
                    key_bytes as int,
                    key_bytes <= source.spec_key_bytes(),
                    0,
                    Seq::new(n_new as nat, |q: int| ItemModel { skipped_count: 0u8, entry: None }),
                );
                &&& (r is Err <==> w is Err)
                &&& (r is Ok ==> r->Ok_0@ == w->Ok_0)
            }),
    {
        proof {
            source.lemma_geometry();
        }
        let narrow: bool = key_bytes <= source.key_bytes;
        let mut result = Index::anonymous(key_bytes, index_bits);
        let ghost n_new = result.spec_item_count();
        let ghost n_src = source.spec_item_count();
        let ghost src_bits = source.spec_index_bits();
        let ghost empty0 = Seq::new(n_new as nat,
            |q: int| ItemModel { skipped_count: 0u8, entry: None });
        proof {
            result.lemma_geometry();
            source.lemma_geometry();
            assert(n_new == pow2(index_bits as nat) as int);
            assert(result@ =~= empty0);
        }
        let ghost rebuild0 = spec_rebuild_from(source@, n_src, src_bits, *content, n_new,
            index_bits as int, key_bytes as int, narrow, 0, empty0);
        let mut i: usize = 0;
        while i < source.item_count
            invariant
                source.wf(),
                content.wf(),
                result.wf(),
                valid_geometry(key_bytes as int, index_bits as int),
                key_bytes <= content.spec_key_len(),
                narrow == (key_bytes <= source.spec_key_bytes()),
                result.spec_key_bytes() == key_bytes,
                result.spec_index_bits() == index_bits,
                i <= source.spec_item_count(),
                source@.len() == source.spec_item_count(),
                n_new == result.spec_item_count(),
                n_new == pow2(index_bits as nat) as int,
                n_src == source.spec_item_count(),
                src_bits == source.spec_index_bits(),
                empty0 == Seq::new(n_new as nat,
                    |q: int| ItemModel { skipped_count: 0u8, entry: None }),
                rebuild0 == spec_rebuild_from(source@, n_src, src_bits, *content, n_new,
                    index_bits as int, key_bytes as int, narrow, i as int, result@),
                rebuild0 == spec_rebuild_from(source@, n_src, src_bits, *content, n_new,
                    index_bits as int, key_bytes as int, narrow, 0, empty0),
                forall|j: int|
                    0 <= j < result@.len() && (#[trigger] result@[j]).entry is Some ==> exists|
                    i0: int,
                |
                    0 <= i0 < i && (#[trigger] source@[i0]).entry is Some && source@[i0].entry
                        ->Some_0.address == result@[j].entry->Some_0.address,
                forall|i0: int|
                    0 <= i0 < i && (#[trigger] source@[i0]).entry is Some && content.spec_at(
                        source@[i0].entry->Some_0.address,
                    ) is Some ==> exists|j: int|
                        0 <= j < result@.len() && (#[trigger] result@[j]).entry is Some
                            && result@[j].entry->Some_0.address == source@[i0].entry
                            ->Some_0.address,
            decreases source.spec_item_count() - i,
        {
            proof {
                source.lemma_geometry();
                assert(source@[i as int] == source.items@[i as int]@);
            }
            let has_entry: bool = source.items[i].maybe_entry.is_some();
            if has_entry {
                let (corr, address) = match &source.items[i].maybe_entry {
                    Some(entry) => (entry.key_correction, entry.address),
                    None => (
                        0,
                        ContentAddress {
                            datum_size: crate::datum_size::DatumSize::Oversize,
                            content_table: 0,
                            entry_index: 0,
                        },
                    ),
                };
                if narrow {
                    // The stored slot and suffix carry every key byte the
                    // new geometry wants.
                    let corr_m: usize = corr % source.item_count;
                    let pref_old: usize = (i + source.item_count - corr_m) % source.item_count;
                    let suffix_copy: Vec<u8> = match &source.items[i].maybe_entry {
                        Some(entry) => crate::bytes::copy_bytes(&entry.key_suffix),
                        None => Vec::new(),
                    };
                    let ghost em = source@[i as int].entry->Some_0;
                    proof {
                        assert(suffix_copy@.len() == source.spec_suffix_len());
                        assert(suffix_copy@ == em.key_suffix);
                        assert(corr as int == em.key_correction);
                        assert(corr_m as int == em.key_correction % n_src);
                        assert(pref_old as int == (i as int + n_src - em.key_correction % n_src)
                            % n_src);
                    }
                    let mut partial = source.key_prefix(pref_old, &suffix_copy);
                    let ghost prepad = partial@;
                    proof {
                        assert(prepad == le_bytes_of(pref_old as int, src_bits / 8)
                            + em.key_suffix);
                        assert(prepad.len() <= 8);
                        assert(partial@ =~= prepad + Seq::new(
                            (partial@.len() - prepad.len()) as nat,
                            |q: int| 0u8,
                        ));
                    }
                    while partial.len() < 8
                        invariant
                            prepad.len() <= partial@.len() <= 8,
                            partial@ == prepad + Seq::new(
                                (partial@.len() - prepad.len()) as nat,
                                |q: int| 0u8,
                            ),
                        decreases 8 - partial@.len(),
                    {
                        partial.push(0);
                        proof {
                            assert(partial@ =~= prepad + Seq::new(
                                (partial@.len() - prepad.len()) as nat,
                                |q: int| 0u8,
                            ));
                        }
                    }
                    proof {
                        assert(partial@ == prepad + Seq::new((8 - prepad.len()) as nat,
                            |q: int| 0u8));
                    }
                    let (slot, sfx2) = result.index_suffix_of(&partial);
                    let ghost prev = result@;
                    match result.insert_at(slot, sfx2, address) {
                        Ok(()) => {
                            proof {
                                assert(spec_rebuild_from(source@, n_src, src_bits, *content,
                                    n_new, index_bits as int, key_bytes as int, narrow,
                                    i as int, prev) == spec_rebuild_from(source@, n_src,
                                    src_bits, *content, n_new, index_bits as int,
                                    key_bytes as int, narrow, (i + 1) as int, result@));
                            }
                        }
                        Err(e) => {
                            proof {
                                assert(spec_rebuild_from(source@, n_src, src_bits, *content,
                                    n_new, index_bits as int, key_bytes as int, narrow,
                                    i as int, prev) is Err);
                            }
                            return Err(e);
                        }
                    }
                proof {
                    assert(source@[i as int].entry is Some && source@[i as int].entry
                        ->Some_0.address == address);
                    assert forall|j: int|
                        0 <= j < result@.len() && (#[trigger] result@[j]).entry
                        is Some implies exists|i0: int|
                        0 <= i0 < i + 1 && (#[trigger] source@[i0]).entry is Some && source@[
                            i0].entry->Some_0.address == result@[j].entry->Some_0.address by {
                        if prev[j].entry is Some {
                            assert(result@[j].entry == prev[j].entry);
                            let i0 = choose|i0: int|
                                0 <= i0 < i && (#[trigger] source@[i0]).entry is Some
                                    && source@[i0].entry->Some_0.address == prev[j].entry
                                    ->Some_0.address;
                            assert(0 <= i0 < i + 1 && source@[i0].entry is Some && source@[
                                i0].entry->Some_0.address == result@[j].entry->Some_0.address);
                        } else {
                            assert(result@[j].entry is None || result@[j].entry->Some_0.address
                                == address);
                        }
                    }
                    assert forall|i0: int|
                        0 <= i0 < i + 1 && (#[trigger] source@[i0]).entry is Some
                            && content.spec_at(source@[i0].entry->Some_0.address)
                        is Some implies exists|j: int|
                        0 <= j < result@.len() && (#[trigger] result@[j]).entry is Some
                            && result@[j].entry->Some_0.address == source@[i0].entry
                            ->Some_0.address by {
                        if i0 < i {
                            let j0 = choose|j0: int|
                                0 <= j0 < prev.len() && (#[trigger] prev[j0]).entry is Some
                                    && prev[j0].entry->Some_0.address == source@[i0].entry
                                    ->Some_0.address;
                            assert(result@[j0].entry == prev[j0].entry);
                            assert(0 <= j0 < result@.len() && result@[j0].entry is Some
                                && result@[j0].entry->Some_0.address == source@[i0].entry
                                ->Some_0.address);
                        } else {
                            let jw = choose|jw: int|
                                0 <= jw < result@.len() && (#[trigger] result@[jw]).entry
                                    is Some && result@[jw].entry->Some_0.address == address;
                            assert(0 <= jw < result@.len() && result@[jw].entry is Some
                                && result@[jw].entry->Some_0.address == source@[i0].entry
                                ->Some_0.address);
                        }
                    }
                }
                } else {
                    // A wider key: recover it whole from the content layer.
                    let ghost em = source@[i as int].entry->Some_0;
                    proof {
                        assert(address == em.address);
                    }
                    match content.item_hash(&address) {
                        Ok(full_key) => {
                            proof {
                                content.lemma_at_wf(address);
                                assert(full_key@ == content.spec_at(em.address)->Some_0.key);
                            }
                            let (slot, sfx2) = result.index_suffix_of(&full_key);
                            let ghost prev = result@;
                            match result.insert_at(slot, sfx2, address) {
                                Ok(()) => {
                                    proof {
                                        assert(spec_rebuild_from(source@, n_src, src_bits,
                                            *content, n_new, index_bits as int,
                                            key_bytes as int, narrow, i as int, prev)
                                            == spec_rebuild_from(source@, n_src, src_bits,
                                            *content, n_new, index_bits as int,
                                            key_bytes as int, narrow, (i + 1) as int,
                                            result@));
                                    }
                                }
                                Err(e) => {
                                    proof {
                                        assert(spec_rebuild_from(source@, n_src, src_bits,
                                            *content, n_new, index_bits as int,
                                            key_bytes as int, narrow, i as int, prev)
                                            is Err);
                                    }
                                    return Err(e);
                                }
                            }
                proof {
                    assert(source@[i as int].entry is Some && source@[i as int].entry
                        ->Some_0.address == address);
                    assert forall|j: int|
                        0 <= j < result@.len() && (#[trigger] result@[j]).entry
                        is Some implies exists|i0: int|
                        0 <= i0 < i + 1 && (#[trigger] source@[i0]).entry is Some && source@[
                            i0].entry->Some_0.address == result@[j].entry->Some_0.address by {
                        if prev[j].entry is Some {
                            assert(result@[j].entry == prev[j].entry);
                            let i0 = choose|i0: int|
                                0 <= i0 < i && (#[trigger] source@[i0]).entry is Some
                                    && source@[i0].entry->Some_0.address == prev[j].entry
                                    ->Some_0.address;
                            assert(0 <= i0 < i + 1 && source@[i0].entry is Some && source@[
                                i0].entry->Some_0.address == result@[j].entry->Some_0.address);
                        } else {
                            assert(result@[j].entry is None || result@[j].entry->Some_0.address
                                == address);
                        }
                    }
                    assert forall|i0: int|
                        0 <= i0 < i + 1 && (#[trigger] source@[i0]).entry is Some
                            && content.spec_at(source@[i0].entry->Some_0.address)
                        is Some implies exists|j: int|
                        0 <= j < result@.len() && (#[trigger] result@[j]).entry is Some
                            && result@[j].entry->Some_0.address == source@[i0].entry
                            ->Some_0.address by {
                        if i0 < i {
                            let j0 = choose|j0: int|
                                0 <= j0 < prev.len() && (#[trigger] prev[j0]).entry is Some
                                    && prev[j0].entry->Some_0.address == source@[i0].entry
                                    ->Some_0.address;
                            assert(result@[j0].entry == prev[j0].entry);
                            assert(0 <= j0 < result@.len() && result@[j0].entry is Some
                                && result@[j0].entry->Some_0.address == source@[i0].entry
                                ->Some_0.address);
                        } else {
                            let jw = choose|jw: int|
                                0 <= jw < result@.len() && (#[trigger] result@[jw]).entry
                                    is Some && result@[jw].entry->Some_0.address == address;
                            assert(0 <= jw < result@.len() && result@[jw].entry is Some
                                && result@[jw].entry->Some_0.address == source@[i0].entry
                                ->Some_0.address);
                        }
                    }
                }
                        }
                        Err(()) => {
                            proof {
                                assert(content.spec_at(em.address) is None);
                                assert(spec_rebuild_from(source@, n_src, src_bits, *content,
                                    n_new, index_bits as int, key_bytes as int, narrow,
                                    i as int, result@) == spec_rebuild_from(source@, n_src,
                                    src_bits, *content, n_new, index_bits as int,
                                    key_bytes as int, narrow, (i + 1) as int, result@));
                            }
                        }
                    }
                }
            } else {
                proof {
                    assert(source@[i as int].entry is None);
                    assert(spec_rebuild_from(source@, n_src, src_bits, *content, n_new,
                        index_bits as int, key_bytes as int, narrow, i as int, result@)
                        == spec_rebuild_from(source@, n_src, src_bits, *content, n_new,
                        index_bits as int, key_bytes as int, narrow, (i + 1) as int,
                        result@));
                }
            }
            i = i + 1;
        }
        proof {
            assert(spec_rebuild_from(source@, n_src, src_bits, *content, n_new,
                index_bits as int, key_bytes as int, narrow, n_src, result@)
                == Ok::<Seq<ItemModel>, ()>(result@));
            assert(narrow == (key_bytes <= source.spec_key_bytes()));
        }
        Ok(result)
    }
}

/// An index written to bytes and an index of the same geometry opened from
/// those bytes hold the same slots.
pub proof fn lemma_index_round_trip(i1: Index, bytes: Seq<u8>, i2: Index)
    requires
        i1.wf(),
        i2.wf(),
        i2.spec_key_bytes() == i1.spec_key_bytes(),
        i2.spec_index_bits() == i1.spec_index_bits(),
        bytes.len() == i1.spec_item_count() * (7 + i1.spec_suffix_len()),
        forall|i: int|
            0 <= i < i1@.len() ==> bytes.subrange(
                i * (7 + i1.spec_suffix_len()),
                (i + 1) * (7 + i1.spec_suffix_len()),
            ) == item_bytes(#[trigger] i1@[i], i1.spec_suffix_len()),
        forall|i: int|
            0 <= i < i2@.len() && (i + 1) * (7 + i2.spec_suffix_len()) <= bytes.len() ==> (
            #[trigger] i2@[i]) == parse_item(
                bytes.subrange(
                    i * (7 + i2.spec_suffix_len()),
                    (i + 1) * (7 + i2.spec_suffix_len()),
                ),
                i2.spec_suffix_len(),
            ),
    ensures
        i2@ == i1@,
{
    i1.lemma_geometry();
    i2.lemma_geometry();
    let n = i1.spec_item_count();
    let stride = 7 + i1.spec_suffix_len();
    assert(i2.spec_item_count() == n);
    assert(i2.spec_suffix_len() == i1.spec_suffix_len());
    assert forall|i: int| 0 <= i < n implies i2@[i] == i1@[i] by {
        vstd::arithmetic::mul::lemma_mul_inequality(i + 1, n, stride);
        assert((i + 1) * stride <= n * stride);
        crate::index_item::lemma_item_round_trip(i1@[i], i1.spec_suffix_len());
    }
    assert(i2@ =~= i1@);
}

/// The lookup walk only reads the content through what addresses hold, so
/// contents that agree address-by-address give the same result.
pub proof fn lemma_find_congruence(
    v: Seq<ItemModel>,
    n: int,
    pref: int,
    suffix: Seq<u8>,
    key: Seq<u8>,
    con1: Content,
    con2: Content,
    c: int,
    fuel: nat,
)
    requires
        forall|a: ContentAddress| con1.spec_at(a) == con2.spec_at(a),
    ensures
        spec_find_from(v, n, pref, suffix, key, con1, c, fuel) == spec_find_from(
            v,
            n,
            pref,
            suffix,
            key,
            con2,
            c,
            fuel,
        ),
    decreases fuel,
{
    if fuel > 0 {
        lemma_find_congruence(v, n, pref, suffix, key, con1, con2, c + 1, (fuel - 1) as nat);
    }
}

/// After a successful insert-walk outcome has been applied — the bumped or
/// fresh entry in place, every walked slot's skipped counter positive, and
/// any earlier full match resolving to the same physical slot — the lookup
/// walk finds an address that resolves exactly as the outcome's address.
pub proof fn lemma_edit_then_find(
    v1: Seq<ItemModel>,
    n: int,
    pref: int,
    suffix: Seq<u8>,
    key: Seq<u8>,
    con1: Content,
    target: int,
    tc: int,
    a: ContentAddress,
    c: int,
)
    requires
        0 < n,
        0 <= pref < n,
        0 <= c <= tc < n,
        v1.len() == n,
        target == (pref + tc) % n,
        slot_matches(v1[target], tc, suffix),
        v1[target].entry->Some_0.address == a,
        content_key_matches(con1, a, key),
        forall|j: int|
            0 <= j < tc ==> (#[trigger] v1[(pref + j) % n]).skipped_count >= 1,
        forall|j: int|
            0 <= j < tc ==> ((slot_matches(#[trigger] v1[(pref + j) % n], j, suffix)
                && content_key_matches(con1, v1[(pref + j) % n].entry->Some_0.address, key))
                ==> con1.spec_at(v1[(pref + j) % n].entry->Some_0.address) == con1.spec_at(a)),
    ensures
        spec_find_from(v1, n, pref, suffix, key, con1, c, (n - c) as nat) is Some,
        con1.spec_at(spec_find_from(v1, n, pref, suffix, key, con1, c, (n - c) as nat)->Some_0)
            == con1.spec_at(a),
    decreases tc - c,
{
    if c == tc {
        assert(spec_find_from(v1, n, pref, suffix, key, con1, c, (n - c) as nat) == Some(a));
    } else {
        let m = v1[(pref + c) % n];
        if slot_matches(m, c, suffix) && content_key_matches(con1, m.entry->Some_0.address,
            key) {
            assert(con1.spec_at(m.entry->Some_0.address) == con1.spec_at(a));
        } else {
            assert(m.skipped_count >= 1);
            lemma_edit_then_find(v1, n, pref, suffix, key, con1, target, tc, a, c + 1);
        }
    }
}

/// Computes `2^bits` for small exponents./// Computes `2^bits` for small exponents.
fn pow2_usize(bits: usize) -> (r: usize)
    requires
        bits <= 28,
    ensures
        r == pow2(bits as nat),
        r >= 1,
{
    proof {
        lemma2_to64();
    }
    let mut i: usize = 0;
    let mut v: usize = 1;
    while i < bits
        invariant
            i <= bits <= 28,
            v == pow2(i as nat),
        decreases bits - i,
    {
        proof {
            lemma_pow2_adds(i as nat, 1);
            vstd::arithmetic::power2::lemma_pow2_strictly_increases((i + 1) as nat, 29);
            lemma2_to64();
        }
        v = v * 2;
        i = i + 1;
    }
    proof {
        lemma_pow2_pos(bits as nat);
    }
    v
}

} // verus!
