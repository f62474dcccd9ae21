//! One size-class backing table: its header, its slot array with per-slot
//! reference counts and keys, its free list, and — for the oversize class —
//! the external payload files with their map-cache accounting.

use vstd::prelude::*;
use crate::datum_size::{DatumSize, class_size, class_size_range, MAX_SIZE};
use crate::content_address::entries_of;

verus! {

/// How many references a storage table item has.
pub type RefCount = u16;

/// Where in a storage table an item is.
pub type TableItemIndex = u16;

/// How many table items; must be able to store a range from 0 to
/// `TableItemIndex::MAX + 1` inclusive, therefore needs the next biggest
/// type up.
pub type TableItemCount = u32;

/// The header of a table file.
#[derive(Copy, Clone, PartialEq, Eq, Structural, Debug)]
pub struct TableHeader {
    /// The number of items used. Never more than `touched_count`.
    pub used: TableItemCount,
    /// Ignore if `used == touched_count`; otherwise the next free item.
    pub next_free: TableItemIndex,
    /// The number of unique slots that have been allocated at some point.
    pub touched_count: TableItemCount,
    /// Total amount of bytes in all external files; oversize tables only.
    pub external_data: u64,
}

/// One slot of a table: free (with the next free slot after it), or
/// allocated with its reference count, size correction, key and payload.
/// For oversize tables the payload models the slot's external file.
pub enum Slot {
    Free { next_free: TableItemIndex },
    Allocated { ref_count: RefCount, size_correction: u32, key: Vec<u8>, value: Vec<u8> },
}

/// What an occupied slot holds, mathematically.
#[verifier::ext_equal]
pub struct SlotModel {
    pub key: Seq<u8>,
    pub data: Seq<u8>,
    pub ref_count: nat,
}

/// The files a table persists to: the main image and, per slot, the
/// optional external payload file.
pub struct TableFiles {
    pub main: Vec<u8>,
    pub externals: Vec<Option<Vec<u8>>>,
}

/// The correction width a size range calls for.
pub open spec fn width_of_range(r: int) -> int {
    if r <= 255 {
        1
    } else if r <= 65535 {
        2
    } else {
        4
    }
}

/// Bytes of external payloads over the first `n` slots.
pub open spec fn external_sum(slots: Seq<Slot>, n: int) -> int
    decreases n,
{
    if n <= 0 {
        0
    } else {
        external_sum(slots, n - 1) + (match slots[n - 1] {
            Slot::Allocated { value, .. } => value@.len() as int,
            Slot::Free { .. } => 0,
        })
    }
}

/// Bytes of external payloads currently mapped, over the first `n` slots.
pub open spec fn mapped_sum(slots: Seq<Slot>, mapped: Seq<Option<u64>>, n: int) -> int
    decreases n,
{
    if n <= 0 {
        0
    } else {
        mapped_sum(slots, mapped, n - 1) + (if mapped[n - 1] is Some {
            match slots[n - 1] {
                Slot::Allocated { value, .. } => value@.len() as int,
                Slot::Free { .. } => 0,
            }
        } else {
            0
        })
    }
}

/// Two slot sequences that agree above and below `i` have external sums
/// that differ only by the contribution of slot `i`.
pub proof fn lemma_external_sum_update(s1: Seq<Slot>, s2: Seq<Slot>, i: int, n: int)
    requires
        0 <= i < n,
        s1.len() >= n,
        s2.len() >= n,
        forall|j: int| 0 <= j < n && j != i ==> s1[j] == s2[j],
    ensures
        external_sum(s2, n) == external_sum(s1, n) - (match s1[i] {
            Slot::Allocated { value, .. } => value@.len() as int,
            Slot::Free { .. } => 0,
        }) + (match s2[i] {
            Slot::Allocated { value, .. } => value@.len() as int,
            Slot::Free { .. } => 0,
        }),
    decreases n,
{
    if i == n - 1 {
        lemma_external_sum_equal(s1, s2, n - 1);
    } else {
        lemma_external_sum_update(s1, s2, i, n - 1);
    }
}

/// Sequences that agree on the first `n` slots have the same external sum.
pub proof fn lemma_external_sum_equal(s1: Seq<Slot>, s2: Seq<Slot>, n: int)
    requires
        s1.len() >= n,
        s2.len() >= n,
        forall|j: int| 0 <= j < n ==> s1[j] == s2[j],
    ensures
        external_sum(s1, n) == external_sum(s2, n),
    decreases n,
{
    if n > 0 {
        lemma_external_sum_equal(s1, s2, n - 1);
    }
}

/// The mapped bytes never exceed the external bytes, slot by slot.
pub proof fn lemma_mapped_le_external(slots: Seq<Slot>, mapped: Seq<Option<u64>>, n: int)
    requires
        slots.len() >= n,
        mapped.len() >= n,
    ensures
        mapped_sum(slots, mapped, n) <= external_sum(slots, n),
        external_sum(slots, n) >= 0,
        mapped_sum(slots, mapped, n) >= 0,
    decreases n,
{
    if n > 0 {
        lemma_mapped_le_external(slots, mapped, n - 1);
    }
}

/// Like `lemma_external_sum_update`, for the mapped sum: only position `i`
/// changed.
pub proof fn lemma_mapped_sum_update(
    s1: Seq<Slot>,
    m1: Seq<Option<u64>>,
    s2: Seq<Slot>,
    m2: Seq<Option<u64>>,
    i: int,
    n: int,
)
    requires
        0 <= i < n,
        s1.len() >= n,
        s2.len() >= n,
        m1.len() >= n,
        m2.len() >= n,
        forall|j: int| 0 <= j < n && j != i ==> s1[j] == s2[j] && m1[j] == m2[j],
    ensures
        mapped_sum(s2, m2, n) == mapped_sum(s1, m1, n) - (if m1[i] is Some {
            match s1[i] {
                Slot::Allocated { value, .. } => value@.len() as int,
                Slot::Free { .. } => 0,
            }
        } else {
            0
        }) + (if m2[i] is Some {
            match s2[i] {
                Slot::Allocated { value, .. } => value@.len() as int,
                Slot::Free { .. } => 0,
            }
        } else {
            0
        }),
    decreases n,
{
    if i == n - 1 {
        lemma_mapped_sum_equal(s1, m1, s2, m2, n - 1);
    } else {
        lemma_mapped_sum_update(s1, m1, s2, m2, i, n - 1);
    }
}

/// Equal prefixes give equal mapped sums.
pub proof fn lemma_mapped_sum_equal(
    s1: Seq<Slot>,
    m1: Seq<Option<u64>>,
    s2: Seq<Slot>,
    m2: Seq<Option<u64>>,
    n: int,
)
    requires
        s1.len() >= n,
        s2.len() >= n,
        m1.len() >= n,
        m2.len() >= n,
        forall|j: int| 0 <= j < n ==> s1[j] == s2[j] && m1[j] == m2[j],
    ensures
        mapped_sum(s1, m1, n) == mapped_sum(s2, m2, n),
    decreases n,
{
    if n > 0 {
        lemma_mapped_sum_equal(s1, m1, s2, m2, n - 1);
    }
}

/// One size-class backing table.
pub struct Table {
    datum_size: DatumSize,
    value_size: usize,
    correction_width: usize,
    item_header_size: usize,
    item_size: usize,
    item_count: TableItemCount,
    key_len: usize,
    min_items_backed: TableItemCount,
    header: TableHeader,
    backed: TableItemCount,
    slots: Vec<Slot>,
    free_list: Ghost<Seq<u16>>,
    mapped: Vec<Option<u64>>,
    lru_counter: u64,
    mapped_bytes: u64,
}

impl Table {
    /// The size class this table serves.
    pub closed spec fn spec_datum_size(&self) -> DatumSize {
        self.datum_size
    }

    /// The length of the keys stored with each item.
    pub closed spec fn spec_key_len(&self) -> int {
        self.key_len as int
    }

    /// The fixed payload size, or zero for oversize tables.
    pub closed spec fn spec_value_size(&self) -> int {
        self.value_size as int
    }

    /// The number of slots this table can ever hold.
    pub closed spec fn spec_capacity(&self) -> int {
        self.item_count as int
    }

    /// The number of slots occupied with data.
    pub closed spec fn spec_used(&self) -> int {
        self.header.used as int
    }

    /// The high-water mark of slots ever touched.
    pub closed spec fn spec_touched(&self) -> int {
        self.header.touched_count as int
    }

    /// The number of slot records present in the main file image.
    pub closed spec fn spec_backed(&self) -> int {
        self.backed as int
    }

    /// The bytes in all external payload files.
    pub closed spec fn spec_external_data(&self) -> int {
        self.header.external_data as int
    }

    /// The bytes of external payloads currently mapped.
    pub closed spec fn spec_mapped_bytes(&self) -> int {
        self.mapped_bytes as int
    }

    /// The record size of one slot in the file image.
    pub closed spec fn spec_item_size(&self) -> int {
        self.item_size as int
    }

    /// The minimum number of slots backed on disk.
    pub closed spec fn spec_min_items_backed(&self) -> int {
        self.min_items_backed as int
    }

    /// What each slot holds: `None` for free or untouched slots.
    pub closed spec fn view(&self) -> Seq<Option<SlotModel>> {
        Seq::new(
            self.item_count as nat,
            |i: int|
                if i < self.slots@.len() {
                    match self.slots@[i] {
                        Slot::Allocated { ref_count, key, value, .. } => Some(
                            SlotModel {
                                key: key@,
                                data: value@,
                                ref_count: ref_count as nat,
                            },
                        ),
                        Slot::Free { .. } => None,
                    }
                } else {
                    None
                },
        )
    }

    /// The derived record geometry agrees with the size class and key
    /// length.
    pub closed spec fn geometry_ok(&self) -> bool {
        &&& self.datum_size.wf()
        &&& 1 <= self.key_len <= 64
        &&& self.value_size as int == (match self.datum_size {
            DatumSize::Oversize => 0,
            DatumSize::Size(c) => class_size(c as int),
        })
        &&& self.correction_width as int == (match self.datum_size {
            DatumSize::Oversize => 0,
            DatumSize::Size(c) => width_of_range(class_size_range(c as int)),
        })
        &&& self.item_count as int == entries_of(self.datum_size)
        &&& 1 <= self.item_count <= 65536
        &&& self.item_header_size == 2 + self.correction_width + self.key_len
        &&& self.item_size == self.value_size + self.item_header_size
    }

    /// One slot is well formed for this table's geometry.
    pub closed spec fn slot_ok(&self, s: Slot) -> bool {
        match s {
            Slot::Free { .. } => true,
            Slot::Allocated { ref_count, size_correction, key, value } => {
                &&& 1 <= ref_count < 0x8000
                &&& key@.len() == self.key_len
                &&& value@.len() <= usize::MAX
                &&& if self.value_size > 0 {
                    &&& size_correction <= self.value_size
                    &&& value@.len() == self.value_size - size_correction
                    &&& size_correction < (if self.correction_width == 1 {
                        0x100int
                    } else if self.correction_width == 2 {
                        0x10000int
                    } else {
                        0x100000000int
                    })
                } else {
                    size_correction == 0
                }
            }
        }
    }

    /// The free list chain: a duplicate-free list of exactly the free
    /// touched slots, threaded through their `next_free` fields.
    pub closed spec fn free_list_ok(&self) -> bool {
        let fl = self.free_list@;
        let touched = self.header.touched_count as int;
        &&& fl.len() == touched - self.header.used as int
        &&& forall|k: int|
            0 <= k < fl.len() ==> (#[trigger] fl[k]) < touched && self.slots@[fl[k] as int] is Free
        &&& forall|k1: int, k2: int|
            0 <= k1 < k2 < fl.len() ==> fl[k1] != fl[k2]
        &&& (fl.len() > 0 ==> self.header.next_free == fl[0])
        &&& forall|k: int|
            0 <= k < fl.len() - 1 ==> (#[trigger] self.slots@[fl[k] as int])->Free_next_free
                == fl[k + 1]
        &&& forall|i: int|
            0 <= i < touched ==> ((#[trigger] self.slots@[i]) is Free <==> fl.contains(i as u16))
    }

    /// The whole-table invariant.
    pub closed spec fn wf(&self) -> bool {
        &&& self.geometry_ok()
        &&& self.header.used <= self.header.touched_count
        &&& self.slots@.len() == self.header.touched_count
        &&& self.header.touched_count <= self.backed
        &&& self.backed <= self.item_count
        &&& self.min_items_backed <= self.item_count
        &&& forall|i: int| 0 <= i < self.slots@.len() ==> self.slot_ok(#[trigger] self.slots@[i])
        &&& self.free_list_ok()
        &&& self.mapped@.len() == self.slots@.len()
        &&& (self.value_size > 0 ==> self.header.external_data == 0 && self.mapped_bytes == 0
            && forall|i: int| 0 <= i < self.mapped@.len() ==> (#[trigger] self.mapped@[i]) is None)
        &&& forall|i: int|
            0 <= i < self.mapped@.len() && (#[trigger] self.mapped@[i]) is Some
                ==> self.slots@[i] is Allocated
        &&& (self.value_size == 0 ==> self.header.external_data as int == external_sum(
            self.slots@,
            self.slots@.len() as int,
        ))
        &&& self.mapped_bytes as int == mapped_sum(
            self.slots@,
            self.mapped@,
            self.slots@.len() as int,
        )
        &&& self.header.external_data <= 0xFFFF_FFF0_0000_0000u64
    }

    /// The amount of slots that are occupied with data in this table.
    pub fn used(&self) -> (r: TableItemCount)
        ensures
            r == self.spec_used(),
    {
        self.header.used
    }

    /// The total number of items that this table could ever hold at once.
    pub fn total(&self) -> (r: TableItemCount)
        ensures
            r == self.spec_capacity(),
    {
        self.item_count
    }

    /// The amount of slots that are unoccupied with data in this table.
    pub fn available(&self) -> (r: TableItemCount)
        requires
            self.wf(),
        ensures
            r == self.spec_capacity() - self.spec_used(),
    {
        self.item_count - self.header.used
    }

    /// The total amount of bytes stored on disk for this table: the slot
    /// image plus all external payload files.
    pub fn bytes_used(&self) -> (r: u64)
        requires
            self.wf(),
        ensures
            r == self.spec_backed() * self.spec_item_size() + self.spec_external_data(),
    {
        proof {
            lemma_item_size_bound(self);
        }
        self.backed as u64 * self.item_size as u64 + self.header.external_data
    }

    /// The amount of bytes currently mapped into memory for this table.
    pub fn bytes_mapped(&self) -> (r: u64)
        requires
            self.wf(),
        ensures
            r == self.spec_backed() * self.spec_item_size() + self.spec_mapped_bytes(),
    {
        proof {
            lemma_item_size_bound(self);
            lemma_mapped_le_external(self.slots@, self.mapped@, self.slots@.len() as int);
        }
        self.backed as u64 * self.item_size as u64 + self.mapped_bytes
    }

    /// The key stored at slot `i`, if the slot is allocated.
    pub fn item_hash(&self, i: TableItemIndex) -> (r: Result<Vec<u8>, ()>)
        requires
            self.wf(),
        ensures
            match r {
                Ok(k) => i < self@.len() && self@[i as int] is Some && k@ == self@[i as int]
                    ->Some_0.key,
                Err(()) => i >= self@.len() || self@[i as int] is None,
            },
    {
        if (i as TableItemCount) >= self.header.touched_count {
            return Err(());
        }
        match &self.slots[i as usize] {
            Slot::Allocated { key, .. } => Ok(crate::bytes::copy_bytes(key)),
            Slot::Free { .. } => Err(()),
        }
    }

    /// The reference count at slot `i`, after an optional key check.
    pub fn item_ref_count(&self, i: TableItemIndex, check_hash: Option<&Vec<u8>>) -> (r: Result<
        RefCount,
        (),
    >)
        requires
            self.wf(),
        ensures
            match r {
                Ok(n) => {
                    &&& i < self@.len()
                    &&& self@[i as int] is Some
                    &&& n == self@[i as int]->Some_0.ref_count
                    &&& (check_hash is Some ==> check_hash->Some_0@ == self@[i as int]->Some_0.key)
                }
                Err(()) => i >= self@.len() || self@[i as int] is None || (check_hash is Some
                    && check_hash->Some_0@ != self@[i as int]->Some_0.key),
            },
    {
        if (i as TableItemCount) >= self.header.touched_count {
            return Err(());
        }
        match &self.slots[i as usize] {
            Slot::Allocated { ref_count, key, .. } => {
                match check_hash {
                    Some(hash) => {
                        if crate::bytes::bytes_eq(hash, key) {
                            Ok(*ref_count)
                        } else {
                            Err(())
                        }
                    }
                    None => Ok(*ref_count),
                }
            }
            Slot::Free { .. } => Err(()),
        }
    }
}

/// The parts of a table that no slot operation changes: its class, its key
/// length and its record geometry.
pub open spec fn same_config(a: &Table, b: &Table) -> bool {
    &&& a.spec_datum_size() == b.spec_datum_size()
    &&& a.spec_key_len() == b.spec_key_len()
    &&& a.spec_value_size() == b.spec_value_size()
    &&& a.spec_capacity() == b.spec_capacity()
    &&& a.spec_item_size() == b.spec_item_size()
    &&& a.spec_min_items_backed() == b.spec_min_items_backed()
}

impl Table {
    /// An allocated slot is never on the free list.
    proof fn lemma_allocated_not_in_free_list(&self, i: int)
        requires
            self.wf(),
            0 <= i < self.slots@.len(),
            self.slots@[i] is Allocated,
        ensures
            forall|k: int|
                0 <= k < self.free_list@.len() ==> (#[trigger] self.free_list@[k]) != i as u16,
    {
        assert forall|k: int|
            0 <= k < self.free_list@.len() implies (#[trigger] self.free_list@[k]) != i as u16 by {
            if self.free_list@[k] == i as u16 {
                assert(self.free_list@.contains(i as u16));
            }
        }
    }

    /// While an allocated slot exists, the free list is shorter than the
    /// touched count, so `used` is at least one.
    proof fn lemma_used_nonzero(&self, i: int)
        requires
            self.wf(),
            0 <= i < self.slots@.len(),
            self.slots@[i] is Allocated,
        ensures
            self.spec_used() >= 1,
    {
        let fl = self.free_list@;
        let touched = self.spec_touched();
        let fli = fl.map_values(|x: u16| x as int);
        assert(fli.no_duplicates()) by {
            assert forall|k1: int, k2: int|
                0 <= k1 < fli.len() && 0 <= k2 < fli.len() && k1 != k2 implies fli[k1]
                != fli[k2] by {
                if k1 < k2 {
                    assert(fl[k1] != fl[k2]);
                } else {
                    assert(fl[k2] != fl[k1]);
                }
            }
        }
        fli.unique_seq_to_set();
        self.lemma_allocated_not_in_free_list(i);
        vstd::set_lib::lemma_int_range(0, touched);
        vstd::set::axiom_set_remove_len(vstd::set_lib::set_int_range(0, touched), i);
        assert(fli.to_set().subset_of(vstd::set_lib::set_int_range(0, touched).remove(i))) by {
            assert forall|x: int| fli.to_set().contains(x) implies vstd::set_lib::set_int_range(
                0,
                touched,
            ).remove(i).contains(x) by {
                let k = choose|k: int| 0 <= k < fli.len() && fli[k] == x;
                assert(fl[k] < touched);
                assert(fl[k] != i as u16);
            }
        }
        vstd::set_lib::lemma_len_subset(
            fli.to_set(),
            vstd::set_lib::set_int_range(0, touched).remove(i),
        );
    }

    /// Add another reference to a slot that is already allocated and return
    /// the resulting number of references. Err if the slot is not allocated
    /// or the given hash differs from the hash of the entry.
    pub fn bump(&mut self, i: TableItemIndex, hash: Option<&Vec<u8>>) -> (r: Result<RefCount, ()>)
        requires
            old(self).wf(),
            (i as int) < old(self)@.len() && old(self)@[i as int] is Some && (match hash {
                Some(h) => h@ == old(self)@[i as int]->Some_0.key,
                None => true,
            }) ==> old(self)@[i as int]->Some_0.ref_count < 0x7FFF,
        ensures
            final(self).wf(),
            same_config(old(self), final(self)),
            match r {
                Ok(n) => {
                    &&& (i as int) < old(self)@.len()
                    &&& old(self)@[i as int] is Some
                    &&& (hash is Some ==> hash->Some_0@ == old(self)@[i as int]->Some_0.key)
                    &&& n == old(self)@[i as int]->Some_0.ref_count + 1
                    &&& final(self)@ == old(self)@.update(
                        i as int,
                        Some(
                            SlotModel {
                                ref_count: (old(self)@[i as int]->Some_0.ref_count + 1) as nat,
                                ..old(self)@[i as int]->Some_0
                            },
                        ),
                    )
                }
                Err(()) => {
                    &&& final(self)@ == old(self)@
                    &&& ((i as int) >= old(self)@.len() || old(self)@[i as int] is None || (
                    hash is Some && hash->Some_0@ != old(self)@[i as int]->Some_0.key))
                }
            },
            final(self).spec_used() == old(self).spec_used(),
            final(self).spec_touched() == old(self).spec_touched(),
            final(self).spec_backed() == old(self).spec_backed(),
            final(self).spec_external_data() == old(self).spec_external_data(),
            final(self).spec_mapped_bytes() == old(self).spec_mapped_bytes(),
            final(self).spec_mapped_count() == old(self).spec_mapped_count(),
    {
        if (i as TableItemCount) >= self.header.touched_count {
            return Err(());
        }
        let idx = i as usize;
        let mut tmp = Slot::Free { next_free: 0 };
        core::mem::swap(&mut tmp, &mut self.slots[idx]);
        match tmp {
            Slot::Allocated { ref_count, size_correction, key, value } => {
                let ok = match hash {
                    Some(h) => crate::bytes::bytes_eq(h, &key),
                    None => true,
                };
                if ok {
                    let new_rc = ref_count + 1;
                    self.slots.set(
                        idx,
                        Slot::Allocated { ref_count: new_rc, size_correction, key, value },
                    );
                    proof {
                        self.lemma_restore_slot(old(self), idx as int);
                        assert(self@ =~= old(self)@.update(
                            i as int,
                            Some(
                                SlotModel {
                                    ref_count: new_rc as nat,
                                    ..old(self)@[i as int]->Some_0
                                },
                            ),
                        ));
                    }
                    Ok(new_rc)
                } else {
                    self.slots.set(
                        idx,
                        Slot::Allocated { ref_count, size_correction, key, value },
                    );
                    proof {
                        assert(self.slots@ =~= old(self).slots@);
                        assert(self@ =~= old(self)@);
                    }
                    Err(())
                }
            }
            Slot::Free { next_free } => {
                self.slots.set(idx, Slot::Free { next_free });
                proof {
                    assert(self.slots@ =~= old(self).slots@);
                    assert(self@ =~= old(self)@);
                }
                Err(())
            }
        }
    }

    /// After replacing the slot at `idx` of `prev` by another allocated slot
    /// with a key and payload of the same lengths, the invariant still
    /// holds. Everything but `slots[idx]` must be unchanged.
    proof fn lemma_restore_slot(&self, prev: &Table, idx: int)
        requires
            prev.wf(),
            0 <= idx < prev.slots@.len(),
            prev.slots@[idx] is Allocated,
            self.slots@.len() == prev.slots@.len(),
            self.slots@[idx] is Allocated,
            prev.slot_ok(self.slots@[idx]),
            self.slots@[idx]->Allocated_value@.len() == prev.slots@[idx]->Allocated_value@.len(),
            forall|j: int|
                0 <= j < prev.slots@.len() && j != idx ==> self.slots@[j] == prev.slots@[j],
            self.datum_size == prev.datum_size,
            self.value_size == prev.value_size,
            self.correction_width == prev.correction_width,
            self.item_header_size == prev.item_header_size,
            self.item_size == prev.item_size,
            self.item_count == prev.item_count,
            self.key_len == prev.key_len,
            self.min_items_backed == prev.min_items_backed,
            self.header == prev.header,
            self.backed == prev.backed,
            self.free_list@ == prev.free_list@,
            self.mapped@ == prev.mapped@,
            self.mapped_bytes == prev.mapped_bytes,
        ensures
            self.wf(),
    {
        let n = prev.slots@.len() as int;
        prev.lemma_allocated_not_in_free_list(idx);
        lemma_external_sum_update(prev.slots@, self.slots@, idx, n);
        lemma_mapped_sum_update(prev.slots@, prev.mapped@, self.slots@, self.mapped@, idx, n);
        assert forall|j: int| 0 <= j < n implies self.slot_ok(#[trigger] self.slots@[j]) by {
            if j != idx {
                assert(self.slots@[j] == prev.slots@[j]);
            }
        }
        assert forall|i: int|
            0 <= i < n implies ((#[trigger] self.slots@[i]) is Free <==> self.free_list@.contains(
            i as u16,
        )) by {
            if i != idx {
                assert(self.slots@[i] == prev.slots@[i]);
            }
        }
    }
}

/// How many of the first `n` slots are mapped.
pub open spec fn mapped_count(mapped: Seq<Option<u64>>, n: int) -> int
    decreases n,
{
    if n <= 0 {
        0
    } else {
        mapped_count(mapped, n - 1) + (if mapped[n - 1] is Some {
            1int
        } else {
            0int
        })
    }
}

/// Like the sum update lemmas: only position `i` of the map state changed.
pub proof fn lemma_mapped_count_update(m1: Seq<Option<u64>>, m2: Seq<Option<u64>>, i: int, n: int)
    requires
        0 <= i < n,
        m1.len() >= n,
        m2.len() >= n,
        forall|j: int| 0 <= j < n && j != i ==> m1[j] == m2[j],
    ensures
        mapped_count(m2, n) == mapped_count(m1, n) - (if m1[i] is Some {
            1int
        } else {
            0int
        }) + (if m2[i] is Some {
            1int
        } else {
            0int
        }),
    decreases n,
{
    if i == n - 1 {
        lemma_mapped_count_equal(m1, m2, n - 1);
    } else {
        lemma_mapped_count_update(m1, m2, i, n - 1);
    }
}

/// Equal prefixes give equal mapped counts.
pub proof fn lemma_mapped_count_equal(m1: Seq<Option<u64>>, m2: Seq<Option<u64>>, n: int)
    requires
        m1.len() >= n,
        m2.len() >= n,
        forall|j: int| 0 <= j < n ==> m1[j] == m2[j],
    ensures
        mapped_count(m1, n) == mapped_count(m2, n),
    decreases n,
{
    if n > 0 {
        lemma_mapped_count_equal(m1, m2, n - 1);
    }
}

/// With nothing mapped among the first `n` slots, the mapped sum is zero;
/// and a positive count means some slot is mapped.
pub proof fn lemma_mapped_count_zero(slots: Seq<Slot>, mapped: Seq<Option<u64>>, n: int)
    requires
        slots.len() >= n,
        mapped.len() >= n,
    ensures
        mapped_count(mapped, n) >= 0,
        (forall|j: int| 0 <= j < n ==> (#[trigger] mapped[j]) is None) ==> mapped_sum(
            slots,
            mapped,
            n,
        ) == 0 && mapped_count(mapped, n) == 0,
    decreases n,
{
    if n > 0 {
        lemma_mapped_count_zero(slots, mapped, n - 1);
    }
}

impl Table {
    /// How many slots currently hold a mapping.
    pub closed spec fn spec_mapped_count(&self) -> int {
        mapped_count(self.mapped@, self.mapped@.len() as int)
    }

    /// Whether slot `i` currently holds a mapping.
    pub closed spec fn spec_mapped_at(&self, i: int) -> bool {
        0 <= i < self.mapped@.len() && self.mapped@[i] is Some
    }

    /// The use tick a mapped slot last saw.
    pub closed spec fn spec_tick_at(&self, i: int) -> u64 {
        self.mapped@[i]->Some_0
    }

    /// Fill an allocated slot's payload. The data must have the length the
    /// slot was allocated with. For oversize tables this writes the slot's
    /// external file and maps it.
    pub fn set_item(&mut self, i: TableItemIndex, data: &Vec<u8>) -> (r: Result<(), ()>)
        requires
            old(self).wf(),
            (i as int) < old(self)@.len() && old(self)@[i as int] is Some ==> data@.len() == old(
                self,
            )@[i as int]->Some_0.data.len(),
        ensures
            final(self).wf(),
            same_config(old(self), final(self)),
            final(self).spec_used() == old(self).spec_used(),
            final(self).spec_touched() == old(self).spec_touched(),
            final(self).spec_backed() == old(self).spec_backed(),
            final(self).spec_external_data() == old(self).spec_external_data(),
            match r {
                Ok(()) => {
                    &&& (i as int) < old(self)@.len()
                    &&& old(self)@[i as int] is Some
                    &&& final(self)@ == old(self)@.update(
                        i as int,
                        Some(SlotModel { data: data@, ..old(self)@[i as int]->Some_0 }),
                    )
                    &&& (old(self).spec_value_size() == 0 ==> final(self).spec_mapped_at(i as int))
                    &&& final(self).spec_mapped_bytes() <= old(self).spec_mapped_bytes()
                        + data@.len()
                }
                Err(()) => {
                    &&& final(self)@ == old(self)@
                    &&& final(self).spec_mapped_bytes() == old(self).spec_mapped_bytes()
                    &&& ((i as int) >= old(self)@.len() || old(self)@[i as int] is None)
                }
            },
    {
        if (i as TableItemCount) >= self.header.touched_count {
            return Err(());
        }
        let idx = i as usize;
        let mut tmp = Slot::Free { next_free: 0 };
        core::mem::swap(&mut tmp, &mut self.slots[idx]);
        match tmp {
            Slot::Allocated { ref_count, size_correction, key, value: _ } => {
                let new_value = crate::bytes::copy_bytes(data);
                self.slots.set(
                    idx,
                    Slot::Allocated { ref_count, size_correction, key, value: new_value },
                );
                if self.value_size == 0 {
                    // Model of writing and mapping the slot's external file.
                    let t = self.lru_counter;
                    if t < u64::MAX {
                        self.lru_counter = t + 1;
                    }
                    let was_mapped = self.mapped[idx].is_some();
                    self.mapped.set(idx, Some(t));
                    proof {
                        let n = old(self).slots@.len() as int;
                        old(self).lemma_allocated_not_in_free_list(idx as int);
                        lemma_external_sum_update(old(self).slots@, self.slots@, idx as int, n);
                        lemma_mapped_sum_update(
                            old(self).slots@,
                            old(self).mapped@,
                            self.slots@,
                            self.mapped@,
                            idx as int,
                            n,
                        );
                        lemma_mapped_le_external(old(self).slots@, old(self).mapped@, n);
                    }
                    if !was_mapped {
                        proof {
                            let n = old(self).slots@.len() as int;
                            lemma_mapped_le_external(self.slots@, self.mapped@, n);
                        }
                        self.mapped_bytes = self.mapped_bytes + data.len() as u64;
                    }
                    proof {
                        self.lemma_set_item_shape(old(self), idx as int, data@);
                    }
                } else {
                    proof {
                        let n = old(self).slots@.len() as int;
                        old(self).lemma_allocated_not_in_free_list(idx as int);
                        lemma_external_sum_update(old(self).slots@, self.slots@, idx as int, n);
                        lemma_mapped_sum_update(
                            old(self).slots@,
                            old(self).mapped@,
                            self.slots@,
                            self.mapped@,
                            idx as int,
                            n,
                        );
                        self.lemma_set_item_shape(old(self), idx as int, data@);
                    }
                }
                Ok(())
            }
            Slot::Free { next_free } => {
                self.slots.set(idx, Slot::Free { next_free });
                proof {
                    assert(self.slots@ =~= old(self).slots@);
                    assert(self@ =~= old(self)@);
                }
                Err(())
            }
        }
    }

    /// Shared shape proof for `set_item`: the slot at `idx` kept its key,
    /// reference count and payload length; only the payload bytes and the
    /// map state at `idx` changed.
    proof fn lemma_set_item_shape(&self, prev: &Table, idx: int, data: Seq<u8>)
        requires
            prev.wf(),
            0 <= idx < prev.slots@.len(),
            prev.slots@[idx] is Allocated,
            self.slots@.len() == prev.slots@.len(),
            self.mapped@.len() == prev.mapped@.len(),
            self.slots@[idx] is Allocated,
            prev.slot_ok(self.slots@[idx]),
            self.slots@[idx]->Allocated_value@.len() == prev.slots@[idx]->Allocated_value@.len(),
            self.slots@[idx]->Allocated_key == prev.slots@[idx]->Allocated_key,
            self.slots@[idx]->Allocated_ref_count == prev.slots@[idx]->Allocated_ref_count,
            forall|j: int|
                0 <= j < prev.slots@.len() && j != idx ==> self.slots@[j] == prev.slots@[j]
                    && self.mapped@[j] == prev.mapped@[j],
            self.mapped@[idx] is Some ==> self.slots@[idx] is Allocated,
            prev.value_size > 0 ==> self.mapped@[idx] == prev.mapped@[idx],
            self.mapped_bytes as int == mapped_sum(
                self.slots@,
                self.mapped@,
                self.slots@.len() as int,
            ),
            self.datum_size == prev.datum_size,
            self.value_size == prev.value_size,
            self.correction_width == prev.correction_width,
            self.item_header_size == prev.item_header_size,
            self.item_size == prev.item_size,
            self.item_count == prev.item_count,
            self.key_len == prev.key_len,
            self.min_items_backed == prev.min_items_backed,
            self.header == prev.header,
            self.backed == prev.backed,
            self.free_list@ == prev.free_list@,
        ensures
            self.wf(),
            self@ == prev@.update(
                idx,
                Some(
                    SlotModel {
                        data: self.slots@[idx]->Allocated_value@,
                        ..prev@[idx]->Some_0
                    },
                ),
            ),
    {
        let n = prev.slots@.len() as int;
        prev.lemma_allocated_not_in_free_list(idx);
        lemma_external_sum_update(prev.slots@, self.slots@, idx, n);
        assert forall|j: int| 0 <= j < n implies self.slot_ok(#[trigger] self.slots@[j]) by {
            if j != idx {
                assert(self.slots@[j] == prev.slots@[j]);
            }
        }
        assert forall|i: int|
            0 <= i < n implies ((#[trigger] self.slots@[i]) is Free <==> self.free_list@.contains(
            i as u16,
        )) by {
            if i != idx {
                assert(self.slots@[i] == prev.slots@[i]);
            }
        }
        assert forall|j: int|
            0 <= j < self.mapped@.len() && (#[trigger] self.mapped@[j]) is Some
            implies self.slots@[j] is Allocated by {
            if j != idx {
                assert(self.mapped@[j] == prev.mapped@[j] && self.slots@[j] == prev.slots@[j]);
            }
        }
        if prev.value_size > 0 {
            assert forall|j: int|
                0 <= j < self.mapped@.len() implies (#[trigger] self.mapped@[j]) is None by {
                if j != idx {
                    assert(self.mapped@[j] == prev.mapped@[j]);
                }
            }
            lemma_mapped_le_external(self.slots@, self.mapped@, n);
            lemma_mapped_count_zero(self.slots@, self.mapped@, n);
        }
        assert(self@ =~= prev@.update(
            idx,
            Some(
                SlotModel {
                    data: self.slots@[idx]->Allocated_value@,
                    ..prev@[idx]->Some_0
                },
            ),
        ));
    }

    /// Retrieve a copy of a table item's payload, after an optional key
    /// check. For oversize tables this maps the slot's external file if it
    /// is not mapped, and touches its use tick.
    pub fn item_ref(&mut self, i: TableItemIndex, check_hash: Option<&Vec<u8>>) -> (r: Result<
        Vec<u8>,
        (),
    >)
        requires
            old(self).wf(),
        ensures
            final(self).wf(),
            same_config(old(self), final(self)),
            final(self)@ == old(self)@,
            final(self).spec_used() == old(self).spec_used(),
            final(self).spec_touched() == old(self).spec_touched(),
            final(self).spec_backed() == old(self).spec_backed(),
            final(self).spec_external_data() == old(self).spec_external_data(),
            match r {
                Ok(d) => {
                    &&& (i as int) < old(self)@.len()
                    &&& old(self)@[i as int] is Some
                    &&& (check_hash is Some ==> check_hash->Some_0@ == old(self)@[i as int]
                        ->Some_0.key)
                    &&& d@ == old(self)@[i as int]->Some_0.data
                    &&& final(self).spec_mapped_bytes() >= old(self).spec_mapped_bytes()
                    // Reading maps the payload's file exactly when it was
                    // not already mapped.
                    &&& ((old(self).spec_value_size() > 0 || old(self).spec_mapped_at(i as int))
                        ==> final(self).spec_mapped_bytes() == old(self).spec_mapped_bytes())
                    &&& ((old(self).spec_value_size() == 0 && !old(self).spec_mapped_at(
                        i as int,
                    )) ==> final(self).spec_mapped_bytes() == old(self).spec_mapped_bytes()
                        + d@.len())
                }
                Err(()) => {
                    &&& final(self).spec_mapped_bytes() == old(self).spec_mapped_bytes()
                    &&& ((i as int) >= old(self)@.len() || old(self)@[i as int] is None || (
                    check_hash is Some && check_hash->Some_0@ != old(self)@[i as int]->Some_0.key))
                }
            },
    {
        if (i as TableItemCount) >= self.header.touched_count {
            return Err(());
        }
        let idx = i as usize;
        let hash_ok: bool = match (check_hash, &self.slots[idx]) {
            (Some(h), Slot::Allocated { key, .. }) => crate::bytes::bytes_eq(h, key),
            (None, _) => true,
            (_, Slot::Free { .. }) => true,
        };
        match &self.slots[idx] {
            Slot::Allocated { value, .. } => {
                if !hash_ok {
                    return Err(());
                }
                let d = crate::bytes::copy_bytes(value);
                if self.value_size == 0 {
                    let t = self.lru_counter;
                    if t < u64::MAX {
                        self.lru_counter = t + 1;
                    }
                    let was_mapped = self.mapped[idx].is_some();
                    self.mapped.set(idx, Some(t));
                    proof {
                        let n = old(self).slots@.len() as int;
                        lemma_mapped_sum_update(
                            old(self).slots@,
                            old(self).mapped@,
                            self.slots@,
                            self.mapped@,
                            idx as int,
                            n,
                        );
                        lemma_mapped_le_external(old(self).slots@, old(self).mapped@, n);
                    }
                    if !was_mapped {
                        proof {
                            let n = old(self).slots@.len() as int;
                            lemma_mapped_le_external(self.slots@, self.mapped@, n);
                        }
                        self.mapped_bytes = self.mapped_bytes + d.len() as u64;
                    }
                    proof {
                        assert forall|j: int|
                            0 <= j < self.mapped@.len() && (#[trigger] self.mapped@[j]) is Some
                            implies self.slots@[j] is Allocated by {
                            if j != idx {
                                assert(old(self).mapped@[j] == self.mapped@[j]);
                            }
                        }
                        assert(self@ =~= old(self)@);
                    }
                }
                proof {
                    assert(self@ =~= old(self)@);
                }
                Ok(d)
            }
            Slot::Free { .. } => Err(()),
        }
    }

    /// Drops the mapping of slot `i`, if there is one.
    pub(crate) fn ensure_not_mapped(&mut self, i: TableItemIndex)
        requires
            old(self).wf(),
        ensures
            final(self).wf(),
            same_config(old(self), final(self)),
            final(self)@ == old(self)@,
            final(self).spec_used() == old(self).spec_used(),
            final(self).spec_touched() == old(self).spec_touched(),
            final(self).spec_backed() == old(self).spec_backed(),
            final(self).spec_external_data() == old(self).spec_external_data(),
            final(self).spec_mapped_bytes() <= old(self).spec_mapped_bytes(),
            old(self).spec_mapped_at(i as int) ==> final(self).spec_mapped_count() == old(
                self,
            ).spec_mapped_count() - 1,
            !old(self).spec_mapped_at(i as int) ==> final(self).spec_mapped_count() == old(
                self,
            ).spec_mapped_count() && final(self).spec_mapped_bytes() == old(
                self,
            ).spec_mapped_bytes(),
            !final(self).spec_mapped_at(i as int),
            forall|k: int|
                k != i ==> (#[trigger] final(self).spec_mapped_at(k)) == old(self).spec_mapped_at(
                    k,
                ) && (old(self).spec_mapped_at(k) ==> final(self).spec_tick_at(k) == old(
                    self,
                ).spec_tick_at(k)),
    {
        if (i as TableItemCount) >= self.header.touched_count {
            return ;
        }
        let idx = i as usize;
        if self.mapped[idx].is_some() {
            let len: usize = match &self.slots[idx] {
                Slot::Allocated { value, .. } => value.len(),
                Slot::Free { .. } => 0,
            };
            self.mapped.set(idx, None);
            proof {
                let n = old(self).slots@.len() as int;
                lemma_mapped_sum_update(
                    old(self).slots@,
                    old(self).mapped@,
                    self.slots@,
                    self.mapped@,
                    idx as int,
                    n,
                );
                lemma_mapped_count_update(old(self).mapped@, self.mapped@, idx as int, n);
                lemma_mapped_le_external(self.slots@, self.mapped@, n);
                lemma_mapped_le_external(old(self).slots@, old(self).mapped@, n);
                assert forall|j: int|
                    0 <= j < self.mapped@.len() && (#[trigger] self.mapped@[j]) is Some
                    implies self.slots@[j] is Allocated by {
                    if j != idx {
                        assert(old(self).mapped@[j] == self.mapped@[j]);
                    }
                }
            }
            self.mapped_bytes = self.mapped_bytes - len as u64;
            proof {
                assert(self@ =~= old(self)@);
            }
        } else {
            proof {
                assert(self.mapped@ =~= old(self).mapped@);
                assert(self@ =~= old(self)@);
            }
        }
    }

    /// The use tick of slot `i`'s mapping, if it is mapped.
    pub(crate) fn mapped_tick(&self, i: TableItemIndex) -> (r: Option<u64>)
        requires
            self.wf(),
        ensures
            r is Some <==> self.spec_mapped_at(i as int),
    {
        if (i as TableItemCount) >= self.header.touched_count {
            return None;
        }
        self.mapped[i as usize]
    }

    /// Reduce the number of items mapped until the total mapped size is no
    /// more than `shrink_size`, oldest mappings first — but only when more
    /// than `maximum_size` bytes are mapped.
    pub fn shrink_to(&mut self, maximum_size: usize, shrink_size: usize)
        requires
            old(self).wf(),
        ensures
            final(self).wf(),
            same_config(old(self), final(self)),
            final(self)@ == old(self)@,
            final(self).spec_used() == old(self).spec_used(),
            final(self).spec_touched() == old(self).spec_touched(),
            final(self).spec_backed() == old(self).spec_backed(),
            final(self).spec_external_data() == old(self).spec_external_data(),
            final(self).spec_mapped_bytes() <= old(self).spec_mapped_bytes(),
            old(self).spec_mapped_bytes() > maximum_size ==> final(self).spec_mapped_bytes()
                <= shrink_size,
            // Below the trigger nothing is unmapped.
            old(self).spec_mapped_bytes() <= maximum_size ==> final(self).spec_mapped_bytes()
                == old(self).spec_mapped_bytes() && final(self).spec_mapped_count() == old(
                self,
            ).spec_mapped_count(),
            // Nothing new is mapped, surviving ticks are kept, and the
            // least recently used slots go first: whatever was evicted is
            // at least as old as everything that stayed mapped.
            forall|k: int|
                (#[trigger] final(self).spec_mapped_at(k)) ==> old(self).spec_mapped_at(k)
                    && final(self).spec_tick_at(k) == old(self).spec_tick_at(k),
            forall|i: int, j: int|
                final(self).spec_mapped_at(i) && old(self).spec_mapped_at(j) && !final(self).spec_mapped_at(j) ==> old(self).spec_tick_at(j) <= old(self).spec_tick_at(i),
    {
        if self.mapped_bytes <= maximum_size as u64 {
            return ;
        }
        while self.mapped_bytes > shrink_size as u64
            invariant
                self.wf(),
                same_config(old(self), self),
                self@ == old(self)@,
                self.spec_used() == old(self).spec_used(),
                self.spec_touched() == old(self).spec_touched(),
                self.spec_backed() == old(self).spec_backed(),
                self.spec_external_data() == old(self).spec_external_data(),
                self.spec_mapped_bytes() <= old(self).spec_mapped_bytes(),
                forall|k: int|
                    (#[trigger] self.spec_mapped_at(k)) ==> old(self).spec_mapped_at(k)
                        && self.spec_tick_at(k) == old(self).spec_tick_at(k),
                forall|i: int, j: int|
                    self.spec_mapped_at(i) && old(self).spec_mapped_at(j) && !self.spec_mapped_at(
                        j,
                    ) ==> old(self).spec_tick_at(j) <= old(self).spec_tick_at(i),
            decreases self.spec_mapped_count(),
        {
            let victim = self.oldest_mapped();
            match victim {
                Some(v) => {
                    let ghost pre = *self;
                    proof {
                        lemma_mapped_count_zero(self.slots@, self.mapped@, self.mapped@.len() as int);
                    }
                    self.ensure_not_mapped(v.0);
                    proof {
                        lemma_mapped_count_zero(self.slots@, self.mapped@, self.mapped@.len() as int);
                        assert forall|i: int, j: int|
                            self.spec_mapped_at(i) && old(self).spec_mapped_at(j)
                                && !self.spec_mapped_at(j) implies old(self).spec_tick_at(j)
                            <= old(self).spec_tick_at(i) by {
                            assert(pre.spec_mapped_at(i));
                            if pre.spec_mapped_at(j) {
                                // Evicted just now: it was the minimum of
                                // what was still mapped.
                                assert(j == v.0 as int);
                                assert(pre.spec_tick_at(j) == v.1);
                                assert(v.1 <= pre.spec_tick_at(i));
                            }
                        }
                    }
                }
                None => {
                    return ;
                }
            }
        }
    }

    /// The mapped slot with the oldest use tick, if any slot is mapped.
    pub(crate) fn oldest_mapped(&self) -> (r: Option<(TableItemIndex, u64)>)
        requires
            self.wf(),
        ensures
            match r {
                Some(p) => self.spec_mapped_at(p.0 as int) && p.1 == self.spec_tick_at(p.0 as int)
                    // The returned tick is minimal: no mapped slot is older.
                    && forall|k: int|
                    self.spec_mapped_at(k) ==> p.1 <= (#[trigger] self.spec_tick_at(k)),
                None => self.spec_mapped_bytes() == 0 && self.spec_mapped_count() == 0
                    && forall|k: int| !(#[trigger] self.spec_mapped_at(k)),
            },
    {
        let mut best: Option<(TableItemIndex, u64)> = None;
        let mut j: usize = 0;
        while j < self.mapped.len()
            invariant
                self.wf(),
                j <= self.mapped@.len(),
                self.mapped@.len() <= 65536,
                match best {
                    Some(p) => self.spec_mapped_at(p.0 as int) && p.1 == self.spec_tick_at(
                        p.0 as int,
                    ) && forall|k: int|
                        0 <= k < j && self.spec_mapped_at(k) ==> p.1 <= (
                        #[trigger] self.spec_tick_at(k)),
                    None => forall|k: int| 0 <= k < j ==> (#[trigger] self.mapped@[k]) is None,
                },
            decreases self.mapped@.len() - j,
        {
            match self.mapped[j] {
                Some(t) => {
                    match best {
                        Some(p) => {
                            if t < p.1 {
                                best = Some((j as TableItemIndex, t));
                            }
                        }
                        None => {
                            best = Some((j as TableItemIndex, t));
                        }
                    }
                }
                None => {}
            }
            j = j + 1;
        }
        if best.is_none() {
            proof {
                lemma_mapped_count_zero(self.slots@, self.mapped@, self.mapped@.len() as int);
            }
        }
        best
    }

    /// The external bytes this table currently has mapped.
    pub(crate) fn ext_mapped(&self) -> (r: u64)
        ensures
            r == self.spec_mapped_bytes(),
    {
        self.mapped_bytes
    }
}

/// The exclusive upper bound a correction width can encode.
pub open spec fn correction_bound(w: int) -> int {
    if w == 1 {
        0x100
    } else if w == 2 {
        0x10000
    } else if w == 0 {
        1
    } else {
        0x100000000
    }
}

impl Table {
    /// The width of the size-correction field in a slot record.
    pub closed spec fn spec_correction_width(&self) -> int {
        self.correction_width as int
    }

    /// The geometry equations a well-formed table satisfies, spelt out for
    /// callers.
    pub proof fn lemma_geometry(&self)
        requires
            self.wf(),
        ensures
            self.spec_datum_size().wf(),
            1 <= self.spec_key_len() <= 64,
            self.spec_value_size() == (match self.spec_datum_size() {
                DatumSize::Oversize => 0,
                DatumSize::Size(c) => class_size(c as int),
            }),
            self.spec_correction_width() == (match self.spec_datum_size() {
                DatumSize::Oversize => 0,
                DatumSize::Size(c) => width_of_range(class_size_range(c as int)),
            }),
            self.spec_capacity() == entries_of(self.spec_datum_size()),
            1 <= self.spec_capacity() <= 65536,
            self.spec_item_size() == self.spec_value_size() + 2 + self.spec_correction_width()
                + self.spec_key_len(),
            self@.len() == self.spec_capacity(),
            0 <= self.spec_used() <= self.spec_touched() <= self.spec_backed()
                <= self.spec_capacity(),
            0 <= self.spec_min_items_backed() <= self.spec_capacity(),
            0 <= self.spec_external_data(),
            0 <= self.spec_mapped_bytes() <= self.spec_external_data(),
            forall|i: int|
                self.spec_touched() <= i < self@.len() ==> (#[trigger] self@[i]) is None,
            forall|i: int|
                0 <= i < self@.len() && (#[trigger] self@[i]) is Some ==> self@[i]->Some_0.key.len()
                    == self.spec_key_len() && self@[i]->Some_0.ref_count >= 1,
            self.spec_value_size() > 0 ==> self.spec_external_data() == 0
                && self.spec_mapped_bytes() == 0,
            self.spec_mapped_count() >= 0,
    {
        lemma_mapped_le_external(self.slots@, self.mapped@, self.slots@.len() as int);
        lemma_mapped_count_zero(self.slots@, self.mapped@, self.slots@.len() as int);
    }

    /// A fresh, empty table of the given class for keys of `key_len` bytes.
    /// The minimum backed count is clamped to the table's capacity.
    pub fn fresh(datum_size: DatumSize, key_len: usize, min_items_backed: TableItemCount) -> (r:
        Table)
        requires
            datum_size.wf(),
            1 <= key_len <= 64,
        ensures
            r.wf(),
            r.spec_datum_size() == datum_size,
            r.spec_key_len() == key_len,
            r.spec_min_items_backed() == (if min_items_backed as int <= entries_of(datum_size) {
                min_items_backed as int
            } else {
                entries_of(datum_size)
            }),
            r.spec_used() == 0,
            r.spec_touched() == 0,
            r.spec_backed() == r.spec_min_items_backed(),
            r.spec_external_data() == 0,
            r.spec_mapped_bytes() == 0,
            r.spec_mapped_count() == 0,
            forall|i: int| 0 <= i < r@.len() ==> (#[trigger] r@[i]) is None,
    {
        proof {
            if let DatumSize::Size(c) = datum_size {
                crate::datum_size::lemma_class_size_bounds(c as int);
            }
        }
        let value_size: usize = match datum_size.size() {
            Some(s) => s,
            None => 0,
        };
        let correction_width: usize = match datum_size {
            DatumSize::Oversize => 0,
            DatumSize::Size(_) => {
                let range: usize = datum_size.size_range();
                if range <= 255 {
                    1
                } else if range <= 65535 {
                    2
                } else {
                    4
                }
            }
        };
        let item_count: TableItemCount = datum_size.contents_entries() as TableItemCount;
        let item_header_size: usize = 2 + correction_width + key_len;
        let item_size: usize = value_size + item_header_size;
        let backed: TableItemCount = if min_items_backed <= item_count {
            min_items_backed
        } else {
            item_count
        };
        Table {
            datum_size,
            value_size,
            correction_width,
            item_header_size,
            item_size,
            item_count,
            key_len,
            min_items_backed: backed,
            header: TableHeader { used: 0, next_free: 0, touched_count: 0, external_data: 0 },
            backed,
            slots: Vec::new(),
            free_list: Ghost(Seq::empty()),
            mapped: Vec::new(),
            lru_counter: 0,
            mapped_bytes: 0,
        }
    }

    /// Attempt to allocate a slot for an item of `actual_size` bytes with
    /// the given key: from the free list if one is there, else from the
    /// first never-touched slot, extending the backing if needed. `None`
    /// when every slot is in use.
    pub fn allocate(&mut self, key: &Vec<u8>, actual_size: usize) -> (r: Option<TableItemIndex>)
        requires
            old(self).wf(),
            key@.len() == old(self).spec_key_len(),
            old(self).spec_value_size() > 0 ==> actual_size <= old(self).spec_value_size() && old(
                self,
            ).spec_value_size() - actual_size < correction_bound(old(self).spec_correction_width()),
            old(self).spec_value_size() == 0 ==> actual_size <= 0xFFFF_FFF0_0000_0000,
        ensures
            final(self).wf(),
            same_config(old(self), final(self)),
            final(self).spec_mapped_bytes() == old(self).spec_mapped_bytes(),
            final(self).spec_mapped_count() == old(self).spec_mapped_count(),
            match r {
                Some(i) => {
                    &&& 0 <= (i as int) < old(self)@.len()
                    &&& old(self)@[i as int] is None
                    &&& final(self)@ == old(self)@.update(
                        i as int,
                        Some(
                            SlotModel {
                                key: key@,
                                data: Seq::new(actual_size as nat, |q: int| 0u8),
                                ref_count: 1,
                            },
                        ),
                    )
                    &&& final(self).spec_used() == old(self).spec_used() + 1
                    &&& final(self).spec_external_data() == old(self).spec_external_data() + (
                    if old(self).spec_value_size() == 0 {
                        actual_size as int
                    } else {
                        0
                    })
                    // The slot comes off the free list's head, or is the
                    // first never-touched one.
                    &&& (old(self).spec_used() < old(self).spec_touched() ==> i as int == old(
                        self,
                    ).spec_next_free())
                    &&& (old(self).spec_used() == old(self).spec_touched() ==> i as int == old(
                        self,
                    ).spec_touched())
                    // The backing grows by doubling, capped at the
                    // capacity, exactly when the slot was not yet backed.
                    &&& final(self).spec_backed() == (if (i as int) < old(self).spec_backed() {
                        old(self).spec_backed()
                    } else if 2 * old(self).spec_backed() > old(self).spec_capacity() {
                        old(self).spec_capacity()
                    } else if 2 * old(self).spec_backed() > i as int {
                        2 * old(self).spec_backed()
                    } else {
                        i as int + 1
                    })
                }
                None => {
                    &&& final(self)@ == old(self)@
                    &&& old(self).spec_used() == old(self).spec_capacity()
                    &&& final(self).spec_used() == old(self).spec_used()
                    &&& final(self).spec_external_data() == old(self).spec_external_data()
                    &&& final(self).spec_backed() == old(self).spec_backed()
                }
            },
    {
        let mut value: Vec<u8> = Vec::new();
        crate::bytes::push_repeat(&mut value, 0, actual_size);
        let size_correction: u32 = if self.value_size > 0 {
            (self.value_size - actual_size) as u32
        } else {
            0
        };
        let new_key = crate::bytes::copy_bytes(key);
        let new_slot = Slot::Allocated {
            ref_count: 1,
            size_correction,
            key: new_key,
            value,
        };
        if self.header.used < self.header.touched_count {
            let result: TableItemIndex = self.header.next_free;
            proof {
                assert(self.free_list@.len() > 0);
                assert(self.free_list@[0] == result);
                assert(self.slots@[result as int] is Free);
            }
            let new_next: TableItemIndex = match &self.slots[result as usize] {
                Slot::Free { next_free } => *next_free,
                Slot::Allocated { .. } => 0,
            };
            self.slots.set(result as usize, new_slot);
            self.header.next_free = new_next;
            self.header.used = self.header.used + 1;
            if self.value_size == 0 {
                proof {
                    // An oversize table has a single slot; with it free there
                    // are no external bytes yet.
                    if let DatumSize::Size(c) = old(self).spec_datum_size() {
                        crate::datum_size::lemma_class_size_bounds(c as int);
                    }
                    assert(old(self).spec_datum_size() is Oversize);
                    assert(old(self).spec_capacity() == 1);
                    assert(old(self).spec_touched() == 1 && old(self).spec_used() == 0);
                    assert(result == 0);
                    assert(external_sum(old(self).slots@, 0) == 0);
                    assert(old(self).slots@[0] is Free);
                    assert(external_sum(old(self).slots@, 1) == 0);
                }
                self.header.external_data = self.header.external_data + actual_size as u64;
            }
            proof {
                let fl = old(self).free_list@;
                self.free_list = Ghost(fl.subrange(1, fl.len() as int));
                let nfl = self.free_list@;
                let n = old(self).slots@.len() as int;
                let touched = old(self).spec_touched();
                lemma_external_sum_update(old(self).slots@, self.slots@, result as int, n);
                lemma_mapped_sum_update(
                    old(self).slots@,
                    old(self).mapped@,
                    self.slots@,
                    self.mapped@,
                    result as int,
                    n,
                );
                lemma_mapped_count_equal(old(self).mapped@, self.mapped@, n);
                // The popped head leaves a well-formed shorter chain.
                assert forall|k: int|
                    0 <= k < nfl.len() implies (#[trigger] nfl[k]) < touched
                    && self.slots@[nfl[k] as int] is Free by {
                    assert(nfl[k] == fl[k + 1]);
                    assert(fl[k + 1] != fl[0]);
                }
                assert forall|k: int|
                    0 <= k < nfl.len() - 1 implies (#[trigger] self.slots@[nfl[k] as int])
                    ->Free_next_free == nfl[k + 1] by {
                    assert(nfl[k] == fl[k + 1] && nfl[k + 1] == fl[k + 2]);
                    assert(fl[k + 1] != fl[0]);
                    assert(old(self).slots@[fl[k + 1] as int]->Free_next_free == fl[k + 2]);
                }
                if nfl.len() > 0 {
                    assert(old(self).slots@[fl[0] as int]->Free_next_free == fl[1]);
                    assert(self.header.next_free == nfl[0]);
                }
                assert forall|i: int|
                    0 <= i < touched implies ((#[trigger] self.slots@[i]) is Free
                    <==> nfl.contains(i as u16)) by {
                    if i == result as int {
                        if nfl.contains(i as u16) {
                            let k = choose|k: int| 0 <= k < nfl.len() && nfl[k] == i as u16;
                            assert(fl[k + 1] == fl[0]);
                            assert(false);
                        }
                    } else {
                        if old(self).slots@[i] is Free {
                            assert(fl.contains(i as u16));
                            let k = choose|k: int| 0 <= k < fl.len() && fl[k] == i as u16;
                            assert(k != 0);
                            assert(nfl[k - 1] == i as u16);
                            assert(nfl.contains(i as u16));
                        }
                        if nfl.contains(i as u16) {
                            let k = choose|k: int| 0 <= k < nfl.len() && nfl[k] == i as u16;
                            assert(fl[k + 1] == i as u16);
                            assert(fl.contains(i as u16));
                        }
                    }
                }
                assert forall|j: int|
                    0 <= j < self.mapped@.len() && (#[trigger] self.mapped@[j]) is Some
                    implies self.slots@[j] is Allocated by {
                    if j != result as int {
                        assert(self.slots@[j] == old(self).slots@[j]);
                    } else {
                        assert(old(self).slots@[j] is Free);
                    }
                }
                assert forall|j: int| 0 <= j < n implies self.slot_ok(#[trigger] self.slots@[j])
                by {
                    if j != result as int {
                        assert(self.slots@[j] == old(self).slots@[j]);
                    }
                }
                assert(self@ =~= old(self)@.update(
                    result as int,
                    Some(
                        SlotModel {
                            key: key@,
                            data: Seq::new(actual_size as nat, |q: int| 0u8),
                            ref_count: 1,
                        },
                    ),
                ));
            }
            Some(result)
        } else {
            if self.header.touched_count < self.item_count {
                let result: TableItemIndex = self.header.touched_count as TableItemIndex;
                if self.header.touched_count >= self.backed {
                    let doubled: TableItemCount = if self.backed > 32768 {
                        self.item_count
                    } else if self.backed * 2 > self.item_count {
                        self.item_count
                    } else if self.backed * 2 > self.header.touched_count {
                        self.backed * 2
                    } else {
                        self.header.touched_count + 1
                    };
                    self.backed = doubled;
                }
                self.slots.push(new_slot);
                self.mapped.push(None);
                self.header.touched_count = self.header.touched_count + 1;
                self.header.used = self.header.used + 1;
                if self.value_size == 0 {
                    proof {
                        // An oversize table has a single slot; it is only now
                        // being touched, so there are no external bytes yet.
                        if let DatumSize::Size(c) = old(self).spec_datum_size() {
                            crate::datum_size::lemma_class_size_bounds(c as int);
                        }
                        assert(old(self).spec_datum_size() is Oversize);
                        assert(old(self).spec_capacity() == 1);
                        assert(old(self).spec_touched() == 0);
                        assert(external_sum(old(self).slots@, 0) == 0);
                    }
                    self.header.external_data = self.header.external_data + actual_size as u64;
                }
                proof {
                    let n = old(self).slots@.len() as int;
                    let fl = self.free_list@;
                    lemma_external_sum_equal(old(self).slots@, self.slots@, n);
                    lemma_mapped_sum_equal(old(self).slots@, old(self).mapped@, self.slots@,
                        self.mapped@, n);
                    lemma_mapped_count_equal(old(self).mapped@, self.mapped@, n);
                    assert(external_sum(self.slots@, n + 1) == external_sum(self.slots@, n)
                        + actual_size as int);
                    assert(mapped_sum(self.slots@, self.mapped@, n + 1) == mapped_sum(
                        self.slots@,
                        self.mapped@,
                        n,
                    ));
                    assert(mapped_count(self.mapped@, n + 1) == mapped_count(self.mapped@, n));
                    assert forall|k: int|
                        0 <= k < fl.len() implies (#[trigger] fl[k]) < self.spec_touched()
                        && self.slots@[fl[k] as int] is Free by {
                        assert(fl[k] < old(self).spec_touched());
                        assert(self.slots@[fl[k] as int] == old(self).slots@[fl[k] as int]);
                    }
                    assert forall|k: int|
                        0 <= k < fl.len() - 1 implies (#[trigger] self.slots@[fl[k] as int])
                        ->Free_next_free == fl[k + 1] by {
                        assert(self.slots@[fl[k] as int] == old(self).slots@[fl[k] as int]);
                    }
                    assert forall|i: int|
                        0 <= i < self.spec_touched() implies ((#[trigger] self.slots@[i]) is Free
                        <==> fl.contains(i as u16)) by {
                        if i < old(self).spec_touched() {
                            assert(self.slots@[i] == old(self).slots@[i]);
                        } else {
                            assert(i == result as int);
                            if fl.contains(i as u16) {
                                let k = choose|k: int| 0 <= k < fl.len() && fl[k] == i as u16;
                                assert(fl[k] < old(self).spec_touched());
                                assert(false);
                            }
                        }
                    }
                    assert forall|j: int|
                        0 <= j < self.mapped@.len() && (#[trigger] self.mapped@[j]) is Some
                        implies self.slots@[j] is Allocated by {
                        if j < n {
                            assert(self.mapped@[j] == old(self).mapped@[j]);
                            assert(self.slots@[j] == old(self).slots@[j]);
                        }
                    }
                    assert forall|j: int|
                        0 <= j < n + 1 implies self.slot_ok(#[trigger] self.slots@[j]) by {
                        if j < n {
                            assert(self.slots@[j] == old(self).slots@[j]);
                        }
                    }
                    assert(self@ =~= old(self)@.update(
                        result as int,
                        Some(
                            SlotModel {
                                key: key@,
                                data: Seq::new(actual_size as nat, |q: int| 0u8),
                                ref_count: 1,
                            },
                        ),
                    ));
                }
                Some(result)
            } else {
                proof {
                    assert(self@ =~= old(self)@);
                }
                None
            }
        }
    }

    /// Free up a slot, or decrease its reference count if it is greater
    /// than one. Returns the number of references remaining, or Err if the
    /// slot was already free or the given hash does not match.
    pub fn free(&mut self, i: TableItemIndex, check_hash: Option<&Vec<u8>>) -> (r: Result<
        RefCount,
        (),
    >)
        requires
            old(self).wf(),
        ensures
            final(self).wf(),
            same_config(old(self), final(self)),
            final(self).spec_touched() == old(self).spec_touched(),
            final(self).spec_backed() == old(self).spec_backed(),
            final(self).spec_mapped_bytes() <= old(self).spec_mapped_bytes(),
            final(self).spec_mapped_count() <= old(self).spec_mapped_count(),
            match r {
                Ok(n) => {
                    &&& (i as int) < old(self)@.len()
                    &&& old(self)@[i as int] is Some
                    &&& (check_hash is Some ==> check_hash->Some_0@ == old(self)@[i as int]
                        ->Some_0.key)
                    &&& n == old(self)@[i as int]->Some_0.ref_count - 1
                    &&& (n > 0 ==> {
                        &&& final(self)@ == old(self)@.update(
                            i as int,
                            Some(
                                SlotModel {
                                    ref_count: (old(self)@[i as int]->Some_0.ref_count - 1) as nat,
                                    ..old(self)@[i as int]->Some_0
                                },
                            ),
                        )
                        &&& final(self).spec_used() == old(self).spec_used()
                        &&& final(self).spec_external_data() == old(self).spec_external_data()
                    })
                    &&& (n == 0 ==> {
                        &&& final(self)@ == old(self)@.update(i as int, None)
                        &&& final(self).spec_used() == old(self).spec_used() - 1
                        &&& final(self).spec_next_free() == i as int
                        &&& final(self).spec_external_data() == old(self).spec_external_data() - (
                        if old(self).spec_value_size() == 0 {
                            old(self)@[i as int]->Some_0.data.len() as int
                        } else {
                            0
                        })
                    })
                }
                Err(()) => {
                    &&& final(self)@ == old(self)@
                    &&& final(self).spec_used() == old(self).spec_used()
                    &&& final(self).spec_external_data() == old(self).spec_external_data()
                    &&& final(self).spec_mapped_bytes() == old(self).spec_mapped_bytes()
                    &&& ((i as int) >= old(self)@.len() || old(self)@[i as int] is None || (
                    check_hash is Some && check_hash->Some_0@ != old(self)@[i as int]->Some_0.key))
                }
            },
    {
        if (i as TableItemCount) >= self.header.touched_count {
            return Err(());
        }
        let idx = i as usize;
        let mut tmp = Slot::Free { next_free: 0 };
        core::mem::swap(&mut tmp, &mut self.slots[idx]);
        match tmp {
            Slot::Allocated { ref_count, size_correction, key, value } => {
                let ok = match check_hash {
                    Some(h) => crate::bytes::bytes_eq(h, &key),
                    None => true,
                };
                if !ok {
                    self.slots.set(
                        idx,
                        Slot::Allocated { ref_count, size_correction, key, value },
                    );
                    proof {
                        assert(self.slots@ =~= old(self).slots@);
                        assert(self@ =~= old(self)@);
                    }
                    return Err(());
                }
                if ref_count > 1 {
                    let new_rc = ref_count - 1;
                    self.slots.set(
                        idx,
                        Slot::Allocated { ref_count: new_rc, size_correction, key, value },
                    );
                    proof {
                        self.lemma_restore_slot(old(self), idx as int);
                        lemma_mapped_count_equal(
                            old(self).mapped@,
                            self.mapped@,
                            self.mapped@.len() as int,
                        );
                        assert(self@ =~= old(self)@.update(
                            i as int,
                            Some(
                                SlotModel {
                                    ref_count: new_rc as nat,
                                    ..old(self)@[i as int]->Some_0
                                },
                            ),
                        ));
                    }
                    Ok(new_rc)
                } else {
                    let vlen: usize = value.len();
                    self.slots.set(idx, Slot::Free { next_free: self.header.next_free });
                    proof {
                        let n = old(self).slots@.len() as int;
                        lemma_external_sum_update(old(self).slots@, self.slots@, idx as int, n);
                        lemma_mapped_le_external(self.slots@, self.mapped@, n);
                        old(self).lemma_used_nonzero(idx as int);
                        old(self).lemma_allocated_not_in_free_list(idx as int);
                    }
                    // Drop the mapping of the slot's external file, if any.
                    if self.mapped[idx].is_some() {
                        self.mapped.set(idx, None);
                        proof {
                            let n = old(self).slots@.len() as int;
                            lemma_mapped_sum_update(
                                old(self).slots@,
                                old(self).mapped@,
                                self.slots@,
                                self.mapped@,
                                idx as int,
                                n,
                            );
                            lemma_mapped_count_update(
                                old(self).mapped@,
                                self.mapped@,
                                idx as int,
                                n,
                            );
                            lemma_mapped_le_external(self.slots@, self.mapped@, n);
                            lemma_mapped_count_zero(self.slots@, self.mapped@, n);
                        }
                        self.mapped_bytes = self.mapped_bytes - vlen as u64;
                    } else {
                        proof {
                            let n = old(self).slots@.len() as int;
                            lemma_mapped_sum_update(
                                old(self).slots@,
                                old(self).mapped@,
                                self.slots@,
                                self.mapped@,
                                idx as int,
                                n,
                            );
                            lemma_mapped_count_equal(old(self).mapped@, self.mapped@, n);
                        }
                    }
                    if self.value_size == 0 {
                        self.header.external_data = self.header.external_data - vlen as u64;
                    }
                    self.header.used = self.header.used - 1;
                    self.header.next_free = i;
                    proof {
                        let fl = old(self).free_list@;
                        self.free_list = Ghost(seq![i as u16] + fl);
                        let nfl = self.free_list@;
                        let n = old(self).slots@.len() as int;
                        let touched = old(self).spec_touched();
                        assert(nfl[0] == i as u16);
                        assert forall|k: int|
                            0 <= k < nfl.len() implies (#[trigger] nfl[k]) < touched
                            && self.slots@[nfl[k] as int] is Free by {
                            if k > 0 {
                                assert(nfl[k] == fl[k - 1]);
                                if fl[k - 1] == i as u16 {
                                    assert(fl.contains(i as u16));
                                    assert(false);
                                }
                            }
                        }
                        assert forall|k1: int, k2: int|
                            0 <= k1 < k2 < nfl.len() implies nfl[k1] != nfl[k2] by {
                            if k1 == 0 {
                                if fl[k2 - 1] == i as u16 {
                                    assert(fl.contains(i as u16));
                                    assert(false);
                                }
                            } else {
                                assert(nfl[k1] == fl[k1 - 1] && nfl[k2] == fl[k2 - 1]);
                            }
                        }
                        assert forall|k: int|
                            0 <= k < nfl.len() - 1 implies (#[trigger] self.slots@[nfl[k] as int])
                            ->Free_next_free == nfl[k + 1] by {
                            if k == 0 {
                                assert(self.slots@[i as int]->Free_next_free == old(
                                    self,
                                ).header.next_free);
                                assert(old(self).free_list@.len() > 0);
                                assert(nfl[1] == fl[0]);
                            } else {
                                assert(nfl[k] == fl[k - 1] && nfl[k + 1] == fl[k]);
                                if fl[k - 1] == i as u16 {
                                    assert(fl.contains(i as u16));
                                    assert(false);
                                }
                                assert(self.slots@[fl[k - 1] as int] == old(self).slots@[fl[k
                                    - 1] as int]);
                            }
                        }
                        assert forall|q: int|
                            0 <= q < touched implies ((#[trigger] self.slots@[q]) is Free
                            <==> nfl.contains(q as u16)) by {
                            if q == i as int {
                                assert(nfl[0] == q as u16);
                                assert(nfl.contains(q as u16));
                            } else {
                                assert(self.slots@[q] == old(self).slots@[q]);
                                if old(self).slots@[q] is Free {
                                    assert(fl.contains(q as u16));
                                    let k = choose|k: int| 0 <= k < fl.len() && fl[k] == q as u16;
                                    assert(nfl[k + 1] == q as u16);
                                    assert(nfl.contains(q as u16));
                                }
                                if nfl.contains(q as u16) {
                                    let k = choose|k: int|
                                        0 <= k < nfl.len() && nfl[k] == q as u16;
                                    assert(k != 0);
                                    assert(fl[k - 1] == q as u16);
                                    assert(fl.contains(q as u16));
                                }
                            }
                        }
                        assert forall|j: int|
                            0 <= j < self.mapped@.len() && (#[trigger] self.mapped@[j]) is Some
                            implies self.slots@[j] is Allocated by {
                            assert(j != idx as int);
                            assert(self.mapped@[j] == old(self).mapped@[j]);
                            assert(self.slots@[j] == old(self).slots@[j]);
                        }
                        assert forall|j: int|
                            0 <= j < n implies self.slot_ok(#[trigger] self.slots@[j]) by {
                            if j != idx as int {
                                assert(self.slots@[j] == old(self).slots@[j]);
                            }
                        }
                        assert(self@ =~= old(self)@.update(i as int, None));
                    }
                    Ok(0)
                }
            }
            Slot::Free { next_free } => {
                self.slots.set(idx, Slot::Free { next_free });
                proof {
                    assert(self.slots@ =~= old(self).slots@);
                    assert(self@ =~= old(self)@);
                }
                Err(())
            }
        }
    }
}

/// The size-correction value held in a record, for a given width.
pub open spec fn corr_val(main: Seq<u8>, at: int, cw: int) -> int {
    if cw == 0 {
        0
    } else if cw == 1 {
        main[at] as int
    } else if cw == 2 {
        crate::bytes::le16_val(main[at], main[at + 1])
    } else {
        crate::bytes::le32_val(main[at], main[at + 1], main[at + 2], main[at + 3])
    }
}

/// Whether the record at `off` of a main image, together with the slot's
/// external file, holds exactly the given slot content. `cw`, `klen` and
/// `vsize` are the table's correction width, key length and value size.
pub open spec fn record_describes(
    main: Seq<u8>,
    off: int,
    cw: int,
    klen: int,
    vsize: int,
    ext: Option<Seq<u8>>,
    m: Option<SlotModel>,
) -> bool {
    &&& off >= 0
    &&& off + vsize + 2 + cw + klen <= main.len()
    &&& match m {
        None => main[off] == 0 && ext is None,
        Some(sm) => {
            let corr = corr_val(main, off + 2, cw);
            &&& main[off] >= 0x80
            &&& sm.ref_count == (main[off] - 0x80) * 256 + main[off + 1]
            &&& sm.key == main.subrange(off + 2 + cw, off + 2 + cw + klen)
            &&& if vsize > 0 {
                &&& ext is None
                &&& corr <= vsize
                &&& sm.data == main.subrange(off + 2 + cw + klen, off + 2 + cw + klen + (vsize
                    - corr))
            } else {
                &&& ext is Some
                &&& sm.data == ext->0
            }
        }
    }
}

/// The external file of slot `i` in a file set, as a sequence.
pub open spec fn external_at(externals: Seq<Option<Vec<u8>>>, i: int) -> Option<Seq<u8>> {
    if 0 <= i < externals.len() {
        match externals[i] {
            Some(v) => Some(v@),
            None => None,
        }
    } else {
        None
    }
}

/// A table's whole slot image is small: at most eight MiB.
proof fn lemma_image_small(t: &Table)
    requires
        t.wf(),
    ensures
        t.spec_item_size() <= 98374,
        t.spec_capacity() * t.spec_item_size() <= 0x800000,
{
    let entries = t.spec_capacity();
    let vs = t.spec_value_size();
    let ihs = t.spec_item_size() - vs;
    assert(ihs <= 70);
    match t.spec_datum_size() {
        DatumSize::Oversize => {
            assert(entries == 1);
        }
        DatumSize::Size(c) => {
            crate::datum_size::lemma_class_size_bounds(c as int);
            let q: int = (2048 * 1024) as int / class_size(c as int);
            vstd::arithmetic::div_mod::lemma_fundamental_div_mod(
                (2048 * 1024) as int,
                class_size(c as int),
            );
            vstd::arithmetic::div_mod::lemma_div_non_zero(
                (2048 * 1024) as int,
                class_size(c as int),
            );
            assert(class_size(c as int) * q <= 2048 * 1024);
            assert(entries <= q);
            assert(vs * entries <= vs * q) by (nonlinear_arith)
                requires
                    entries <= q,
                    vs >= 0,
            ;
            assert(vs * q == class_size(c as int) * q);
            assert(entries * ihs <= 65536 * 70) by (nonlinear_arith)
                requires
                    0 <= entries <= 65536,
                    0 <= ihs <= 70,
            ;
            assert(entries * t.spec_item_size() == entries * vs + entries * ihs)
                by (nonlinear_arith)
                requires
                    t.spec_item_size() == vs + ihs,
            ;
            assert(entries * vs == vs * entries) by (nonlinear_arith);
        }
    }
}

/// How a table's serialised files describe it: an 18-byte header, one
/// record per backed slot, and one external payload file exactly per
/// allocated oversize slot.
pub open spec fn table_files_describe(t: Table, f: TableFiles) -> bool {
    &&& f.main@.len() == 18 + t.spec_backed() * t.spec_item_size()
    &&& f.main@.subrange(0, 4) == crate::bytes::u32_le(t.spec_used() as u32)
    &&& f.main@.subrange(4, 6) == crate::bytes::u16_le(t.spec_next_free() as u16)
    &&& f.main@.subrange(6, 10) == crate::bytes::u32_le(t.spec_touched() as u32)
    &&& f.main@.subrange(10, 18) == crate::bytes::u64_le(t.spec_external_data() as u64)
    &&& (forall|i: int|
        0 <= i < t.spec_backed() ==> record_describes(
            f.main@,
            18 + i * t.spec_item_size(),
            t.spec_correction_width(),
            t.spec_key_len(),
            t.spec_value_size(),
            external_at(f.externals@, i),
            (if i < t@.len() {
                t@[i]
            } else {
                None
            }),
        ))
    &&& f.externals@.len() == t.spec_touched()
    &&& (forall|i: int|
        0 <= i < f.externals@.len() ==> (external_at(f.externals@, i) is Some <==> (
        t.spec_value_size() == 0 && (#[trigger] t@[i]) is Some)))
    &&& (forall|i: int|
        0 <= i < f.externals@.len() && external_at(f.externals@, i) is Some ==> (
        #[trigger] external_at(f.externals@, i))->0 == t@[i]->Some_0.data)
}

/// How a table opened from file images reflects them: an empty main image
/// gives an empty table, a real one hands its header fields and records
/// through.
pub open spec fn table_opened_from(main: Seq<u8>, externals: Seq<Option<Vec<u8>>>, t: Table) -> bool {
    &&& (main.len() == 0 ==> t.spec_used() == 0 && t.spec_touched() == 0
        && t.spec_external_data() == 0 && (forall|i: int|
        0 <= i < t@.len() ==> (#[trigger] t@[i]) is None))
    &&& (main.len() > 0 ==> {
        &&& main.len() >= 18
        &&& t.spec_used() == crate::bytes::le32_val(main[0], main[1], main[2], main[3])
        &&& t.spec_touched() == crate::bytes::le32_val(main[6], main[7], main[8], main[9])
        &&& t.spec_external_data() == crate::bytes::le64_val(
            main[10],
            main[11],
            main[12],
            main[13],
            main[14],
            main[15],
            main[16],
            main[17],
        )
        &&& (forall|i: int|
            0 <= i < t.spec_touched() ==> record_describes(
                main,
                18 + i * t.spec_item_size(),
                t.spec_correction_width(),
                t.spec_key_len(),
                t.spec_value_size(),
                external_at(externals, i),
                t@[i],
            ))
    })
}


/// A table written out to files and a table of the same configuration opened
/// from those files agree: the occupancy, the high-water mark, the external
/// byte total and every slot survive the round trip.
pub proof fn lemma_table_round_trip(t1: Table, f: TableFiles, t2: Table)
    requires
        t1.wf(),
        t2.wf(),
        t2.spec_datum_size() == t1.spec_datum_size(),
        t2.spec_key_len() == t1.spec_key_len(),
        table_files_describe(t1, f),
        table_opened_from(f.main@, f.externals@, t2),
    ensures
        t2.spec_used() == t1.spec_used(),
        t2.spec_touched() == t1.spec_touched(),
        t2.spec_external_data() == t1.spec_external_data(),
        t2@ == t1@,
{
    let m = f.main@;
    vstd::arithmetic::mul::lemma_mul_nonnegative(t1.spec_backed(), t1.spec_item_size());
    assert(m.len() >= 18);
    crate::bytes::lemma_u32_le_val(t1.spec_used() as u32);
    crate::bytes::lemma_u32_le_val(t1.spec_touched() as u32);
    crate::bytes::lemma_u64_le_val(t1.spec_external_data() as u64);
    assert(m[0] == m.subrange(0, 4)[0] && m[1] == m.subrange(0, 4)[1] && m[2] == m.subrange(
        0,
        4,
    )[2] && m[3] == m.subrange(0, 4)[3]);
    assert(m[6] == m.subrange(6, 10)[0] && m[7] == m.subrange(6, 10)[1] && m[8] == m.subrange(
        6,
        10,
    )[2] && m[9] == m.subrange(6, 10)[3]);
    assert(m[10] == m.subrange(10, 18)[0] && m[11] == m.subrange(10, 18)[1] && m[12]
        == m.subrange(10, 18)[2] && m[13] == m.subrange(10, 18)[3] && m[14] == m.subrange(
        10,
        18,
    )[4] && m[15] == m.subrange(10, 18)[5] && m[16] == m.subrange(10, 18)[6] && m[17]
        == m.subrange(10, 18)[7]);
    assert(t2.spec_used() == t1.spec_used());
    assert(t2.spec_touched() == t1.spec_touched());
    assert(t2.spec_external_data() == t1.spec_external_data());
    assert forall|i: int| 0 <= i < t1@.len() implies t2@[i] == t1@[i] by {
        if i < t1.spec_touched() {
            let off = 18 + i * t1.spec_item_size();
            let cw = t1.spec_correction_width();
            let klen = t1.spec_key_len();
            let vsize = t1.spec_value_size();
            let ext = external_at(f.externals@, i);
            assert(record_describes(m, off, cw, klen, vsize, ext, t1@[i]));
            assert(record_describes(m, off, cw, klen, vsize, ext, t2@[i]));
            match t1@[i] {
                None => {
                    assert(m[off] == 0);
                    assert(t2@[i] is None);
                }
                Some(s1) => {
                    assert(m[off] >= 0x80);
                    assert(t2@[i] is Some);
                    let s2 = t2@[i]->0;
                    assert(s1.ref_count == s2.ref_count);
                    assert(s1.key == s2.key);
                    assert(s1.data == s2.data);
                    assert(s1 == s2);
                }
            }
        } else {
            assert(t1@[i] is None);
            assert(t2@[i] is None);
        }
    }
    assert(t2@ =~= t1@);
}

impl Table {
    /// Appends the record of slot `i` (a zero record for never-touched
    /// slots) to `out`.
    #[verifier::rlimit(100)]
    fn encode_record(&self, out: &mut Vec<u8>, i: usize)
        requires
            self.wf(),
            (i as int) < self.spec_backed(),
        ensures
            final(out)@.len() == old(out)@.len() + self.spec_item_size(),
            final(out)@.subrange(0, old(out)@.len() as int) == old(out)@,
            record_describes(
                final(out)@,
                old(out)@.len() as int,
                self.spec_correction_width(),
                self.spec_key_len(),
                self.spec_value_size(),
                (if self.spec_value_size() == 0 && (i as int) < self@.len() && self@[i as int]
                    is Some {
                    Some(self@[i as int]->Some_0.data)
                } else {
                    None
                }),
                (if (i as int) < self@.len() {
                    self@[i as int]
                } else {
                    None
                }),
            ),
    {
        let ghost start = out@.len() as int;
        if (i as TableItemCount) < self.header.touched_count {
            match &self.slots[i] {
                Slot::Allocated { ref_count, size_correction, key, value } => {
                    out.push(0x80 + (ref_count / 256) as u8);
                    out.push((ref_count % 256) as u8);
                    if self.correction_width == 1 {
                        out.push((*size_correction % 256) as u8);
                    } else if self.correction_width == 2 {
                        crate::bytes::push_u16(out, (*size_correction % 65536) as u16);
                    } else if self.correction_width == 4 {
                        crate::bytes::push_u32(out, *size_correction);
                    }
                    crate::bytes::push_bytes(out, key);
                    if self.value_size > 0 {
                        crate::bytes::push_bytes(out, value);
                        crate::bytes::push_repeat(out, 0, *size_correction as usize);
                    }
                    proof {
                        let s = out@;
                        let cw = self.spec_correction_width();
                        let klen = self.spec_key_len();
                        let vsize = self.spec_value_size();
                        assert(s[start] == 0x80 + self.slots@[i as int]->Allocated_ref_count as int
                            / 256);
                        assert(s[start] - 0x80 == self.slots@[i as int]->Allocated_ref_count as int
                            / 256);
                        vstd::arithmetic::div_mod::lemma_fundamental_div_mod(
                            self.slots@[i as int]->Allocated_ref_count as int,
                            256,
                        );
                        assert(corr_val(s, start + 2, cw) == self.slots@[i as int]
                            ->Allocated_size_correction as int) by {
                            if cw == 2 {
                                crate::bytes::lemma_u16_le_val(
                                    (self.slots@[i as int]->Allocated_size_correction as int
                                        % 65536) as u16,
                                );
                            } else if cw == 4 {
                                crate::bytes::lemma_u32_le_val(
                                    self.slots@[i as int]->Allocated_size_correction,
                                );
                            }
                        };
                        assert(s.subrange(start + 2 + cw, start + 2 + cw + klen) =~= self.slots@[
                            i as int]->Allocated_key@);
                        if vsize > 0 {
                            assert(s.subrange(
                                start + 2 + cw + klen,
                                start + 2 + cw + klen + (vsize - corr_val(s, start + 2, cw)),
                            ) =~= self.slots@[i as int]->Allocated_value@);
                        }
                        assert(s.subrange(0, start) =~= old(out)@);
                    }
                }
                Slot::Free { next_free } => {
                    out.push(0);
                    crate::bytes::push_u16(out, *next_free);
                    crate::bytes::push_repeat(out, 0, self.item_size - 3);
                    proof {
                        assert(out@.subrange(0, start) =~= old(out)@);
                        assert(out@[start] == 0);
                    }
                }
            }
        } else {
            crate::bytes::push_repeat(out, 0, self.item_size);
            proof {
                assert(out@.subrange(0, start) =~= old(out)@);
                assert(out@[start] == 0);
            }
        }
    }

    /// Serialises the table: the main image (header then one record per
    /// backed slot) and one external file per mapped-out oversize payload.
    #[verifier::rlimit(100)]
    pub fn to_files(&self) -> (r: TableFiles)
        requires
            self.wf(),
        ensures
            table_files_describe(*self, r),
    {
        proof {
            lemma_image_small(self);
            vstd::arithmetic::mul::lemma_mul_upper_bound(
                self.spec_backed(),
                self.spec_capacity(),
                self.spec_item_size(),
                98374,
            );
            vstd::arithmetic::mul::lemma_mul_inequality(
                self.spec_backed(),
                self.spec_capacity(),
                self.spec_item_size(),
            );
        }
        let mut main: Vec<u8> = Vec::new();
        crate::bytes::push_u32(&mut main, self.header.used);
        crate::bytes::push_u16(&mut main, self.header.next_free);
        crate::bytes::push_u32(&mut main, self.header.touched_count);
        crate::bytes::push_u64(&mut main, self.header.external_data);
        proof {
            assert(main@.len() == 18);
        }
        let mut i: usize = 0;
        while (i as TableItemCount) < self.backed
            invariant
                self.wf(),
                i <= self.backed,
                main@.len() == 18 + i * self.spec_item_size(),
                main@.subrange(0, 4) == crate::bytes::u32_le(self.header.used),
                main@.subrange(4, 6) == crate::bytes::u16_le(self.header.next_free),
                main@.subrange(6, 10) == crate::bytes::u32_le(self.header.touched_count),
                main@.subrange(10, 18) == crate::bytes::u64_le(self.header.external_data),
                forall|j: int|
                    0 <= j < i ==> record_describes(
                        main@,
                        18 + j * self.spec_item_size(),
                        self.spec_correction_width(),
                        self.spec_key_len(),
                        self.spec_value_size(),
                        (if self.spec_value_size() == 0 && j < self@.len() && self@[j] is Some {
                            Some(self@[j]->Some_0.data)
                        } else {
                            None
                        }),
                        (if j < self@.len() {
                            self@[j]
                        } else {
                            None
                        }),
                    ),
            decreases self.spec_backed() - i,
        {
            let ghost before = main@;
            proof {
                lemma_image_small(self);
                vstd::arithmetic::mul::lemma_mul_upper_bound(
                    self.spec_backed(),
                    self.spec_capacity(),
                    self.spec_item_size(),
                    98374,
                );
                vstd::arithmetic::mul::lemma_mul_is_distributive_add_other_way(
                    self.spec_item_size() as int,
                    i as int,
                    1,
                );
                vstd::arithmetic::mul::lemma_mul_inequality(
                    i as int + 1,
                    self.spec_backed(),
                    self.spec_item_size(),
                );
            }
            self.encode_record(&mut main, i);
            proof {
                assert forall|j: int|
                    0 <= j < i + 1 implies record_describes(
                    main@,
                    18 + j * self.spec_item_size(),
                    self.spec_correction_width(),
                    self.spec_key_len(),
                    self.spec_value_size(),
                    (if self.spec_value_size() == 0 && j < self@.len() && self@[j] is Some {
                        Some(self@[j]->Some_0.data)
                    } else {
                        None
                    }),
                    (if j < self@.len() {
                        self@[j]
                    } else {
                        None
                    }),
                ) by {
                    if j < i {
                        lemma_record_describes_extend(
                            before,
                            main@,
                            18 + j * self.spec_item_size(),
                            self.spec_correction_width(),
                            self.spec_key_len(),
                            self.spec_value_size(),
                            (if self.spec_value_size() == 0 && j < self@.len() && self@[j]
                                is Some {
                                Some(self@[j]->Some_0.data)
                            } else {
                                None
                            }),
                            (if j < self@.len() {
                                self@[j]
                            } else {
                                None
                            }),
                        );
                        vstd::arithmetic::mul::lemma_mul_inequality(
                            j + 1,
                            i as int,
                            self.spec_item_size(),
                        );
                        vstd::arithmetic::mul::lemma_mul_is_distributive_add_other_way(
                            self.spec_item_size() as int,
                            j,
                            1,
                        );
                    }
                }
                assert(main@.subrange(0, 4) =~= before.subrange(0, 4));
                assert(main@.subrange(4, 6) =~= before.subrange(4, 6));
                assert(main@.subrange(6, 10) =~= before.subrange(6, 10));
                assert(main@.subrange(10, 18) =~= before.subrange(10, 18));
            }
            i = i + 1;
        }
        // One external file per allocated oversize slot.
        let mut externals: Vec<Option<Vec<u8>>> = Vec::new();
        let mut k: usize = 0;
        while (k as TableItemCount) < self.header.touched_count
            invariant
                self.wf(),
                k <= self.spec_touched(),
                externals@.len() == k,
                forall|i: int|
                    0 <= i < k ==> (external_at(externals@, i) is Some <==> (self.spec_value_size()
                        == 0 && (#[trigger] self@[i]) is Some)),
                forall|i: int|
                    0 <= i < k && external_at(externals@, i) is Some ==> (#[trigger] external_at(
                        externals@,
                        i,
                    ))->0 == self@[i]->Some_0.data,
            decreases self.spec_touched() - k,
        {
            if self.value_size == 0 {
                match &self.slots[k] {
                    Slot::Allocated { value, .. } => {
                        externals.push(Some(crate::bytes::copy_bytes(value)));
                    }
                    Slot::Free { .. } => {
                        externals.push(None);
                    }
                }
            } else {
                externals.push(None);
            }
            k = k + 1;
        }
        proof {
            // The records only look at externals for oversize payloads, and
            // those agree with the view.
            assert forall|i: int|
                0 <= i < self.spec_backed() implies record_describes(
                main@,
                18 + i * self.spec_item_size(),
                self.spec_correction_width(),
                self.spec_key_len(),
                self.spec_value_size(),
                external_at(externals@, i),
                (if i < self@.len() {
                    self@[i]
                } else {
                    None
                }),
            ) by {
                assert(record_describes(
                    main@,
                    18 + i * self.spec_item_size(),
                    self.spec_correction_width(),
                    self.spec_key_len(),
                    self.spec_value_size(),
                    (if self.spec_value_size() == 0 && i < self@.len() && self@[i] is Some {
                        Some(self@[i]->Some_0.data)
                    } else {
                        None
                    }),
                    (if i < self@.len() {
                        self@[i]
                    } else {
                        None
                    }),
                ));
            }
        }
        let files = TableFiles { main, externals };
        proof {
            assert(table_files_describe(*self, files));
        }
        files
    }

    /// The stored head of the free list.
    pub closed spec fn spec_next_free(&self) -> int {
        self.header.next_free as int
    }

    /// Opens a table from its files, or a fresh one when the main image is
    /// empty. The image is validated: headers and slots must be consistent,
    /// and an external payload file must exist exactly for each allocated
    /// oversize slot. A malformed image is bad metadata.
    #[verifier::rlimit(100)]
    #[verifier::loop_isolation(false)]
    pub fn open(
        datum_size: DatumSize,
        key_len: usize,
        min_items_backed: TableItemCount,
        files: TableFiles,
    ) -> (r: Result<Table, crate::error::Error>)
        requires
            datum_size.wf(),
            1 <= key_len <= 64,
        ensures
            files.main@.len() == 0 ==> r is Ok,
            match r {
                Ok(t) => {
                    &&& t.wf()
                    &&& t.spec_datum_size() == datum_size
                    &&& t.spec_key_len() == key_len
                    &&& t.spec_mapped_bytes() == 0
                    &&& t.spec_mapped_count() == 0
                    &&& table_opened_from(files.main@, files.externals@, t)
                    // A fresh table backs the configured minimum, so its
                    // committed image length is fixed from the options.
                    &&& (files.main@.len() == 0 ==> t.spec_backed() == (
                    if min_items_backed as int <= entries_of(datum_size) {
                        min_items_backed as int
                    } else {
                        entries_of(datum_size)
                    }))
                }
                Err(e) => e == crate::error::Error::BadMetadata,
            },
    {
        let ghost m = files.main@;
        let ghost orig_ext = files.externals@;
        let mut t = Table::fresh(datum_size, key_len, min_items_backed);
        let TableFiles { main, mut externals } = files;
        if main.len() == 0 {
            return Ok(t);
        }
        if main.len() < 18 {
            return Err(crate::error::Error::BadMetadata);
        }
        let used: u32 = crate::bytes::get_u32(&main, 0);
        let stored_next: u16 = crate::bytes::get_u16(&main, 4);
        let touched: u32 = crate::bytes::get_u32(&main, 6);
        let external: u64 = crate::bytes::get_u64(&main, 10);
        let avail: usize = (main.len() - 18) / t.item_size;
        proof {
            let x: int = main@.len() as int - 18;
            let d: int = t.spec_item_size();
            vstd::arithmetic::div_mod::lemma_fundamental_div_mod(x, d);
            assert(avail as int == x / d);
            assert(d * (x / d) <= x);
            assert((avail as int) * d <= x) by (nonlinear_arith)
                requires
                    avail as int == x / d,
                    d * (x / d) <= x,
            ;
        }
        let mut backed_n: usize = avail;
        if backed_n > t.item_count as usize {
            backed_n = t.item_count as usize;
        }
        if (touched as usize) > backed_n || used > touched {
            return Err(crate::error::Error::BadMetadata);
        }
        if backed_n as TableItemCount > t.backed {
            t.backed = backed_n as TableItemCount;
        }
        if external > 0xFFFF_FFF0_0000_0000u64 {
            return Err(crate::error::Error::BadMetadata);
        }
        let mut frees: Vec<u16> = Vec::new();
        let mut ext_total: u64 = 0;
        let mut i: usize = 0;
        while i < touched as usize
            invariant
                t.geometry_ok(),
                t.spec_datum_size() == datum_size,
                t.key_len == key_len,
                touched as int <= backed_n as int,
                backed_n as int <= t.backed as int,
                t.backed <= t.item_count,
                t.min_items_backed <= t.item_count,
                backed_n <= avail,
                avail * t.spec_item_size() <= m.len() - 18,
                m.len() >= 18,
                m == main@,
                i <= touched as usize,
                t.slots@.len() == i,
                t.mapped@.len() == i,
                externals@.len() == orig_ext.len(),
                forall|q: int| i <= q < externals@.len() ==> externals@[q] == orig_ext[q],
                forall|j: int| 0 <= j < i ==> t.slot_ok(#[trigger] t.slots@[j]),
                forall|j: int| 0 <= j < i ==> (#[trigger] t.mapped@[j]) is None,
                forall|j: int|
                    0 <= j < i ==> record_describes(
                        m,
                        18 + j * t.spec_item_size(),
                        t.spec_correction_width(),
                        t.spec_key_len(),
                        t.spec_value_size(),
                        external_at(orig_ext, j),
                        (if (#[trigger] t.slots@[j]) is Allocated {
                            Some(
                                SlotModel {
                                    key: t.slots@[j]->Allocated_key@,
                                    data: t.slots@[j]->Allocated_value@,
                                    ref_count: t.slots@[j]->Allocated_ref_count as nat,
                                },
                            )
                        } else {
                            None
                        }),
                    ),
                forall|k: int|
                    0 <= k < frees@.len() ==> ((#[trigger] frees@[k]) as int) < i && (
                    t.slots@[frees@[k] as int] is Free),
                forall|k1: int, k2: int| 0 <= k1 < k2 < frees@.len() ==> frees@[k1] < frees@[k2],
                forall|j: int|
                    0 <= j < i ==> ((#[trigger] t.slots@[j]) is Free <==> frees@.contains(
                        j as u16,
                    )),
                t.spec_value_size() == 0 ==> ext_total as int == external_sum(
                    t.slots@,
                    i as int,
                ),
                ext_total <= 0xFFFF_FFF0_0000_0000u64,
                t.spec_value_size() > 0 ==> ext_total == 0,
                t.mapped_bytes == 0,
            decreases touched as int - i,
        {
            proof {
                vstd::arithmetic::mul::lemma_mul_inequality(
                    i as int + 1,
                    avail as int,
                    t.spec_item_size(),
                );
                vstd::arithmetic::mul::lemma_mul_is_distributive_add_other_way(
                    t.spec_item_size(),
                    i as int,
                    1,
                );
            }
            let off: usize = 18 + i * t.item_size;
            let ghost pre_slots = t.slots@;
            let b0: u8 = main[off];
            if b0 == 0 {
                let nf: u16 = crate::bytes::get_u16(&main, off + 1);
                if i < externals.len() {
                    if externals[i].is_some() {
                        return Err(crate::error::Error::BadMetadata);
                    }
                }
                t.slots.push(Slot::Free { next_free: nf });
                t.mapped.push(None);
                let ghost old_frees = frees@;
                frees.push(i as u16);
                proof {
                    lemma_external_sum_equal(pre_slots, t.slots@, i as int);
                    assert(external_sum(t.slots@, i + 1) == external_sum(t.slots@, i as int));
                    assert forall|j: int|
                        0 <= j < i + 1 implies ((#[trigger] t.slots@[j]) is Free
                        <==> frees@.contains(j as u16)) by {
                        if j < i {
                            if t.slots@[j] is Free {
                                let k = choose|k: int|
                                    0 <= k < old_frees.len() && old_frees[k] == j as u16;
                                assert(frees@[k] == j as u16);
                            }
                            if frees@.contains(j as u16) {
                                let k = choose|k: int|
                                    0 <= k < frees@.len() && frees@[k] == j as u16;
                                if k < old_frees.len() {
                                    assert(old_frees.contains(j as u16));
                                } else {
                                    assert(frees@[k] == i as u16);
                                    assert(false);
                                }
                            }
                        } else {
                            assert(frees@[frees@.len() - 1] == i as u16);
                        }
                    }
                }
            } else if b0 >= 0x80 {
                let rc: u16 = (b0 - 0x80) as u16 * 256 + main[off + 1] as u16;
                if rc == 0 {
                    return Err(crate::error::Error::BadMetadata);
                }
                let corr: u32 = if t.correction_width == 0 {
                    0
                } else if t.correction_width == 1 {
                    main[off + 2] as u32
                } else if t.correction_width == 2 {
                    crate::bytes::get_u16(&main, off + 2) as u32
                } else {
                    crate::bytes::get_u32(&main, off + 2)
                };
                let key = crate::bytes::read_bytes(&main, off + 2 + t.correction_width, key_len);
                if t.value_size > 0 {
                    if corr as usize > t.value_size {
                        return Err(crate::error::Error::BadMetadata);
                    }
                    if i < externals.len() {
                        if externals[i].is_some() {
                            return Err(crate::error::Error::BadMetadata);
                        }
                    }
                    let value = crate::bytes::read_bytes(
                        &main,
                        off + t.item_header_size,
                        t.value_size - corr as usize,
                    );
                    t.slots.push(
                        Slot::Allocated { ref_count: rc, size_correction: corr, key, value },
                    );
                    t.mapped.push(None);
                    proof {
                        lemma_external_sum_equal(pre_slots, t.slots@, i as int);
                        lemma_parse_frees_frame(pre_slots, t.slots@, frees@, i as int);
                    }
                } else {
                    if i >= externals.len() {
                        return Err(crate::error::Error::BadMetadata);
                    }
                    let mut ext_slot: Option<Vec<u8>> = None;
                    core::mem::swap(&mut ext_slot, &mut externals[i]);
                    match ext_slot {
                        Some(v) => {
                            let vl: usize = v.len();
                            let new_total = match ext_total.checked_add(vl as u64) {
                                Some(x) => x,
                                None => {
                                    return Err(crate::error::Error::BadMetadata);
                                }
                            };
                            if new_total > 0xFFFF_FFF0_0000_0000u64 {
                                return Err(crate::error::Error::BadMetadata);
                            }
                            ext_total = new_total;
                            t.slots.push(
                                Slot::Allocated {
                                    ref_count: rc,
                                    size_correction: 0,
                                    key,
                                    value: v,
                                },
                            );
                            t.mapped.push(None);
                            proof {
                                lemma_external_sum_equal(pre_slots, t.slots@, i as int);
                                lemma_parse_frees_frame(pre_slots, t.slots@, frees@, i as int);
                            }
                        }
                        None => {
                            return Err(crate::error::Error::BadMetadata);
                        }
                    }
                }
            } else {
                return Err(crate::error::Error::BadMetadata);
            }
            i = i + 1;
        }
        if frees.len() as u64 != (touched - used) as u64 {
            return Err(crate::error::Error::BadMetadata);
        }
        if t.value_size == 0 {
            if ext_total != external {
                return Err(crate::error::Error::BadMetadata);
            }
        } else {
            if external != 0 {
                return Err(crate::error::Error::BadMetadata);
            }
        }
        // Rebuild the free chain through the free slots in ascending order.
        let ghost parsed_slots = t.slots@;
        let mut k: usize = 0;
        while k < frees.len()
            invariant
                t.geometry_ok(),
                t.spec_datum_size() == datum_size,
                t.key_len == key_len,
                touched as int <= backed_n as int,
                backed_n as int <= t.backed as int,
                t.backed <= t.item_count,
                t.min_items_backed <= t.item_count,
                t.mapped@.len() == parsed_slots.len(),
                forall|j: int| 0 <= j < t.mapped@.len() ==> (#[trigger] t.mapped@[j]) is None,
                forall|j: int|
                    0 <= j < parsed_slots.len() ==> t.slot_ok(#[trigger] parsed_slots[j]),
                t.mapped_bytes == 0,
                t.slots@.len() == parsed_slots.len(),
                k <= frees@.len(),
                frees@.len() <= parsed_slots.len(),
                forall|kk: int|
                    0 <= kk < frees@.len() ==> ((#[trigger] frees@[kk]) as int)
                        < parsed_slots.len() && (parsed_slots[frees@[kk] as int] is Free),
                forall|k1: int, k2: int| 0 <= k1 < k2 < frees@.len() ==> frees@[k1] < frees@[k2],
                forall|j: int|
                    0 <= j < parsed_slots.len() ==> ((#[trigger] t.slots@[j]) is Free
                        <==> parsed_slots[j] is Free),
                forall|j: int|
                    0 <= j < parsed_slots.len() && parsed_slots[j] is Allocated ==> (
                    #[trigger] t.slots@[j]) == parsed_slots[j],
                forall|kk: int|
                    0 <= kk < k ==> (#[trigger] t.slots@[frees@[kk] as int])->Free_next_free == (
                    if kk + 1 < frees@.len() {
                        frees@[kk + 1]
                    } else {
                        0u16
                    }),
            decreases frees@.len() - k,
        {
            let target: u16 = frees[k];
            let nxt: u16 = if k + 1 < frees.len() {
                frees[k + 1]
            } else {
                0
            };
            let ghost before = t.slots@;
            t.slots.set(target as usize, Slot::Free { next_free: nxt });
            proof {
                assert forall|kk: int|
                    0 <= kk < k + 1 implies (#[trigger] t.slots@[frees@[kk] as int])
                    ->Free_next_free == (if kk + 1 < frees@.len() {
                    frees@[kk + 1]
                } else {
                    0u16
                }) by {
                    if kk < k {
                        assert(frees@[kk] < frees@[k as int]);
                        assert(t.slots@[frees@[kk] as int] == before[frees@[kk] as int]);
                    }
                }
            }
            k = k + 1;
        }
        t.header = TableHeader {
            used,
            next_free: if frees.len() > 0 {
                frees[0]
            } else {
                stored_next
            },
            touched_count: touched,
            external_data: external,
        };
        t.free_list = Ghost(frees@);
        proof {
            let n = t.slots@.len() as int;
            lemma_mapped_count_zero(t.slots@, t.mapped@, n);
            assert(mapped_sum(t.slots@, t.mapped@, n) == 0) by {
                lemma_mapped_count_zero(t.slots@, t.mapped@, n);
            };
            assert forall|j: int| 0 <= j < n implies t.slot_ok(#[trigger] t.slots@[j]) by {
                assert(t.slots@[j] is Free || t.slots@[j] == parsed_slots[j]);
            }
            assert(external_sum(t.slots@, n) == external_sum(parsed_slots, n)) by {
                lemma_external_sum_free_frame(parsed_slots, t.slots@, n);
            };
            assert forall|j: int|
                0 <= j < n implies ((#[trigger] t.slots@[j]) is Free <==> t.free_list@.contains(
                j as u16,
            )) by {
                assert(parsed_slots[j] is Free <==> frees@.contains(j as u16));
            }
            assert(t.geometry_ok());
            assert(t.header.used <= t.header.touched_count);
            assert(t.slots@.len() == t.header.touched_count);
            assert(t.header.touched_count <= t.backed);
            assert(t.backed <= t.item_count);
            assert(t.min_items_backed <= t.item_count);
            assert(t.free_list_ok());
            assert(t.mapped@.len() == t.slots@.len());
            assert(forall|j: int|
                0 <= j < t.mapped@.len() ==> (#[trigger] t.mapped@[j]) is None);
            assert(t.value_size > 0 ==> t.header.external_data == 0 && t.mapped_bytes == 0);
            assert(t.value_size == 0 ==> t.header.external_data as int == external_sum(
                t.slots@,
                t.slots@.len() as int,
            ));
            assert(t.mapped_bytes as int == mapped_sum(t.slots@, t.mapped@,
                t.slots@.len() as int));
            assert(t.header.external_data <= 0xFFFF_FFF0_0000_0000u64);
            assert(t.wf());
            assert forall|j: int|
                0 <= j < t.spec_touched() implies record_describes(
                m,
                18 + j * t.spec_item_size(),
                t.spec_correction_width(),
                t.spec_key_len(),
                t.spec_value_size(),
                external_at(orig_ext, j),
                t@[j],
            ) by {
                assert(t.slots@[j] is Free || t.slots@[j] == parsed_slots[j]);
                if parsed_slots[j] is Allocated {
                    assert(t@[j] == Some(
                        SlotModel {
                            key: parsed_slots[j]->Allocated_key@,
                            data: parsed_slots[j]->Allocated_value@,
                            ref_count: parsed_slots[j]->Allocated_ref_count as nat,
                        },
                    ));
                } else {
                    assert(t@[j] is None);
                }
            }
        }
        Ok(t)
    }
}

/// Turning allocated-or-free slots into free slots with other next links
/// keeps the external sum of a prefix, as long as allocated slots are
/// untouched.
proof fn lemma_external_sum_free_frame(s1: Seq<Slot>, s2: Seq<Slot>, n: int)
    requires
        s1.len() >= n,
        s2.len() >= n,
        forall|j: int| 0 <= j < n ==> ((#[trigger] s2[j]) is Free <==> s1[j] is Free),
        forall|j: int| 0 <= j < n && s1[j] is Allocated ==> (#[trigger] s2[j]) == s1[j],
    ensures
        external_sum(s1, n) == external_sum(s2, n),
    decreases n,
{
    if n > 0 {
        lemma_external_sum_free_frame(s1, s2, n - 1);
    }
}

/// Pushing a slot onto the end does not change which earlier indices are
/// free, so the frees list stays accurate.
proof fn lemma_parse_frees_frame(s1: Seq<Slot>, s2: Seq<Slot>, frees: Seq<u16>, i: int)
    requires
        0 <= i < 65536,
        s1.len() == i,
        s2.len() == i + 1,
        forall|j: int| 0 <= j < i ==> s2[j] == s1[j],
        s2[i] is Allocated,
        forall|k: int| 0 <= k < frees.len() ==> ((#[trigger] frees[k]) as int) < i,
        forall|j: int| 0 <= j < i ==> ((#[trigger] s1[j]) is Free <==> frees.contains(j as u16)),
    ensures
        forall|j: int| 0 <= j < i + 1 ==> ((#[trigger] s2[j]) is Free <==> frees.contains(
            j as u16,
        )),
{
    assert forall|j: int|
        0 <= j < i + 1 implies ((#[trigger] s2[j]) is Free <==> frees.contains(j as u16)) by {
        if j < i {
            assert(s2[j] == s1[j]);
        } else {
            if frees.contains(j as u16) {
                let k = choose|k: int| 0 <= k < frees.len() && frees[k] == j as u16;
                assert((frees[k] as int) < i);
                assert(false);
            }
        }
    }
}

/// A record is untouched by appending more bytes after it.
proof fn lemma_record_describes_extend(
    s1: Seq<u8>,
    s2: Seq<u8>,
    off: int,
    cw: int,
    klen: int,
    vsize: int,
    ext: Option<Seq<u8>>,
    m: Option<SlotModel>,
)
    requires
        record_describes(s1, off, cw, klen, vsize, ext, m),
        cw >= 0,
        klen >= 0,
        vsize >= 0,
        s2.len() >= s1.len(),
        s2.subrange(0, s1.len() as int) == s1,
    ensures
        record_describes(s2, off, cw, klen, vsize, ext, m),
{
    assert forall|a: int| 0 <= a < s1.len() implies s2[a] == s1[a] by {
        assert(s2.subrange(0, s1.len() as int)[a] == s2[a]);
    }
    match m {
        None => {}
        Some(sm) => {
            assert(s2.subrange(off + 2 + cw, off + 2 + cw + klen) =~= s1.subrange(
                off + 2 + cw,
                off + 2 + cw + klen,
            ));
            if vsize > 0 {
                let corr1 = corr_val(s1, off + 2, cw);
                let corr2 = corr_val(s2, off + 2, cw);
                assert(corr1 == corr2);
                assert(s2.subrange(off + 2 + cw + klen, off + 2 + cw + klen + (vsize - corr2))
                    =~= s1.subrange(off + 2 + cw + klen, off + 2 + cw + klen + (vsize - corr1)));
            }
        }
    }
}

/// The record size of a table is small: at most 98374 bytes, and the whole
/// slot image fits comfortably in a 64-bit count.
proof fn lemma_item_size_bound(t: &Table)
    requires
        t.wf(),
    ensures
        t.spec_item_size() <= 98374,
        t.spec_backed() * t.spec_item_size() <= 65536 * 98374,
{
    if let DatumSize::Size(c) = t.spec_datum_size() {
        crate::datum_size::lemma_class_size_bounds(c as int);
    }
    vstd::arithmetic::mul::lemma_mul_upper_bound(
        t.spec_backed(),
        65536,
        t.spec_item_size(),
        98374,
    );
}

} // verus!
