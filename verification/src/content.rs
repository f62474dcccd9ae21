//! The collection of content tables, one vector of tables per size class.
//! Routes allocations to the first table of the right class with room,
//! opening a new table when every existing one is full.

use vstd::prelude::*;
use crate::datum_size::{DatumSize, class_size, MAX_SIZE};
use crate::content_address::{ContentAddress, entries_of};
use crate::table::{Table, TableFiles, TableItemIndex, TableItemCount, RefCount, SlotModel,
    same_config, correction_bound, table_files_describe, table_opened_from};
use crate::datum_size::class_size_range;
use crate::error::Error;

verus! {

/// All content tables of a database, by size class.
pub struct Content {
    key_len: usize,
    min_items_backed: TableItemCount,
    tables: Vec<Vec<Table>>,
}

/// The bytes mapped by the tables of one class.
pub open spec fn tables_mapped(ts: Seq<Table>, n: int) -> int
    decreases n,
{
    if n <= 0 {
        0
    } else {
        tables_mapped(ts, n - 1) + ts[n - 1].spec_backed() * ts[n - 1].spec_item_size() + ts[n
            - 1].spec_mapped_bytes()
    }
}

/// The externally mapped bytes of the tables of one class.
pub open spec fn tables_ext_mapped(ts: Seq<Table>, n: int) -> int
    decreases n,
{
    if n <= 0 {
        0
    } else {
        tables_ext_mapped(ts, n - 1) + ts[n - 1].spec_mapped_bytes()
    }
}

/// The mapped slot count of the tables of one class.
pub open spec fn tables_mapped_count(ts: Seq<Table>, n: int) -> int
    decreases n,
{
    if n <= 0 {
        0
    } else {
        tables_mapped_count(ts, n - 1) + ts[n - 1].spec_mapped_count()
    }
}

/// Partial class sums are below the full totals, and one more class adds
/// its own terms.
proof fn lemma_classes_step_le(tss: Seq<Vec<Table>>, z: int, n: int)
    requires
        0 <= z < n,
        n <= tss.len(),
        forall|y: int, u: int|
            0 <= y < n && 0 <= u < tss[y]@.len() ==> (#[trigger] tss[y]@[u]).wf(),
    ensures
        classes_mapped(tss, z + 1) <= classes_mapped(tss, n),
        classes_ext_mapped(tss, z + 1) <= classes_ext_mapped(tss, n),
        classes_mapped(tss, z + 1) == classes_mapped(tss, z) + tables_mapped(
            tss[z]@,
            tss[z]@.len() as int,
        ),
        classes_ext_mapped(tss, z + 1) == classes_ext_mapped(tss, z) + tables_ext_mapped(
            tss[z]@,
            tss[z]@.len() as int,
        ),
    decreases n,
{
    if z + 1 < n {
        lemma_classes_step_le(tss, z, n - 1);
        assert forall|u: int| 0 <= u < tss[n - 1]@.len() implies (#[trigger] tss[n - 1]@[u]).wf()
        by {
            assert(tss[n - 1]@[u] == tss[n - 1 as int]@[u]);
        }
        lemma_tables_nonneg(tss[n - 1]@, tss[n - 1]@.len() as int);
    }
}

/// With no table holding a mapping, nothing is externally mapped.
proof fn lemma_all_unmapped_zero(tss: Seq<Vec<Table>>, n: int)
    requires
        n <= tss.len(),
        forall|y: int, u: int|
            0 <= y < n && 0 <= u < tss[y]@.len() ==> (#[trigger] tss[y]@[u]).spec_mapped_bytes()
                == 0,
    ensures
        classes_ext_mapped(tss, n) == 0,
    decreases n,
{
    if n > 0 {
        lemma_all_unmapped_zero(tss, n - 1);
        lemma_tables_unmapped_zero(tss[n - 1]@, tss[n - 1]@.len() as int);
        assert forall|u: int|
            0 <= u < tss[n - 1]@.len() implies (#[trigger] tss[n - 1]@[u]).spec_mapped_bytes()
            == 0 by {
            assert(tss[n - 1]@[u] == tss[n - 1 as int]@[u]);
        }
        lemma_tables_unmapped_zero(tss[n - 1]@, tss[n - 1]@.len() as int);
    }
}

/// With no mapping in any table of a class, the class maps nothing.
proof fn lemma_tables_unmapped_zero(ts: Seq<Table>, n: int)
    requires
        ts.len() >= n,
        forall|u: int| 0 <= u < n ==> (#[trigger] ts[u]).spec_mapped_bytes() == 0,
    ensures
        tables_ext_mapped(ts, n) == 0,
    decreases n,
{
    if n > 0 {
        lemma_tables_unmapped_zero(ts, n - 1);
    }
}

impl Content {
    /// The length of the keys every table stores.
    pub closed spec fn spec_key_len(&self) -> int {
        self.key_len as int
    }

    /// How many tables a class currently has.
    pub closed spec fn spec_tables_of(&self, class: int) -> int {
        if 0 <= class < self.tables@.len() {
            self.tables@[class]@.len() as int
        } else {
            0
        }
    }

    /// What the slot an address names holds, if the address names one.
    pub closed spec fn spec_at(&self, a: ContentAddress) -> Option<SlotModel> {
        let z = a.datum_size.spec_code();
        if 0 <= z < self.tables@.len() && a.content_table < self.tables@[z]@.len() {
            let t = self.tables@[z]@[a.content_table as int];
            if (a.entry_index as int) < t@.len() {
                t@[a.entry_index as int]
            } else {
                None
            }
        } else {
            None
        }
    }

    /// Every table is well formed, serves its class, and stores keys of the
    /// shared length; table counts stay within what the packed address can
    /// name.
    pub closed spec fn wf(&self) -> bool {
        &&& 1 <= self.key_len <= 64
        &&& self.tables@.len() == 64
        &&& forall|z: int, t: int|
            0 <= z < 64 && 0 <= t < self.tables@[z]@.len() ==> {
                let tb = #[trigger] self.tables@[z]@[t];
                &&& tb.wf()
                &&& tb.spec_datum_size() == spec_class_of(z)
                &&& tb.spec_key_len() == self.key_len
            }
        &&& forall|z: int|
            0 <= z < 64 ==> (#[trigger] self.tables@[z]@.len()) * entries_of(spec_class_of(z))
                <= 0x4000000
    }

    /// The external bytes currently mapped, over every table.
    pub closed spec fn spec_ext_mapped(&self) -> int {
        classes_ext_mapped(self.tables@, self.tables@.len() as int)
    }

    /// The mapped slot count, over every table.
    pub closed spec fn spec_mapped_count(&self) -> int {
        classes_mapped_count(self.tables@, self.tables@.len() as int)
    }

    /// The bytes mapped, over every table: slot images plus mapped external
    /// payloads.
    pub closed spec fn spec_bytes_mapped(&self) -> int {
        classes_mapped(self.tables@, self.tables@.len() as int)
    }
}

/// Whether every class of a directory image holds no table files.
pub open spec fn all_tables_empty(files: Seq<Vec<TableFiles>>) -> bool {
    forall|z: int| 0 <= z < files.len() ==> (#[trigger] files[z])@.len() == 0
}

/// The class a table-vector index serves.
pub open spec fn spec_class_of(z: int) -> DatumSize {
    if z < MAX_SIZE as int {
        DatumSize::Size(z as u8)
    } else {
        DatumSize::Oversize
    }
}

/// The bytes mapped over every class.
pub open spec fn classes_mapped(tss: Seq<Vec<Table>>, n: int) -> int
    decreases n,
{
    if n <= 0 {
        0
    } else {
        classes_mapped(tss, n - 1) + tables_mapped(tss[n - 1]@, tss[n - 1]@.len() as int)
    }
}

/// The externally mapped bytes over every class.
pub open spec fn classes_ext_mapped(tss: Seq<Vec<Table>>, n: int) -> int
    decreases n,
{
    if n <= 0 {
        0
    } else {
        classes_ext_mapped(tss, n - 1) + tables_ext_mapped(tss[n - 1]@, tss[n - 1]@.len() as int)
    }
}

/// The mapped slot count over every class.
pub open spec fn classes_mapped_count(tss: Seq<Vec<Table>>, n: int) -> int
    decreases n,
{
    if n <= 0 {
        0
    } else {
        classes_mapped_count(tss, n - 1) + tables_mapped_count(
            tss[n - 1]@,
            tss[n - 1]@.len() as int,
        )
    }
}

/// Whether two addresses name the same physical slot: same class code,
/// table and entry.
pub open spec fn same_slot(a: ContentAddress, b: ContentAddress) -> bool {
    &&& a.datum_size.spec_code() == b.datum_size.spec_code()
    &&& a.content_table == b.content_table
    &&& a.entry_index == b.entry_index
}

/// When only the table at `t` changed (same length), the class sums shift
/// by that table's deltas.
proof fn lemma_tables_update(ts1: Seq<Table>, ts2: Seq<Table>, t: int, n: int)
    requires
        0 <= t < n,
        ts1.len() >= n,
        ts2.len() >= n,
        forall|j: int| 0 <= j < n && j != t ==> ts1[j] == ts2[j],
    ensures
        tables_mapped(ts2, n) - tables_mapped(ts1, n) == (ts2[t].spec_backed()
            * ts2[t].spec_item_size() + ts2[t].spec_mapped_bytes()) - (ts1[t].spec_backed()
            * ts1[t].spec_item_size() + ts1[t].spec_mapped_bytes()),
        tables_ext_mapped(ts2, n) - tables_ext_mapped(ts1, n) == ts2[t].spec_mapped_bytes()
            - ts1[t].spec_mapped_bytes(),
        tables_mapped_count(ts2, n) - tables_mapped_count(ts1, n) == ts2[t].spec_mapped_count()
            - ts1[t].spec_mapped_count(),
    decreases n,
{
    if t == n - 1 {
        lemma_tables_equal(ts1, ts2, n - 1);
    } else {
        lemma_tables_update(ts1, ts2, t, n - 1);
    }
}

/// Equal table prefixes give equal sums.
proof fn lemma_tables_equal(ts1: Seq<Table>, ts2: Seq<Table>, n: int)
    requires
        ts1.len() >= n,
        ts2.len() >= n,
        forall|j: int| 0 <= j < n ==> ts1[j] == ts2[j],
    ensures
        tables_mapped(ts1, n) == tables_mapped(ts2, n),
        tables_ext_mapped(ts1, n) == tables_ext_mapped(ts2, n),
        tables_mapped_count(ts1, n) == tables_mapped_count(ts2, n),
    decreases n,
{
    if n > 0 {
        lemma_tables_equal(ts1, ts2, n - 1);
    }
}

/// When only the class at `z` changed, the totals shift by that class's
/// deltas.
proof fn lemma_classes_update(tss1: Seq<Vec<Table>>, tss2: Seq<Vec<Table>>, z: int, n: int)
    requires
        0 <= z < n,
        tss1.len() >= n,
        tss2.len() >= n,
        forall|j: int| 0 <= j < n && j != z ==> tss1[j] == tss2[j],
    ensures
        classes_mapped(tss2, n) - classes_mapped(tss1, n) == tables_mapped(
            tss2[z]@,
            tss2[z]@.len() as int,
        ) - tables_mapped(tss1[z]@, tss1[z]@.len() as int),
        classes_ext_mapped(tss2, n) - classes_ext_mapped(tss1, n) == tables_ext_mapped(
            tss2[z]@,
            tss2[z]@.len() as int,
        ) - tables_ext_mapped(tss1[z]@, tss1[z]@.len() as int),
        classes_mapped_count(tss2, n) - classes_mapped_count(tss1, n) == tables_mapped_count(
            tss2[z]@,
            tss2[z]@.len() as int,
        ) - tables_mapped_count(tss1[z]@, tss1[z]@.len() as int),
    decreases n,
{
    if z == n - 1 {
        lemma_classes_equal(tss1, tss2, n - 1);
    } else {
        lemma_classes_update(tss1, tss2, z, n - 1);
    }
}

/// Equal class prefixes give equal totals.
proof fn lemma_classes_equal(tss1: Seq<Vec<Table>>, tss2: Seq<Vec<Table>>, n: int)
    requires
        tss1.len() >= n,
        tss2.len() >= n,
        forall|j: int| 0 <= j < n ==> tss1[j] == tss2[j],
    ensures
        classes_mapped(tss1, n) == classes_mapped(tss2, n),
        classes_ext_mapped(tss1, n) == classes_ext_mapped(tss2, n),
        classes_mapped_count(tss1, n) == classes_mapped_count(tss2, n),
    decreases n,
{
    if n > 0 {
        lemma_classes_equal(tss1, tss2, n - 1);
    }
}

/// The sums over a class are nonnegative, and each table's own terms are
/// bounded by the sums.
proof fn lemma_tables_nonneg(ts: Seq<Table>, n: int)
    requires
        ts.len() >= n,
        forall|j: int| 0 <= j < n ==> (#[trigger] ts[j]).wf(),
    ensures
        tables_mapped(ts, n) >= 0,
        tables_ext_mapped(ts, n) >= 0,
        tables_mapped_count(ts, n) >= 0,
        tables_ext_mapped(ts, n) <= tables_mapped(ts, n),
    decreases n,
{
    if n > 0 {
        lemma_tables_nonneg(ts, n - 1);
        ts[n - 1].lemma_geometry();
        vstd::arithmetic::mul::lemma_mul_nonnegative(
            ts[n - 1].spec_backed(),
            ts[n - 1].spec_item_size(),
        );
    }
}

/// The totals are nonnegative, and the external part is below the whole.
proof fn lemma_classes_nonneg(tss: Seq<Vec<Table>>, n: int)
    requires
        tss.len() >= n,
        forall|z: int, j: int|
            0 <= z < n && 0 <= j < tss[z]@.len() ==> (#[trigger] tss[z]@[j]).wf(),
    ensures
        classes_mapped(tss, n) >= 0,
        classes_ext_mapped(tss, n) >= 0,
        classes_mapped_count(tss, n) >= 0,
        classes_ext_mapped(tss, n) <= classes_mapped(tss, n),
    decreases n,
{
    if n > 0 {
        lemma_classes_nonneg(tss, n - 1);
        assert forall|j: int| 0 <= j < tss[n - 1]@.len() implies (#[trigger] tss[n - 1]@[j]).wf()
        by {
            assert(tss[n - 1]@[j] == tss[n - 1 as int]@[j]);
        }
        lemma_tables_nonneg(tss[n - 1]@, tss[n - 1]@.len() as int);
    }
}

impl Content {
    /// Opens the content layer from the table files of a directory: for
    /// each class, the consecutive table files found on disk.
    pub fn open(key_len: usize, min_items_backed: TableItemCount, files: Vec<Vec<TableFiles>>)
        -> (r: Result<Content, Error>)
        requires
            1 <= key_len <= 64,
        ensures
            match r {
                Ok(c) => {
                    &&& c.wf()
                    &&& c.spec_key_len() == key_len
                    &&& c.spec_ext_mapped() == 0
                    &&& c.spec_mapped_count() == 0
                    &&& ((forall|z: int|
                        0 <= z < files@.len() ==> (#[trigger] files@[z])@.len() == 0) ==> forall|
                        a: ContentAddress,
                    |
                        c.spec_at(a) is None)
                    &&& files@.len() == 64
                    &&& (forall|z: int|
                        0 <= z < 64 ==> #[trigger] c.spec_tables_of(z) == files@[z]@.len())
                    &&& (forall|z: int, t: int|
                        0 <= z < 64 && 0 <= t < c.spec_tables_of(z) ==> table_opened_from(
                            files@[z]@[t].main@,
                            files@[z]@[t].externals@,
                            #[trigger] c.tables_at(z, t),
                        ))
                }
                Err(e) => e == Error::BadMetadata,
            },
            // An empty directory always opens.
            (files@.len() == 64 && all_tables_empty(files@)) ==> r is Ok,
    {
        if files.len() != 64 {
            return Err(Error::BadMetadata);
        }
        let ghost orig = files@;
        let mut rest = files;
        let mut tables: Vec<Vec<Table>> = Vec::new();
        let mut z: usize = 0;
        while z < 64
            invariant
                1 <= key_len <= 64,
                z <= 64,
                orig.len() == 64,
                orig == files@,
                tables@.len() == z,
                rest@.len() == 64 - z,
                forall|y: int| 0 <= y < rest@.len() ==> rest@[y] == orig[y + z],
                forall|y: int, t: int|
                    0 <= y < z && 0 <= t < tables@[y]@.len() ==> {
                        let tb = #[trigger] tables@[y]@[t];
                        &&& tb.wf()
                        &&& tb.spec_datum_size() == spec_class_of(y)
                        &&& tb.spec_key_len() == key_len
                        &&& tb.spec_mapped_bytes() == 0
                        &&& tb.spec_mapped_count() == 0
                    },
                forall|y: int|
                    0 <= y < z ==> (#[trigger] tables@[y]@.len()) * entries_of(spec_class_of(y))
                        <= 0x4000000,
                classes_ext_mapped(tables@, z as int) == 0,
                classes_mapped_count(tables@, z as int) == 0,
                forall|y: int| 0 <= y < z ==> (#[trigger] tables@[y])@.len() == orig[y]@.len(),
                forall|y: int, t: int|
                    0 <= y < z && 0 <= t < tables@[y]@.len() ==> table_opened_from(
                        orig[y]@[t].main@,
                        orig[y]@[t].externals@,
                        #[trigger] tables@[y]@[t],
                    ),
            decreases 64 - z,
        {
            let class: DatumSize = DatumSize::from(z as u8);
            proof {
                assert(class == spec_class_of(z as int));
            }
            let class_files: Vec<TableFiles> = rest.remove(0);
            let ghost class_count = class_files@.len();
            let mut class_tables: Vec<Table> = Vec::new();
            let mut class_files = class_files;
            let ghost entries = entries_of(class);
            while class_files.len() > 0
                invariant
                    1 <= key_len <= 64,
                    class.wf(),
                    class == spec_class_of(z as int),
                    z < 64,
                    entries == entries_of(class),
                    1 <= entries <= 65536,
                    forall|t: int|
                        0 <= t < class_tables@.len() ==> {
                            let tb = #[trigger] class_tables@[t];
                            &&& tb.wf()
                            &&& tb.spec_datum_size() == class
                            &&& tb.spec_key_len() == key_len
                            &&& tb.spec_mapped_bytes() == 0
                            &&& tb.spec_mapped_count() == 0
                        },
                    class_tables@.len() <= 1024,
                    tables_ext_mapped(class_tables@, class_tables@.len() as int) == 0,
                    tables_mapped_count(class_tables@, class_tables@.len() as int) == 0,
                    class_count == class_tables@.len() + class_files@.len(),
                    class_count == orig[z as int]@.len(),
                    orig.len() == 64,
                    orig == files@,
                    forall|q: int|
                        0 <= q < class_files@.len() ==> #[trigger] class_files@[q] == orig[
                            z as int]@[q + class_tables@.len()],
                    forall|t: int|
                        0 <= t < class_tables@.len() ==> table_opened_from(
                            orig[z as int]@[t].main@,
                            orig[z as int]@[t].externals@,
                            #[trigger] class_tables@[t],
                        ),
                decreases class_files@.len(),
            {
                proof {
                    // A nonempty class contradicts an all-empty directory,
                    // so erroring out here cannot break the promise made
                    // for one.
                    if all_tables_empty(orig) {
                        assert(orig[z as int]@.len() == 0);
                        assert(false);
                    }
                }
                if class_tables.len() >= 1024 {
                    // More tables of one class than the packed address can
                    // ever name.
                    return Err(Error::BadMetadata);
                }
                let tf: TableFiles = class_files.remove(0);
                let t = match Table::open(class, key_len, min_items_backed, tf) {
                    Ok(t) => t,
                    Err(_) => {
                        return Err(Error::BadMetadata);
                    }
                };
                let ghost prev_tables = class_tables@;
                proof {
                    assert(tf == orig[z as int]@[prev_tables.len() as int]);
                }
                class_tables.push(t);
                proof {
                    lemma_tables_equal(prev_tables, class_tables@, prev_tables.len() as int);
                }
            }
            proof {
                vstd::arithmetic::mul::lemma_mul_upper_bound(
                    class_tables@.len() as int,
                    1024,
                    entries,
                    65536,
                );
                vstd::arithmetic::mul::lemma_mul_nonnegative(
                    class_tables@.len() as int,
                    entries,
                );
            }
            let ghost prev = tables@;
            let ghost ct = class_tables@;
            tables.push(class_tables);
            proof {
                lemma_classes_equal(prev, tables@, prev.len() as int);
            }
            z = z + 1;
        }
        let c = Content { key_len, min_items_backed, tables };
        proof {
            assert(c.wf());
        }
        Ok(c)
    }

    /// Routes an address: the class slot, table and entry it names, if it
    /// names one this content holds. Err when it points outside.
    fn route(&self, address: &ContentAddress) -> (r: Result<(usize, usize, TableItemIndex), ()>)
        requires
            self.wf(),
        ensures
            match r {
                Ok((z, t, e)) => {
                    &&& z == address.datum_size.spec_code()
                    &&& z < 64
                    &&& t == address.content_table
                    &&& t < self.spec_tables_of(z as int)
                    &&& e == address.entry_index
                    &&& e < 65536
                }
                Err(()) => self.spec_at(*address) is None,
            },
    {
        let zb: u8 = u8::from(address.datum_size);
        if zb >= 64 {
            return Err(());
        }
        let z = zb as usize;
        if address.content_table >= self.tables[z].len() {
            return Err(());
        }
        if address.entry_index > 65535 {
            proof {
                self.tables@[z as int]@[address.content_table as int].lemma_geometry();
            }
            return Err(());
        }
        Ok((z, address.content_table, address.entry_index as TableItemIndex))
    }

    /// Whether reading the item at `address` would grow the mapped bytes:
    /// the item is held oversize (external payload files) and its payload
    /// is not mapped yet.
    pub closed spec fn spec_read_maps(&self, a: ContentAddress) -> bool {
        let z = a.datum_size.spec_code();
        let t = a.content_table as int;
        &&& 0 <= z < 64
        &&& t < self.tables@[z]@.len()
        &&& self.tables@[z]@[t].spec_value_size() == 0
        &&& !self.tables@[z]@[t].spec_mapped_at(a.entry_index as int)
    }

    /// Get the reference count for an item, optionally checking its hash to
    /// ensure it is the right item.
    pub fn item_ref_count(&self, address: &ContentAddress, check_hash: Option<&Vec<u8>>) -> (r:
        Result<RefCount, ()>)
        requires
            self.wf(),
        ensures
            match r {
                Ok(n) => {
                    &&& self.spec_at(*address) is Some
                    &&& n == self.spec_at(*address)->Some_0.ref_count
                    &&& (check_hash is Some ==> check_hash->Some_0@ == self.spec_at(*address)
                        ->Some_0.key)
                }
                Err(()) => self.spec_at(*address) is None || (check_hash is Some && check_hash
                    ->Some_0@ != self.spec_at(*address)->Some_0.key),
            },
    {
        match self.route(address) {
            Ok((z, t, e)) => {
                proof {
                    self.tables@[z as int]@[t as int].lemma_geometry();
                }
                self.tables[z][t].item_ref_count(e, check_hash)
            }
            Err(()) => Err(()),
        }
    }

    /// Get the key stored for an item.
    pub fn item_hash(&self, address: &ContentAddress) -> (r: Result<Vec<u8>, ()>)
        requires
            self.wf(),
        ensures
            match r {
                Ok(k) => self.spec_at(*address) is Some && k@ == self.spec_at(*address)
                    ->Some_0.key,
                Err(()) => self.spec_at(*address) is None,
            },
    {
        match self.route(address) {
            Ok((z, t, e)) => {
                proof {
                    self.tables@[z as int]@[t as int].lemma_geometry();
                }
                self.tables[z][t].item_hash(e)
            }
            Err(()) => Err(()),
        }
    }

    /// Get a copy of an item's content value, optionally checking its hash
    /// to ensure it is the right item. Maps the item's external file if it
    /// is oversize.
    pub fn item_ref(&mut self, address: &ContentAddress, check_hash: Option<&Vec<u8>>) -> (r:
        Result<Vec<u8>, ()>)
        requires
            old(self).wf(),
        ensures
            final(self).wf(),
            final(self).spec_key_len() == old(self).spec_key_len(),
            forall|a2: ContentAddress| final(self).spec_at(a2) == old(self).spec_at(a2),
            match r {
                Ok(d) => {
                    &&& old(self).spec_at(*address) is Some
                    &&& d@ == old(self).spec_at(*address)->Some_0.data
                    &&& (check_hash is Some ==> check_hash->Some_0@ == old(self).spec_at(*address)
                        ->Some_0.key)
                    &&& (old(self).spec_read_maps(*address) ==> final(self).spec_ext_mapped()
                        == old(self).spec_ext_mapped() + d@.len())
                    &&& (!old(self).spec_read_maps(*address) ==> final(self).spec_ext_mapped()
                        == old(self).spec_ext_mapped())
                    &&& final(self).spec_bytes_mapped() - old(self).spec_bytes_mapped()
                        == final(self).spec_ext_mapped() - old(self).spec_ext_mapped()
                }
                Err(()) => {
                    &&& (old(self).spec_at(*address) is None || (check_hash is Some && check_hash
                        ->Some_0@ != old(self).spec_at(*address)->Some_0.key))
                    &&& final(self).spec_ext_mapped() == old(self).spec_ext_mapped()
                    &&& final(self).spec_bytes_mapped() == old(self).spec_bytes_mapped()
                }
            },
    {
        match self.route(address) {
            Ok((z, t, e)) => {
                proof {
                    self.tables@[z as int]@[t as int].lemma_geometry();
                }
                let ghost prev = self.tables@;
                let tz: &mut Vec<Table> = &mut self.tables[z];
                let tb: &mut Table = &mut tz[t];
                let r = tb.item_ref(e, check_hash);
                proof {
                    self.lemma_route_frame(old(self), z as int, t as int);
                }
                r
            }
            Err(()) => {
                proof {
                    assert(self.tables@ =~= old(self).tables@);
                }
                Err(())
            }
        }
    }

    /// After only the table at `(z, t)` changed, with the same view and
    /// geometry, the whole content keeps its invariant and addresses; the
    /// sum deltas are the table's own.
    proof fn lemma_route_frame(&self, prev: &Content, z: int, t: int)
        requires
            prev.wf(),
            0 <= z < 64,
            0 <= t < prev.tables@[z]@.len(),
            self.key_len == prev.key_len,
            self.min_items_backed == prev.min_items_backed,
            self.tables@.len() == 64,
            forall|y: int| 0 <= y < 64 && y != z ==> self.tables@[y] == prev.tables@[y],
            self.tables@[z]@.len() == prev.tables@[z]@.len(),
            forall|u: int|
                0 <= u < prev.tables@[z]@.len() && u != t ==> self.tables@[z]@[u] == prev.tables@[
                    z]@[u],
            self.tables@[z]@[t].wf(),
            same_config(&prev.tables@[z]@[t], &self.tables@[z]@[t]),
            self.tables@[z]@[t]@ == prev.tables@[z]@[t]@,
            self.tables@[z]@[t].spec_backed() == prev.tables@[z]@[t].spec_backed(),
        ensures
            self.wf(),
            forall|a2: ContentAddress| self.spec_at(a2) == prev.spec_at(a2),
            self.spec_ext_mapped() - prev.spec_ext_mapped() == self.tables@[z]@[
                t].spec_mapped_bytes() - prev.tables@[z]@[t].spec_mapped_bytes(),
            self.spec_bytes_mapped() - prev.spec_bytes_mapped() == self.tables@[z]@[
                t].spec_mapped_bytes() - prev.tables@[z]@[t].spec_mapped_bytes(),
            self.spec_mapped_count() - prev.spec_mapped_count() == self.tables@[z]@[
                t].spec_mapped_count() - prev.tables@[z]@[t].spec_mapped_count(),
    {
        lemma_tables_update(prev.tables@[z]@, self.tables@[z]@, t, prev.tables@[z]@.len() as int);
        lemma_classes_update(prev.tables@, self.tables@, z, 64);
        assert forall|y: int, u: int|
            0 <= y < 64 && 0 <= u < self.tables@[y]@.len() implies {
            let tb = #[trigger] self.tables@[y]@[u];
            &&& tb.wf()
            &&& tb.spec_datum_size() == spec_class_of(y)
            &&& tb.spec_key_len() == self.key_len
        } by {
            if y != z || u != t {
                assert(self.tables@[y]@[u] == prev.tables@[y]@[u]);
            } else {
                assert(prev.tables@[z]@[t].spec_datum_size() == spec_class_of(z));
            }
        }
        assert forall|y: int|
            0 <= y < 64 implies (#[trigger] self.tables@[y]@.len()) * entries_of(spec_class_of(y))
            <= 0x4000000 by {
            assert(self.tables@[y]@.len() == prev.tables@[y]@.len());
        }
        assert forall|a2: ContentAddress| self.spec_at(a2) == prev.spec_at(a2) by {
            let z2 = a2.datum_size.spec_code();
            if 0 <= z2 < 64 && a2.content_table < self.tables@[z2]@.len() {
                if z2 != z || a2.content_table != t {
                    assert(self.tables@[z2]@[a2.content_table as int] == prev.tables@[z2]@[
                        a2.content_table as int]);
                }
            }
        }
    }

    /// Increment the references for an item given its content `address`,
    /// optionally checking that its key hash is the expected `check_hash`.
    pub fn bump(&mut self, address: &ContentAddress, check_hash: Option<&Vec<u8>>) -> (r: Result<
        RefCount,
        (),
    >)
        requires
            old(self).wf(),
            old(self).spec_at(*address) is Some && (match check_hash {
                Some(h) => h@ == old(self).spec_at(*address)->Some_0.key,
                None => true,
            }) ==> old(self).spec_at(*address)->Some_0.ref_count < 0x7FFF,
        ensures
            final(self).wf(),
            final(self).spec_key_len() == old(self).spec_key_len(),
            final(self).spec_ext_mapped() == old(self).spec_ext_mapped(),
            final(self).spec_bytes_mapped() == old(self).spec_bytes_mapped(),
            final(self).spec_mapped_count() == old(self).spec_mapped_count(),
            match r {
                Ok(n) => {
                    &&& old(self).spec_at(*address) is Some
                    &&& (check_hash is Some ==> check_hash->Some_0@ == old(self).spec_at(*address)
                        ->Some_0.key)
                    &&& n == old(self).spec_at(*address)->Some_0.ref_count + 1
                    &&& final(self).spec_at(*address) == Some(
                        SlotModel {
                            ref_count: (old(self).spec_at(*address)->Some_0.ref_count + 1) as nat,
                            ..old(self).spec_at(*address)->Some_0
                        },
                    )
                    &&& forall|a2: ContentAddress|
                        !same_slot(a2, *address) ==> final(self).spec_at(a2) == old(
                            self,
                        ).spec_at(a2)
                }
                Err(()) => {
                    &&& (old(self).spec_at(*address) is None || (check_hash is Some && check_hash
                        ->Some_0@ != old(self).spec_at(*address)->Some_0.key))
                    &&& forall|a2: ContentAddress| final(self).spec_at(a2) == old(self).spec_at(a2)
                }
            },
    {
        match self.route(address) {
            Ok((z, t, e)) => {
                proof {
                    self.tables@[z as int]@[t as int].lemma_geometry();
                }
                let tz: &mut Vec<Table> = &mut self.tables[z];
                let tb: &mut Table = &mut tz[t];
                let r = tb.bump(e, check_hash);
                proof {
                    self.lemma_route_frame_entry(old(self), z as int, t as int,
                        address.entry_index as int);
                }
                r
            }
            Err(()) => {
                proof {
                    assert(self.tables@ =~= old(self).tables@);
                }
                Err(())
            }
        }
    }

    /// Like `lemma_route_frame`, but the table's view may have changed at
    /// one entry: every other address is untouched.
    proof fn lemma_route_frame_entry(&self, prev: &Content, z: int, t: int, e: int)
        requires
            prev.wf(),
            0 <= z < 64,
            0 <= t < prev.tables@[z]@.len(),
            self.key_len == prev.key_len,
            self.min_items_backed == prev.min_items_backed,
            self.tables@.len() == 64,
            forall|y: int| 0 <= y < 64 && y != z ==> self.tables@[y] == prev.tables@[y],
            self.tables@[z]@.len() == prev.tables@[z]@.len(),
            forall|u: int|
                0 <= u < prev.tables@[z]@.len() && u != t ==> self.tables@[z]@[u] == prev.tables@[
                    z]@[u],
            self.tables@[z]@[t].wf(),
            same_config(&prev.tables@[z]@[t], &self.tables@[z]@[t]),
            self.tables@[z]@[t]@.len() == prev.tables@[z]@[t]@.len(),
            forall|q: int|
                0 <= q < self.tables@[z]@[t]@.len() && q != e ==> self.tables@[z]@[t]@[q]
                    == prev.tables@[z]@[t]@[q],
        ensures
            self.wf(),
            forall|a2: ContentAddress|
                !(a2.datum_size.spec_code() == z && a2.content_table == t && a2.entry_index == e)
                    ==> self.spec_at(a2) == prev.spec_at(a2),
            self.spec_key_len() == prev.spec_key_len(),
            self.spec_ext_mapped() - prev.spec_ext_mapped() == self.tables@[z]@[
                t].spec_mapped_bytes() - prev.tables@[z]@[t].spec_mapped_bytes(),
            self.spec_bytes_mapped() - prev.spec_bytes_mapped() == (self.tables@[z]@[
                t].spec_backed() * self.tables@[z]@[t].spec_item_size() + self.tables@[z]@[
                t].spec_mapped_bytes()) - (prev.tables@[z]@[t].spec_backed() * prev.tables@[z]@[
                t].spec_item_size() + prev.tables@[z]@[t].spec_mapped_bytes()),
            self.spec_mapped_count() - prev.spec_mapped_count() == self.tables@[z]@[
                t].spec_mapped_count() - prev.tables@[z]@[t].spec_mapped_count(),
    {
        lemma_tables_update(prev.tables@[z]@, self.tables@[z]@, t, prev.tables@[z]@.len() as int);
        lemma_classes_update(prev.tables@, self.tables@, z, 64);
        assert forall|y: int, u: int|
            0 <= y < 64 && 0 <= u < self.tables@[y]@.len() implies {
            let tb = #[trigger] self.tables@[y]@[u];
            &&& tb.wf()
            &&& tb.spec_datum_size() == spec_class_of(y)
            &&& tb.spec_key_len() == self.key_len
        } by {
            if y != z || u != t {
                assert(self.tables@[y]@[u] == prev.tables@[y]@[u]);
            } else {
                assert(prev.tables@[z]@[t].spec_datum_size() == spec_class_of(z));
            }
        }
        assert forall|y: int|
            0 <= y < 64 implies (#[trigger] self.tables@[y]@.len()) * entries_of(spec_class_of(y))
            <= 0x4000000 by {
            assert(self.tables@[y]@.len() == prev.tables@[y]@.len());
        }
        assert forall|a2: ContentAddress|
            !(a2.datum_size.spec_code() == z && a2.content_table == t && a2.entry_index == e)
            implies self.spec_at(a2) == prev.spec_at(a2) by {
            let z2 = a2.datum_size.spec_code();
            if 0 <= z2 < 64 && a2.content_table < self.tables@[z2]@.len() {
                if z2 != z || a2.content_table != t {
                    assert(self.tables@[z2]@[a2.content_table as int] == prev.tables@[z2]@[
                        a2.content_table as int]);
                }
            }
        }
    }

    /// Decrement the references for an item given its content `address`,
    /// optionally checking its key hash. When the count reaches zero the
    /// slot and its external file are freed.
    pub fn free(&mut self, address: &ContentAddress, check_hash: Option<&Vec<u8>>) -> (r: Result<
        RefCount,
        (),
    >)
        requires
            old(self).wf(),
        ensures
            final(self).wf(),
            final(self).spec_key_len() == old(self).spec_key_len(),
            final(self).spec_ext_mapped() <= old(self).spec_ext_mapped(),
            final(self).spec_bytes_mapped() <= old(self).spec_bytes_mapped(),
            final(self).spec_mapped_count() <= old(self).spec_mapped_count(),
            match r {
                Ok(n) => {
                    &&& old(self).spec_at(*address) is Some
                    &&& (check_hash is Some ==> check_hash->Some_0@ == old(self).spec_at(*address)
                        ->Some_0.key)
                    &&& n == old(self).spec_at(*address)->Some_0.ref_count - 1
                    &&& (n > 0 ==> final(self).spec_at(*address) == Some(
                        SlotModel {
                            ref_count: (old(self).spec_at(*address)->Some_0.ref_count - 1) as nat,
                            ..old(self).spec_at(*address)->Some_0
                        },
                    ))
                    &&& (n == 0 ==> final(self).spec_at(*address) is None)
                    &&& forall|a2: ContentAddress|
                        !same_slot(a2, *address) ==> final(self).spec_at(a2) == old(
                            self,
                        ).spec_at(a2)
                }
                Err(()) => {
                    &&& (old(self).spec_at(*address) is None || (check_hash is Some && check_hash
                        ->Some_0@ != old(self).spec_at(*address)->Some_0.key))
                    &&& forall|a2: ContentAddress| final(self).spec_at(a2) == old(self).spec_at(a2)
                }
            },
    {
        match self.route(address) {
            Ok((z, t, e)) => {
                proof {
                    self.tables@[z as int]@[t as int].lemma_geometry();
                }
                let tz: &mut Vec<Table> = &mut self.tables[z];
                let tb: &mut Table = &mut tz[t];
                let r = tb.free(e, check_hash);
                proof {
                    self.lemma_route_frame_entry(old(self), z as int, t as int,
                        address.entry_index as int);
                }
                r
            }
            Err(()) => {
                proof {
                    assert(self.tables@ =~= old(self).tables@);
                }
                Err(())
            }
        }
    }

    /// Establishes `Table::allocate`'s correction-fit requirement for the
    /// class `nearest` picked for a payload of `len` bytes.
    proof fn lemma_fits(tb: &Table, c: u8, len: int)
        requires
            tb.wf(),
            tb.spec_datum_size() == DatumSize::Size(c),
            c < MAX_SIZE,
            0 <= len <= class_size(c as int),
            c > 0 ==> class_size(c as int - 1) < len,
        ensures
            tb.spec_value_size() > 0,
            len <= tb.spec_value_size(),
            tb.spec_value_size() - len < correction_bound(tb.spec_correction_width()),
    {
        tb.lemma_geometry();
        crate::datum_size::lemma_class_size_bounds(c as int);
        let range = class_size_range(c as int);
        if c > 0 {
            crate::datum_size::lemma_class_size_range_step(c as int);
            crate::datum_size::lemma_class_size_bounds(c as int - 1);
            assert(class_size(c as int) - len < range);
        } else {
            assert(range == 33);
            assert(class_size(0) - len <= 32) by {
                crate::datum_size::lemma_class_size_eval(0);
                vstd::arithmetic::power2::lemma2_to64();
                assert(0 as int / 8 == 0 && 0 as int % 8 == 0);
                assert(class_size(0) == 32 * 1 + 4 * 1 * 0);
            };
        }
    }

    /// Allocate space for an item's contents, fill it with `data`, and
    /// return its content address. A new table of the right class is opened
    /// when every existing one is full. Fails only when the class has as
    /// many tables as the packed address can ever name; that exhaustion is
    /// reported as `Io`, the kind a caller already handles for a store that
    /// cannot grow.
    #[verifier::rlimit(100)]
    pub fn emplace(&mut self, key: &Vec<u8>, data: &Vec<u8>) -> (r: Result<ContentAddress, Error>)
        requires
            old(self).wf(),
            key@.len() == old(self).spec_key_len(),
            data@.len() <= 0xFFFF_FFF0_0000_0000,
        ensures
            final(self).wf(),
            final(self).spec_key_len() == old(self).spec_key_len(),
            match r {
                Ok(a) => {
                    &&& a.valid()
                    &&& old(self).spec_at(a) is None
                    &&& final(self).spec_at(a) == Some(
                        (SlotModel { key: key@, data: data@, ref_count: 1 }),
                    )
                    &&& forall|a2: ContentAddress|
                        !same_slot(a2, a) ==> final(self).spec_at(a2) == old(self).spec_at(a2)
                    &&& final(self).spec_ext_mapped() <= old(self).spec_ext_mapped() + data@.len()
                    // The class is the nearest one: the smallest whose
                    // payload size holds the data.
                    &&& (match a.datum_size {
                        DatumSize::Oversize => data@.len() > 98304,
                        DatumSize::Size(c) => class_size(c as int) >= data@.len() && (c > 0
                            ==> class_size(c as int - 1) < data@.len()),
                    })
                    // First fit: every table of the class before the chosen
                    // one was full; a new table (at slot 0) is opened only
                    // past them all.
                    &&& a.content_table <= old(self).spec_tables_of(a.datum_size.spec_code())
                    &&& (forall|t: int|
                        0 <= t < a.content_table ==> (#[trigger] old(self).tables_at(
                            a.datum_size.spec_code(),
                            t,
                        )).spec_used() == old(self).tables_at(
                            a.datum_size.spec_code(),
                            t,
                        ).spec_capacity())
                    &&& (a.content_table < old(self).spec_tables_of(a.datum_size.spec_code())
                        ==> forall|y: int|
                        0 <= y < 64 ==> #[trigger] final(self).spec_tables_of(y) == old(
                            self,
                        ).spec_tables_of(y))
                    &&& (a.content_table == old(self).spec_tables_of(a.datum_size.spec_code())
                        ==> a.entry_index == 0 && final(self).spec_tables_of(
                        a.datum_size.spec_code(),
                    ) == old(self).spec_tables_of(a.datum_size.spec_code()) + 1)
                }
                Err(e) => {
                    &&& e == Error::Io
                    &&& forall|a2: ContentAddress| final(self).spec_at(a2) == old(self).spec_at(a2)
                    &&& final(self).spec_ext_mapped() == old(self).spec_ext_mapped()
                    // Only the packed address running out of table numbers
                    // for the payload's class fails an emplacement.
                    &&& exists|z: int|
                        0 <= z < 64 && (#[trigger] old(self).spec_tables_of(z)) >= 0x4000000int
                            / entries_of(spec_class_of(z))
                }
            },
    {
        let class = DatumSize::nearest(data.len());
        let zb: u8 = u8::from(class);
        let z = zb as usize;
        proof {
            assert(class == spec_class_of(z as int));
        }
        let ghost entries = entries_of(class);
        let mut t_idx: usize = 0;
        let table_count: usize = self.tables[z].len();
        while t_idx < table_count
            invariant
                self.wf(),
                old(self).wf(),
                self.spec_key_len() == old(self).spec_key_len(),
                key@.len() == self.spec_key_len(),
                data@.len() <= 0xFFFF_FFF0_0000_0000,
                class.wf(),
                class == spec_class_of(z as int),
                z < 64,
                entries == entries_of(class),
                (match class {
                    DatumSize::Oversize => data@.len() > 98304,
                    DatumSize::Size(c) => {
                        &&& class_size(c as int) >= data@.len()
                        &&& c > 0 ==> class_size(c as int - 1) < data@.len()
                    },
                }),
                table_count == self.spec_tables_of(z as int),
                self.spec_tables_of(z as int) == old(self).spec_tables_of(z as int),
                forall|y: int|
                    0 <= y < 64 ==> #[trigger] self.spec_tables_of(y) == old(
                        self,
                    ).spec_tables_of(y),
                forall|a2: ContentAddress| self.spec_at(a2) == old(self).spec_at(a2),
                self.spec_ext_mapped() == old(self).spec_ext_mapped(),
                t_idx <= table_count,
                forall|t: int|
                    t_idx <= t < table_count ==> #[trigger] self.tables_at(z as int, t) == old(
                        self,
                    ).tables_at(z as int, t),
                forall|t: int|
                    0 <= t < t_idx ==> (#[trigger] old(self).tables_at(z as int, t)).spec_used()
                        == old(self).tables_at(z as int, t).spec_capacity(),
            decreases table_count - t_idx,
        {
            proof {
                self.tables@[z as int]@[t_idx as int].lemma_geometry();
                if let DatumSize::Size(c) = class {
                    Self::lemma_fits(&self.tables@[z as int]@[t_idx as int], c,
                        data@.len() as int);
                }
            }
            let ghost prev = *self;
            let tz: &mut Vec<Table> = &mut self.tables[z];
            let tb: &mut Table = &mut tz[t_idx];
            match tb.allocate(key, data.len()) {
                Some(e) => {
                    let sr = tb.set_item(e, data);
                    proof {
                        if sr is Err {
                            assert(false);
                        }
                        self.lemma_route_frame_entry(&prev, z as int, t_idx as int, e as int);
                        prev.tables@[z as int]@[t_idx as int].lemma_geometry();
                        self.tables@[z as int]@[t_idx as int].lemma_geometry();
                    }
                    let a = ContentAddress {
                        datum_size: class,
                        content_table: t_idx,
                        entry_index: e as usize,
                    };
                    proof {
                        let zi = z as int;
                        let ti = t_idx as int;
                        assert(a.datum_size.spec_code() == zi);
                        assert((e as int) < entries);
                        assert(prev.tables@[zi]@.len() * entries <= 0x4000000);
                        vstd::arithmetic::mul::lemma_mul_inequality(ti + 1,
                            prev.tables@[zi]@.len() as int, entries);
                        vstd::arithmetic::mul::lemma_mul_is_distributive_add_other_way(
                            entries,
                            ti,
                            1,
                        );
                        assert(entries * (ti + 1) == entries * ti + entries);
                        assert((ti + 1) * entries == entries * (ti + 1)) by (nonlinear_arith);
                        assert(prev.tables@[zi]@.len() as int * entries == entries
                            * (prev.tables@[zi]@.len() as int)) by (nonlinear_arith);
                        assert(a.spec_linear() < 0x4000000);
                        assert(a.valid());
                        assert(prev.spec_at(a) is None);
                        assert(self.spec_at(a) == Some(
                            (SlotModel { key: key@, data: data@, ref_count: 1 }),
                        ));
                        assert forall|y: int|
                            0 <= y < 64 implies #[trigger] self.spec_tables_of(y) == old(
                            self,
                        ).spec_tables_of(y) by {
                            if y != zi {
                                assert(self.tables@[y] == prev.tables@[y]);
                            }
                            assert(self.tables@[y]@.len() == prev.tables@[y]@.len());
                            assert(prev.spec_tables_of(y) == old(self).spec_tables_of(y));
                        }
                        assert(a.content_table < old(self).spec_tables_of(zi));
                    }
                    return Ok(a);
                }
                None => {
                    proof {
                        self.lemma_route_frame(&prev, z as int, t_idx as int);
                        assert forall|t: int|
                            t_idx + 1 <= t < table_count implies #[trigger] self.tables_at(
                            z as int,
                            t,
                        ) == old(self).tables_at(z as int, t) by {
                            assert(self.tables@[z as int]@[t] == prev.tables@[z as int]@[t]);
                            assert(prev.tables_at(z as int, t) == old(self).tables_at(
                                z as int,
                                t,
                            ));
                        }
                        assert(prev.tables_at(z as int, t_idx as int) == old(self).tables_at(
                            z as int,
                            t_idx as int,
                        ));
                        assert forall|y: int|
                            0 <= y < 64 implies #[trigger] self.spec_tables_of(y) == old(
                            self,
                        ).spec_tables_of(y) by {
                            if y != z as int {
                                assert(self.tables@[y] == prev.tables@[y]);
                            }
                            assert(self.tables@[y]@.len() == prev.tables@[y]@.len());
                            assert(prev.spec_tables_of(y) == old(self).spec_tables_of(y));
                        }
                    }
                }
            }
            t_idx = t_idx + 1;
        }
        // Out of space in every existing table: open a new one.
        let entries_exec: usize = class.contents_entries();
        let cap: usize = 0x4000000 / entries_exec;
        if table_count >= cap {
            proof {
                let z = zb as int;
                assert(old(self).spec_tables_of(z) >= 0x4000000int / entries_of(spec_class_of(z)));
            }
            return Err(Error::Io);
        }
        let mut nt = Table::fresh(class, self.key_len, self.min_items_backed);
        proof {
            nt.lemma_geometry();
            if let DatumSize::Size(c) = class {
                Self::lemma_fits(&nt, c, data@.len() as int);
            }
        }
        let e: TableItemIndex = match nt.allocate(key, data.len()) {
            Some(e) => e,
            None => {
                proof {
                    assert(false);
                }
                0
            }
        };
        proof {
            assert(e == 0);
        }
        let sr = nt.set_item(e, data);
        proof {
            if sr is Err {
                assert(false);
            }
        }
        let ghost prev = *self;
        let ghost ntg = nt;
        let tz: &mut Vec<Table> = &mut self.tables[z];
        tz.push(nt);
        let a = ContentAddress { datum_size: class, content_table: table_count, entry_index: e as usize };
        proof {
            let zi = z as int;
            let ti = table_count as int;
            let x: int = 0x4000000;
            vstd::arithmetic::div_mod::lemma_fundamental_div_mod(x, entries);
            assert(entries * (cap as int) <= x);
            vstd::arithmetic::mul::lemma_mul_inequality(ti + 1, cap as int, entries);
            assert((ti + 1) * entries == entries * (ti + 1)) by (nonlinear_arith);
            assert((cap as int) * entries == entries * (cap as int)) by (nonlinear_arith);
            assert((ti + 1) * entries <= x);
            vstd::arithmetic::mul::lemma_mul_is_distributive_add_other_way(entries, ti, 1);
            assert(entries * ti + entries <= x);
            // The grown class keeps the invariant and only the new slot of
            // the new table changed.
            assert forall|y: int, u: int|
                0 <= y < 64 && 0 <= u < self.tables@[y]@.len() implies {
                let tb2 = #[trigger] self.tables@[y]@[u];
                &&& tb2.wf()
                &&& tb2.spec_datum_size() == spec_class_of(y)
                &&& tb2.spec_key_len() == self.key_len
            } by {
                if y != zi || u < ti {
                    assert(self.tables@[y]@[u] == prev.tables@[y]@[u]);
                }
            }
            assert forall|y: int|
                0 <= y < 64 implies (#[trigger] self.tables@[y]@.len()) * entries_of(
                spec_class_of(y)) <= 0x4000000 by {
                if y != zi {
                    assert(self.tables@[y] == prev.tables@[y]);
                } else {
                    assert(self.tables@[zi]@.len() == ti + 1);
                }
            }
            assert(self.wf());
            ntg.lemma_geometry();
            assert((e as int) < entries);
            assert(a.spec_linear() < 0x4000000);
            assert(a.valid());
            assert(prev.spec_at(a) is None);
            assert(self.spec_at(a) == Some(
                (SlotModel { key: key@, data: data@, ref_count: 1 }),
            ));
            assert(a.content_table == old(self).spec_tables_of(zi));
            assert(self.spec_tables_of(zi) == old(self).spec_tables_of(zi) + 1);
            assert forall|a2: ContentAddress|
                !same_slot(a2, a) implies self.spec_at(a2) == prev.spec_at(a2) by {
                let z2 = a2.datum_size.spec_code();
                if 0 <= z2 < 64 {
                    if z2 != zi {
                        assert(self.tables@[z2] == prev.tables@[z2]);
                    } else {
                        if a2.content_table < ti {
                            assert(self.tables@[z2]@[a2.content_table as int] == prev.tables@[
                                z2]@[a2.content_table as int]);
                        } else if a2.content_table == ti {
                            assert(self.spec_at(a2) == ntg@[a2.entry_index as int]
                                || a2.entry_index >= ntg@.len());
                        }
                    }
                }
            }
            // The new table's mapped bytes are at most the new payload.
            lemma_classes_update(prev.tables@, self.tables@, zi, 64);
            lemma_tables_equal(prev.tables@[zi]@, self.tables@[zi]@, ti);
            assert(tables_ext_mapped(self.tables@[zi]@, ti + 1) == tables_ext_mapped(
                self.tables@[zi]@,
                ti,
            ) + ntg.spec_mapped_bytes());
        }
        Ok(a)
    }

    /// Serialises every table into its files, for the embedding program to
    /// write out.
    pub fn to_files(&self) -> (r: Vec<Vec<TableFiles>>)
        requires
            self.wf(),
        ensures
            r@.len() == 64,
            forall|z: int| 0 <= z < 64 ==> (#[trigger] r@[z])@.len() == self.spec_tables_of(z),
            forall|z: int, t: int|
                0 <= z < 64 && 0 <= t < self.spec_tables_of(z) ==> table_files_describe(
                    self.tables_at(z, t),
                    #[trigger] r@[z]@[t],
                ),
    {
        let mut out: Vec<Vec<TableFiles>> = Vec::new();
        let mut z: usize = 0;
        while z < 64
            invariant
                self.wf(),
                z <= 64,
                out@.len() == z,
                forall|y: int| 0 <= y < z ==> (#[trigger] out@[y])@.len() == self.spec_tables_of(y),
                forall|y: int, t: int|
                    0 <= y < z && 0 <= t < self.spec_tables_of(y) ==> table_files_describe(
                        self.tables_at(y, t),
                        #[trigger] out@[y]@[t],
                    ),
            decreases 64 - z,
        {
            let mut class_out: Vec<TableFiles> = Vec::new();
            let mut t: usize = 0;
            while t < self.tables[z].len()
                invariant
                    self.wf(),
                    z < 64,
                    t <= self.spec_tables_of(z as int),
                    class_out@.len() == t,
                    forall|u: int|
                        0 <= u < t ==> table_files_describe(
                            self.tables_at(z as int, u),
                            #[trigger] class_out@[u],
                        ),
                decreases self.spec_tables_of(z as int) - t,
            {
                class_out.push(self.tables[z][t].to_files());
                proof {
                    assert(self.tables_at(z as int, t as int) == self.tables@[z as int]@[
                        t as int]);
                }
                t = t + 1;
            }
            out.push(class_out);
            z = z + 1;
        }
        out
    }

    /// The total bytes mapped: every backed slot image plus every mapped
    /// external payload. Saturates at `u64::MAX`, which no real store
    /// reaches.
    pub fn bytes_mapped(&self) -> (r: u64)
        requires
            self.wf(),
        ensures
            self.spec_bytes_mapped() <= u64::MAX ==> r == self.spec_bytes_mapped(),
            self.spec_bytes_mapped() > u64::MAX ==> r == u64::MAX,
            r as int <= self.spec_bytes_mapped(),
    {
        proof {
            lemma_classes_nonneg(self.tables@, 64);
        }
        let mut acc: u64 = 0;
        let mut z: usize = 0;
        while z < 64
            invariant
                self.wf(),
                z <= 64,
                classes_mapped(self.tables@, z as int) <= u64::MAX ==> acc == classes_mapped(
                    self.tables@,
                    z as int,
                ),
                classes_mapped(self.tables@, z as int) > u64::MAX ==> acc == u64::MAX,
                acc as int <= classes_mapped(self.tables@, z as int),
                classes_mapped(self.tables@, z as int) <= self.spec_bytes_mapped(),
            decreases 64 - z,
        {
            proof {
                lemma_classes_step_le(self.tables@, z as int, 64);
            }
            let mut t: usize = 0;
            while t < self.tables[z].len()
                invariant
                    self.wf(),
                    z < 64,
                    t <= self.spec_tables_of(z as int),
                    ({
                        let partial = classes_mapped(self.tables@, z as int) + tables_mapped(
                            self.tables@[z as int]@,
                            t as int,
                        );
                        &&& (partial <= u64::MAX ==> acc == partial)
                        &&& (partial > u64::MAX ==> acc == u64::MAX)
                        &&& acc as int <= partial
                    }),
                decreases self.spec_tables_of(z as int) - t,
            {
                proof {
                    self.tables@[z as int]@[t as int].lemma_geometry();
                    vstd::arithmetic::mul::lemma_mul_nonnegative(
                        self.tables@[z as int]@[t as int].spec_backed(),
                        self.tables@[z as int]@[t as int].spec_item_size(),
                    );
                }
                let term: u64 = self.tables[z][t].bytes_mapped();
                acc = match acc.checked_add(term) {
                    Some(x) => x,
                    None => u64::MAX,
                };
                t = t + 1;
            }
            z = z + 1;
        }
        acc
    }

    /// The external bytes currently mapped, saturating at `u64::MAX`.
    pub(crate) fn ext_mapped_total(&self) -> (r: u64)
        requires
            self.wf(),
        ensures
            self.spec_ext_mapped() <= u64::MAX ==> r == self.spec_ext_mapped(),
            self.spec_ext_mapped() > u64::MAX ==> r == u64::MAX,
            r as int <= self.spec_ext_mapped(),
    {
        proof {
            lemma_classes_nonneg(self.tables@, 64);
        }
        let mut acc: u64 = 0;
        let mut z: usize = 0;
        while z < 64
            invariant
                self.wf(),
                z <= 64,
                classes_ext_mapped(self.tables@, z as int) <= u64::MAX ==> acc
                    == classes_ext_mapped(self.tables@, z as int),
                classes_ext_mapped(self.tables@, z as int) > u64::MAX ==> acc == u64::MAX,
                acc as int <= classes_ext_mapped(self.tables@, z as int),
                classes_ext_mapped(self.tables@, z as int) <= self.spec_ext_mapped(),
            decreases 64 - z,
        {
            proof {
                lemma_classes_step_le(self.tables@, z as int, 64);
            }
            let mut t: usize = 0;
            while t < self.tables[z].len()
                invariant
                    self.wf(),
                    z < 64,
                    t <= self.spec_tables_of(z as int),
                    ({
                        let partial = classes_ext_mapped(self.tables@, z as int)
                            + tables_ext_mapped(self.tables@[z as int]@, t as int);
                        &&& (partial <= u64::MAX ==> acc == partial)
                        &&& (partial > u64::MAX ==> acc == u64::MAX)
                        &&& acc as int <= partial
                    }),
                decreases self.spec_tables_of(z as int) - t,
            {
                let term: u64 = self.tables[z][t].ext_mapped();
                acc = match acc.checked_add(term) {
                    Some(x) => x,
                    None => u64::MAX,
                };
                t = t + 1;
            }
            z = z + 1;
        }
        acc
    }

    /// Unmap least-recently used external payloads until at most
    /// `shrink_size` externally mapped bytes remain.
    pub fn shrink_to(&mut self, shrink_size: usize)
        requires
            old(self).wf(),
        ensures
            final(self).wf(),
            final(self).spec_key_len() == old(self).spec_key_len(),
            forall|a2: ContentAddress| final(self).spec_at(a2) == old(self).spec_at(a2),
            final(self).spec_ext_mapped() <= old(self).spec_ext_mapped(),
            final(self).spec_ext_mapped() <= shrink_size,
            forall|z: int| 0 <= z < 64 ==> #[trigger] final(self).spec_tables_of(z) == old(
                self,
            ).spec_tables_of(z),
            // Nothing new is mapped and surviving ticks are kept.
            forall|z: int, t: int, i: int|
                0 <= z < 64 && 0 <= t < old(self).spec_tables_of(z) && (#[trigger] final(self).tables_at(z, t).spec_mapped_at(i)) ==> old(self).tables_at(z, t).spec_mapped_at(
                    i,
                ) && final(self).tables_at(z, t).spec_tick_at(i) == old(self).tables_at(
                    z,
                    t,
                ).spec_tick_at(i),
            // Eviction is least-recently-used across every table: whatever
            // was unmapped is at least as old as everything that stayed.
            forall|z: int, t: int, i: int, z2: int, t2: int, i2: int|
                0 <= z < 64 && 0 <= t < old(self).spec_tables_of(z) && 0 <= z2 < 64 && 0 <= t2
                    < old(self).spec_tables_of(z2) && (#[trigger] final(self).tables_at(
                    z,
                    t,
                ).spec_mapped_at(i)) && old(self).tables_at(z2, t2).spec_mapped_at(i2) && !(
                #[trigger] final(self).tables_at(z2, t2).spec_mapped_at(i2)) ==> old(
                    self,
                ).tables_at(z2, t2).spec_tick_at(i2) <= old(self).tables_at(z, t).spec_tick_at(i),
    {
        loop
            invariant
                self.wf(),
                self.spec_key_len() == old(self).spec_key_len(),
                forall|a2: ContentAddress| self.spec_at(a2) == old(self).spec_at(a2),
                self.spec_ext_mapped() <= old(self).spec_ext_mapped(),
                forall|z: int|
                    0 <= z < 64 ==> #[trigger] self.spec_tables_of(z) == old(
                        self,
                    ).spec_tables_of(z),
                forall|z: int, t: int, i: int|
                    0 <= z < 64 && 0 <= t < old(self).spec_tables_of(z) && (
                    #[trigger] self.tables_at(z, t).spec_mapped_at(i)) ==> old(self).tables_at(
                        z,
                        t,
                    ).spec_mapped_at(i) && self.tables_at(z, t).spec_tick_at(i) == old(
                        self,
                    ).tables_at(z, t).spec_tick_at(i),
                forall|z: int, t: int, i: int, z2: int, t2: int, i2: int|
                    0 <= z < 64 && 0 <= t < old(self).spec_tables_of(z) && 0 <= z2 < 64 && 0 <= t2
                        < old(self).spec_tables_of(z2) && (#[trigger] self.tables_at(
                        z,
                        t,
                    ).spec_mapped_at(i)) && old(self).tables_at(z2, t2).spec_mapped_at(i2) && !(
                    #[trigger] self.tables_at(z2, t2).spec_mapped_at(i2)) ==> old(
                        self,
                    ).tables_at(z2, t2).spec_tick_at(i2) <= old(self).tables_at(
                        z,
                        t,
                    ).spec_tick_at(i),
            ensures
                self.spec_ext_mapped() <= shrink_size,
            decreases self.spec_mapped_count(),
        {
            proof {
                lemma_classes_nonneg(self.tables@, 64);
            }
            let total: u64 = self.ext_mapped_total();
            if total < u64::MAX && total <= shrink_size as u64 {
                return ;
            }
            let victim = self.find_victim();
            match victim {
                Some((z, t, i)) => {
                    let ghost prev = *self;
                    let tz: &mut Vec<Table> = &mut self.tables[z];
                    let tb: &mut Table = &mut tz[t];
                    tb.ensure_not_mapped(i);
                    proof {
                        self.lemma_route_frame(&prev, z as int, t as int);
                        lemma_classes_nonneg(self.tables@, 64);
                        assert forall|y: int|
                            0 <= y < 64 implies #[trigger] self.spec_tables_of(y) == old(
                            self,
                        ).spec_tables_of(y) by {
                            if y != z as int {
                                assert(self.tables@[y] == prev.tables@[y]);
                            }
                            assert(self.tables@[y]@.len() == prev.tables@[y]@.len());
                            assert(prev.spec_tables_of(y) == old(self).spec_tables_of(y));
                        }
                        assert forall|y: int, u: int, i3: int|
                            0 <= y < 64 && 0 <= u < old(self).spec_tables_of(y) && (
                            #[trigger] self.tables_at(y, u).spec_mapped_at(i3)) implies old(
                            self,
                        ).tables_at(y, u).spec_mapped_at(i3) && self.tables_at(y, u).spec_tick_at(
                            i3,
                        ) == old(self).tables_at(y, u).spec_tick_at(i3) by {
                            if y == z as int && u == t as int {
                                assert(self.tables_at(y, u).spec_mapped_at(i3));
                                assert(i3 != i as int);
                                assert(prev.tables_at(y, u).spec_mapped_at(i3));
                                assert(self.tables_at(y, u).spec_tick_at(i3)
                                    == prev.tables_at(y, u).spec_tick_at(i3));
                            } else {
                                assert(self.tables_at(y, u) == prev.tables_at(y, u));
                            }
                        }
                        assert forall|y: int, u: int, i3: int, y2: int, u2: int, i4: int|
                            0 <= y < 64 && 0 <= u < old(self).spec_tables_of(y) && 0 <= y2 < 64
                                && 0 <= u2 < old(self).spec_tables_of(y2) && (
                            #[trigger] self.tables_at(y, u).spec_mapped_at(i3)) && old(
                            self,
                        ).tables_at(y2, u2).spec_mapped_at(i4) && !(#[trigger] self.tables_at(
                            y2,
                            u2,
                        ).spec_mapped_at(i4)) implies old(self).tables_at(y2, u2).spec_tick_at(i4)
                            <= old(self).tables_at(y, u).spec_tick_at(i3) by {
                            let surv_pre = if y == z as int && u == t as int {
                                prev.tables_at(y, u).spec_mapped_at(i3)
                            } else {
                                true
                            };
                            assert(prev.tables_at(y, u).spec_mapped_at(i3)) by {
                                if y == z as int && u == t as int {
                                    assert(i3 != i as int);
                                } else {
                                    assert(self.tables_at(y, u) == prev.tables_at(y, u));
                                }
                            }
                            if prev.tables_at(y2, u2).spec_mapped_at(i4) {
                                // Unmapped just now: the victim was the
                                // global minimum of what was still mapped.
                                assert(y2 == z as int && u2 == t as int && i4 == i as int) by {
                                    if !(y2 == z as int && u2 == t as int) {
                                        assert(self.tables_at(y2, u2) == prev.tables_at(y2, u2));
                                        assert(false);
                                    } else if i4 != i as int {
                                        assert(self.tables_at(y2, u2).spec_mapped_at(i4)
                                            == prev.tables_at(y2, u2).spec_mapped_at(i4));
                                        assert(false);
                                    }
                                }
                                assert(prev.tables_at(z as int, t as int).spec_tick_at(i as int)
                                    <= prev.tables_at(y, u).spec_tick_at(i3));
                                assert(prev.tables_at(y2, u2).spec_tick_at(i4) == old(
                                    self,
                                ).tables_at(y2, u2).spec_tick_at(i4));
                                assert(prev.tables_at(y, u).spec_tick_at(i3) == old(
                                    self,
                                ).tables_at(y, u).spec_tick_at(i3));
                            }
                        }
                    }
                }
                None => {
                    proof {
                        assert forall|y: int, u: int|
                            0 <= y < 64 && 0 <= u < self.tables@[y]@.len() implies (
                        #[trigger] self.tables@[y]@[u]).spec_mapped_bytes() == 0 by {
                            assert(self.tables_at(y, u) == self.tables@[y]@[u]);
                            assert(self.tables_at(y, u).spec_mapped_bytes() == 0);
                        }
                        lemma_all_unmapped_zero(self.tables@, 64);
                        assert(false);
                    }
                }
            }
        }
    }

    /// The mapped slot with the globally oldest use tick, or `None` when
    /// nothing is mapped anywhere.
    fn find_victim(&self) -> (r: Option<(usize, usize, TableItemIndex)>)
        requires
            self.wf(),
        ensures
            match r {
                Some((z, t, i)) => {
                    &&& z < 64
                    &&& (t as int) < self.spec_tables_of(z as int)
                    &&& self.tables_at(z as int, t as int).spec_mapped_at(i as int)
                    // The victim's tick is globally minimal.
                    &&& forall|z2: int, t2: int, i2: int|
                        0 <= z2 < 64 && 0 <= t2 < self.spec_tables_of(z2) && (
                        #[trigger] self.tables_at(z2, t2).spec_mapped_at(i2))
                            ==> self.tables_at(z as int, t as int).spec_tick_at(i as int)
                            <= self.tables_at(z2, t2).spec_tick_at(i2)
                }
                None => forall|z: int, t: int|
                    0 <= z < 64 && 0 <= t < self.spec_tables_of(z) ==> (#[trigger] self.tables_at(
                        z,
                        t,
                    )).spec_mapped_bytes() == 0,
            },
    {
        let mut best: Option<(usize, usize, TableItemIndex)> = None;
        let mut best_tick: u64 = 0;
        let mut z: usize = 0;
        while z < 64
            invariant
                self.wf(),
                z <= 64,
                match best {
                    Some(p) => p.0 < 64 && (p.1 as int) < self.spec_tables_of(p.0 as int)
                        && self.tables_at(p.0 as int, p.1 as int).spec_mapped_at(p.2 as int)
                        && best_tick == self.tables_at(p.0 as int, p.1 as int).spec_tick_at(
                        p.2 as int,
                    ) && forall|y: int, u: int, i2: int|
                        0 <= y < z && 0 <= u < self.spec_tables_of(y) && (
                        #[trigger] self.tables_at(y, u).spec_mapped_at(i2)) ==> best_tick
                            <= self.tables_at(y, u).spec_tick_at(i2),
                    None => (forall|y: int, t: int|
                        0 <= y < z && 0 <= t < self.spec_tables_of(y) ==> (
                        #[trigger] self.tables_at(y, t)).spec_mapped_bytes() == 0) && (forall|
                        y: int,
                        t: int,
                        i2: int,
                    |
                        0 <= y < z && 0 <= t < self.spec_tables_of(y) ==> !(
                        #[trigger] self.tables_at(y, t).spec_mapped_at(i2))),
                },
            decreases 64 - z,
        {
            let mut t: usize = 0;
            while t < self.tables[z].len()
                invariant
                    self.wf(),
                    z < 64,
                    t <= self.spec_tables_of(z as int),
                    match best {
                        Some(p) => p.0 < 64 && (p.1 as int) < self.spec_tables_of(p.0 as int)
                            && self.tables_at(p.0 as int, p.1 as int).spec_mapped_at(p.2 as int)
                            && best_tick == self.tables_at(p.0 as int, p.1 as int).spec_tick_at(
                            p.2 as int,
                        ) && (forall|y: int, u: int, i2: int|
                            0 <= y < z && 0 <= u < self.spec_tables_of(y) && (
                            #[trigger] self.tables_at(y, u).spec_mapped_at(i2)) ==> best_tick
                                <= self.tables_at(y, u).spec_tick_at(i2)) && (forall|
                            u: int,
                            i2: int,
                        |
                            0 <= u < t && (#[trigger] self.tables_at(z as int, u).spec_mapped_at(
                                i2,
                            )) ==> best_tick <= self.tables_at(z as int, u).spec_tick_at(i2)),
                        None => (forall|y: int, u: int|
                            0 <= y < z && 0 <= u < self.spec_tables_of(y) ==> (
                            #[trigger] self.tables_at(y, u)).spec_mapped_bytes() == 0) && (forall|
                            y: int,
                            u: int,
                            i2: int,
                        |
                            0 <= y < z && 0 <= u < self.spec_tables_of(y) ==> !(
                            #[trigger] self.tables_at(y, u).spec_mapped_at(i2))) && (forall|
                            u: int,
                        |
                            0 <= u < t ==> (#[trigger] self.tables_at(z as int,
                                u,
                            )).spec_mapped_bytes() == 0) && (forall|u: int, i2: int|
                            0 <= u < t ==> !(#[trigger] self.tables_at(z as int,
                                u,
                            ).spec_mapped_at(i2))),
                    },
                decreases self.spec_tables_of(z as int) - t,
            {
                match self.tables[z][t].oldest_mapped() {
                    Some((i, tick)) => {
                        match best {
                            Some(_) => {
                                if tick < best_tick {
                                    best = Some((z, t, i));
                                    best_tick = tick;
                                }
                            }
                            None => {
                                best = Some((z, t, i));
                                best_tick = tick;
                            }
                        }
                    }
                    None => {}
                }
                t = t + 1;
            }
            z = z + 1;
        }
        best
    }

    /// The table at a class and position, for specifications.
    pub closed spec fn tables_at(&self, z: int, t: int) -> Table {
        self.tables@[z]@[t]
    }

    /// How many tables the classes below `z` hold together.
    pub open spec fn spec_tables_total(&self, z: int) -> int
        decreases z,
    {
        if z <= 0 {
            0
        } else {
            self.spec_tables_total(z - 1) + self.spec_tables_of(z - 1)
        }
    }

    /// The statistics row `info` reports for the table at `(z, t)`: its
    /// class and position, then its free slots, used slots, bytes on disk
    /// and bytes mapped.
    pub open spec fn spec_info_row(&self, z: int, t: int) -> ((DatumSize, usize), (
        TableItemCount,
        TableItemCount,
        u64,
        u64,
    )) {
        let tb = self.tables_at(z, t);
        (
            (spec_class_of(z), t as usize),
            (
                ((tb.spec_capacity() - tb.spec_used()) as TableItemCount),
                (tb.spec_used() as TableItemCount),
                ((tb.spec_backed() * tb.spec_item_size() + tb.spec_external_data()) as u64),
                ((tb.spec_backed() * tb.spec_item_size() + tb.spec_mapped_bytes()) as u64),
            ),
        )
    }

    /// Per-table statistics: for each table its class and position, then
    /// the free slots, used slots, bytes used and bytes mapped.
    /// Ascending class totals never shrink.
    pub proof fn lemma_tables_total_mono(&self, a: int, b: int)
        requires
            0 <= a <= b <= 64,
        ensures
            self.spec_tables_total(a) <= self.spec_tables_total(b),
            self.spec_tables_total(a) >= 0,
        decreases a + b,
    {
        if a > 0 {
            self.lemma_tables_total_mono(a - 1, a - 1);
        }
        if a < b {
            self.lemma_tables_total_mono(a, b - 1);
        }
    }

    /// Per-table statistics, one row per table in class order: each pushed
    /// row is the `spec_info_row` of its table; the sequence holds one row
    /// per table.
    #[verifier::loop_isolation(false)]
    pub fn info(&self) -> (r: Vec<((DatumSize, usize), (TableItemCount, TableItemCount, u64,
        u64))>)
        requires
            self.wf(),
        ensures
            r@.len() == self.spec_tables_total(64),
    {
        let mut out: Vec<((DatumSize, usize), (TableItemCount, TableItemCount, u64, u64))> =
            Vec::new();
        let mut z: usize = 0;
        while z < 64
            invariant
                z <= 64,
                out@.len() == self.spec_tables_total(z as int),
            decreases 64 - z,
        {
            let class = DatumSize::from(z as u8);
            proof {
                assert(class == spec_class_of(z as int));
                assert(self.spec_tables_total(z as int + 1) == self.spec_tables_total(z as int)
                    + self.spec_tables_of(z as int));
            }
            let mut t: usize = 0;
            while t < self.tables[z].len()
                invariant
                    t <= self.spec_tables_of(z as int),
                    out@.len() == self.spec_tables_total(z as int) + t,
                decreases self.spec_tables_of(z as int) - t,
            {
                let tb = &self.tables[z][t];
                proof {
                    tb.lemma_geometry();
                }
                let ghost before = out@;
                out.push(((class, t), (tb.available(), tb.used(), tb.bytes_used(),
                    tb.bytes_mapped())));
                proof {
                    assert(out@[before.len() as int] == self.spec_info_row(z as int, t as int));
                }
                t = t + 1;
            }
            z = z + 1;
        }
        out
    }

    /// Addresses that name the same physical slot resolve alike.
    pub proof fn lemma_same_slot_at(&self, a: ContentAddress, b: ContentAddress)
        requires
            same_slot(a, b),
        ensures
            self.spec_at(a) == self.spec_at(b),
    {
    }

    /// A fact callers use: what an address resolves to keeps the shared key
    /// length and a positive reference count.
    pub proof fn lemma_at_wf(&self, a: ContentAddress)
        requires
            self.wf(),
            self.spec_at(a) is Some,
        ensures
            self.spec_at(a)->Some_0.key.len() == self.spec_key_len(),
            self.spec_at(a)->Some_0.ref_count >= 1,
    {
        let z = a.datum_size.spec_code();
        self.tables@[z]@[a.content_table as int].lemma_geometry();
    }
}

/// A content layer written out to per-class file images and one opened from
/// those same images with the same key length hold the same item at every
/// address.
pub proof fn lemma_content_round_trip(c1: Content, files: Seq<Vec<TableFiles>>, c2: Content)
    requires
        c1.wf(),
        c2.wf(),
        c2.spec_key_len() == c1.spec_key_len(),
        files.len() == 64,
        forall|z: int| 0 <= z < 64 ==> (#[trigger] files[z])@.len() == c1.spec_tables_of(z),
        forall|z: int, t: int|
            0 <= z < 64 && 0 <= t < c1.spec_tables_of(z) ==> table_files_describe(
                c1.tables_at(z, t),
                #[trigger] files[z]@[t],
            ),
        forall|z: int| 0 <= z < 64 ==> (#[trigger] c2.spec_tables_of(z)) == files[z]@.len(),
        forall|z: int, t: int|
            0 <= z < 64 && 0 <= t < c2.spec_tables_of(z) ==> table_opened_from(
                files[z]@[t].main@,
                files[z]@[t].externals@,
                #[trigger] c2.tables_at(z, t),
            ),
    ensures
        forall|a: ContentAddress| c2.spec_at(a) == c1.spec_at(a),
{
    assert forall|a: ContentAddress| c2.spec_at(a) == c1.spec_at(a) by {
        let z = a.datum_size.spec_code();
        if 0 <= z < 64 && (a.content_table as int) < c1.tables@[z]@.len() {
            let t = a.content_table as int;
            assert(c1.spec_tables_of(z) == c1.tables@[z]@.len());
            assert(c2.spec_tables_of(z) == c1.spec_tables_of(z));
            crate::table::lemma_table_round_trip(
                c1.tables_at(z, t),
                files[z]@[t],
                c2.tables_at(z, t),
            );
            assert(c2.tables_at(z, t)@ == c1.tables_at(z, t)@);
        } else {
            if 0 <= z < 64 {
                assert(c2.spec_tables_of(z) == c1.spec_tables_of(z));
            }
            assert(c1.spec_at(a) is None);
            assert(c2.spec_at(a) is None);
        }
    }
}

} // verus!
