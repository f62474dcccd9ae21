//! The database façade: the index and the content tables composed, with
//! the re-index protocol, the metadata envelope, and the durability
//! boundary. The embedding program hands a `FileSet` in at `open` and
//! writes the `FileSet` that `commit` returns back to disk.

use vstd::prelude::*;
use crate::content::{Content, same_slot};
use crate::content_address::ContentAddress;
use crate::error::Error;
use crate::content_address::entries_of;
use crate::content::spec_class_of;
use crate::index::{Index, valid_geometry, spec_preferred, spec_find_from, spec_edit_from,
    spec_remove_from, EditOutcome, content_key_matches, lemma_edit_then_find,
    lemma_find_congruence, walked, MAX_INDEX_BITS};
use crate::index_item::ItemModel;
use crate::metadata::MetadataV1;
use crate::table::{RefCount, TableFiles, TableItemCount, SlotModel};

verus! {

/// The images of every file of a database directory: the metadata and
/// index files if present, and for each size class the consecutive content
/// table files with their external payload files.
pub struct FileSet {
    pub metadata: Option<Vec<u8>>,
    pub index: Option<Vec<u8>>,
    pub tables: Vec<Vec<TableFiles>>,
}

/// The options builder.
pub struct Options {
    path: String,
    key_bytes: usize,
    index_bits: usize,
    skipped_count_trigger: u8,
    key_correction_trigger: usize,
    oversize_trigger_mapped: usize,
    oversize_shrink_mapped: usize,
    min_items_backed: TableItemCount,
}

impl Options {
    pub closed spec fn spec_key_bytes(&self) -> int {
        self.key_bytes as int
    }

    pub closed spec fn spec_index_bits(&self) -> int {
        self.index_bits as int
    }

    pub closed spec fn spec_min_items_backed(&self) -> int {
        self.min_items_backed as int
    }

    pub closed spec fn spec_path(&self) -> Seq<char> {
        self.path@
    }

    pub closed spec fn spec_oversize_trigger_mapped(&self) -> int {
        self.oversize_trigger_mapped as int
    }

    pub closed spec fn spec_oversize_shrink_mapped(&self) -> int {
        self.oversize_shrink_mapped as int
    }

    pub closed spec fn spec_skipped_count_trigger(&self) -> int {
        self.skipped_count_trigger as int
    }

    pub closed spec fn spec_key_correction_trigger(&self) -> int {
        self.key_correction_trigger as int
    }

    /// Create a new instance with the defaults.
    pub fn new() -> (r: Self)
        ensures
            r.spec_key_bytes() == 4,
            r.spec_index_bits() == 16,
            r.spec_min_items_backed() == 8,
            r.spec_oversize_trigger_mapped() == 256 * 1024 * 1024,
            r.spec_oversize_shrink_mapped() == 64 * 1024 * 1024,
            r.spec_skipped_count_trigger() == 240,
            r.spec_key_correction_trigger() == 32,
            r.spec_path() == Seq::<char>::empty(),
    {
        Options {
            path: String::new(),
            key_bytes: 4,
            index_bits: 16,
            skipped_count_trigger: 240,
            key_correction_trigger: 32,
            oversize_trigger_mapped: 256 * 1024 * 1024,
            oversize_shrink_mapped: 64 * 1024 * 1024,
            min_items_backed: 8,
        }
    }

    /// Create a new instance, providing a path.
    pub fn from_path(path: String) -> (r: Self)
        ensures
            r.spec_key_bytes() == 4,
            r.spec_index_bits() == 16,
            r.spec_min_items_backed() == 8,
            r.spec_path() == path@,
    {
        Options::new().path(path)
    }

    /// Set the number of bytes to use for the index key. The index bits are
    /// lowered if they no longer fit.
    pub fn key_bytes(self, key_bytes: usize) -> (r: Self)
        requires
            key_bytes <= 8,
        ensures
            r.spec_key_bytes() == key_bytes,
            r.spec_index_bits() == (if self.spec_index_bits() <= 8 * key_bytes {
                self.spec_index_bits()
            } else {
                8 * key_bytes
            }),
            r.spec_min_items_backed() == self.spec_min_items_backed(),
            r.spec_path() == self.spec_path(),
            r.spec_oversize_trigger_mapped() == self.spec_oversize_trigger_mapped(),
            r.spec_oversize_shrink_mapped() == self.spec_oversize_shrink_mapped(),
    {
        let mut s = self;
        s.key_bytes = key_bytes;
        if s.index_bits > key_bytes * 8 {
            s.index_bits = key_bytes * 8;
        }
        s
    }

    /// Set the number of bits to use for the index. The key bytes are
    /// raised if they are too few to contain them.
    pub fn index_bits(self, index_bits: usize) -> (r: Self)
        requires
            index_bits <= 64,
        ensures
            r.spec_index_bits() == index_bits,
            r.spec_key_bytes() == (if self.spec_key_bytes() >= (index_bits + 7) / 8 {
                self.spec_key_bytes()
            } else {
                (index_bits + 7) / 8
            }),
            r.spec_min_items_backed() == self.spec_min_items_backed(),
            r.spec_path() == self.spec_path(),
            r.spec_oversize_trigger_mapped() == self.spec_oversize_trigger_mapped(),
            r.spec_oversize_shrink_mapped() == self.spec_oversize_shrink_mapped(),
    {
        let mut s = self;
        s.index_bits = index_bits;
        let needed: usize = (index_bits + 7) / 8;
        if s.key_bytes < needed {
            s.key_bytes = needed;
        }
        s
    }

    /// Set the path in which the database should be opened. The engine only
    /// carries it; the embedding program reads and writes the files.
    pub fn path(self, path: String) -> (r: Self)
        ensures
            r.spec_path() == path@,
            r.spec_key_bytes() == self.spec_key_bytes(),
            r.spec_index_bits() == self.spec_index_bits(),
            r.spec_min_items_backed() == self.spec_min_items_backed(),
            r.spec_oversize_trigger_mapped() == self.spec_oversize_trigger_mapped(),
            r.spec_oversize_shrink_mapped() == self.spec_oversize_shrink_mapped(),
    {
        let mut s = self;
        s.path = path;
        s
    }

    /// Set the oversize tables' mapping management properties: the
    /// `trigger` is how many bytes may be mapped before a shrinking
    /// happens, and `shrink` how many may remain once it completes.
    pub fn oversize_shrink(self, trigger: usize, shrink: usize) -> (r: Self)
        ensures
            r.spec_oversize_trigger_mapped() == trigger,
            r.spec_oversize_shrink_mapped() == shrink,
            r.spec_key_bytes() == self.spec_key_bytes(),
            r.spec_index_bits() == self.spec_index_bits(),
            r.spec_min_items_backed() == self.spec_min_items_backed(),
            r.spec_path() == self.spec_path(),
    {
        let mut s = self;
        s.oversize_trigger_mapped = trigger;
        s.oversize_shrink_mapped = shrink;
        s
    }

    /// Set the minimum number of items backed on disk per table.
    pub fn min_items_backed(self, min_items_backed: TableItemCount) -> (r: Self)
        ensures
            r.spec_min_items_backed() == min_items_backed,
            r.spec_key_bytes() == self.spec_key_bytes(),
            r.spec_index_bits() == self.spec_index_bits(),
            r.spec_path() == self.spec_path(),
            r.spec_oversize_trigger_mapped() == self.spec_oversize_trigger_mapped(),
            r.spec_oversize_shrink_mapped() == self.spec_oversize_shrink_mapped(),
    {
        let mut s = self;
        s.min_items_backed = min_items_backed;
        s
    }

    /// Ensure that the files never need to grow, by backing every table in
    /// full from the start.
    pub fn all_items_backed(self) -> (r: Self)
        ensures
            r.spec_min_items_backed() == 65536,
            r.spec_key_bytes() == self.spec_key_bytes(),
            r.spec_index_bits() == self.spec_index_bits(),
            r.spec_path() == self.spec_path(),
            r.spec_oversize_trigger_mapped() == self.spec_oversize_trigger_mapped(),
            r.spec_oversize_shrink_mapped() == self.spec_oversize_shrink_mapped(),
    {
        let mut s = self;
        s.min_items_backed = 65536;
        s
    }

    /// Open a database over the given directory images, for keys of
    /// `key_len` bytes, with these options.
    pub fn open(self, key_len: usize, files: FileSet) -> (r: Result<Database, Error>)
        requires
            1 <= key_len <= 64,
        ensures
            r is Ok ==> r->Ok_0.wf() && r->Ok_0.spec_key_len() == key_len,
            (r is Ok && files.index is None && (forall|z: int|
                0 <= z < files.tables@.len() ==> (#[trigger] files.tables@[z])@.len() == 0))
                ==> ((forall|key: Seq<u8>| r->Ok_0.spec_get_addr(key) is None) && (forall|
                a: ContentAddress,
            |
                r->Ok_0.spec_at_addr(a) is None)),
            (r is Ok && files.metadata is Some) ==> ({
                let m = files.metadata->Some_0@;
                &&& crate::metadata::has_magic(m)
                &&& m.len() >= 16
                &&& crate::metadata::version_of(m) == crate::metadata::CURRENT_VERSION
                &&& r->Ok_0.spec_index_key_bytes() == crate::bytes::le32_val(m[8], m[9], m[10],
                    m[11])
                &&& r->Ok_0.spec_index_bits() == crate::bytes::le32_val(m[12], m[13], m[14],
                    m[15])
            }),
            (r is Ok && files.metadata is None) ==> r->Ok_0.spec_index_key_bytes()
                == self.spec_key_bytes() && r->Ok_0.spec_index_bits() == self.spec_index_bits(),
            r is Ok ==> r->Ok_0.spec_skipped_watermark() == 0
                && r->Ok_0.spec_correction_watermark() == 0 && r->Ok_0.spec_oversize_trigger()
                == self.spec_oversize_trigger_mapped() && r->Ok_0.spec_oversize_shrink()
                == self.spec_oversize_shrink_mapped() && r->Ok_0.spec_skipped_trigger()
                == self.spec_skipped_count_trigger() && r->Ok_0.spec_correction_trigger()
                == self.spec_key_correction_trigger(),
            (files.metadata is None && files.tables@.len() == 64 && (forall|z: int|
                0 <= z < files.tables@.len() ==> (#[trigger] files.tables@[z])@.len() == 0) && 1
                <= self.spec_key_bytes() <= 8 && self.spec_index_bits() <= 8
                * self.spec_key_bytes() && self.spec_index_bits() <= MAX_INDEX_BITS
                && self.spec_key_bytes() <= key_len) ==> r is Ok,
            // Without an index image the index starts empty.
            (r is Ok && files.index is None) ==> forall|i: int|
                0 <= i < r->Ok_0.spec_index_view().len() ==> (#[trigger] r->Ok_0.spec_index_view()[i]).entry is None && r->Ok_0.spec_index_view()[i].skipped_count == 0,
            // The opened state reflects the given images slot by slot.
            r is Ok ==> ({
                let db = r->Ok_0;
                &&& db.spec_content().spec_key_len() == key_len
                &&& files.tables@.len() == 64
                &&& (forall|z: int|
                    0 <= z < 64 ==> #[trigger] db.spec_content().spec_tables_of(z)
                        == files.tables@[z]@.len())
                &&& (forall|z: int, t: int|
                    0 <= z < 64 && 0 <= t < db.spec_content().spec_tables_of(z)
                        ==> crate::table::table_opened_from(
                        files.tables@[z]@[t].main@,
                        files.tables@[z]@[t].externals@,
                        #[trigger] db.spec_content().tables_at(z, t),
                    ))
                &&& db.spec_index_view().len() == db.spec_item_count()
                &&& (files.index is Some ==> forall|i: int|
                    0 <= i < db.spec_index_view().len() && (i + 1) * (7
                        + db.spec_index_suffix_len()) <= files.index->Some_0@.len() ==> (
                    #[trigger] db.spec_index_view()[i]) == crate::index_item::parse_item(
                        files.index->Some_0@.subrange(
                            i * (7 + db.spec_index_suffix_len()),
                            (i + 1) * (7 + db.spec_index_suffix_len()),
                        ),
                        db.spec_index_suffix_len(),
                    ))
            }),
    {
        Database::open(self, key_len, files)
    }
}

/// The assembled database.
pub struct Database {
    options: Options,
    key_len: usize,
    index: Index,
    content: Content,
}

impl Database {
    /// The byte length of this database's keys.
    pub closed spec fn spec_key_len(&self) -> int {
        self.key_len as int
    }

    /// What an address holds in the content layer.
    pub closed spec fn spec_at_addr(&self, a: ContentAddress) -> Option<SlotModel> {
        self.content.spec_at(a)
    }

    /// The address the index resolves a key to, following the lookup walk.
    pub closed spec fn spec_get_addr(&self, key: Seq<u8>) -> Option<ContentAddress> {
        spec_find_from(
            self.index@,
            self.index.spec_item_count(),
            spec_preferred(key, self.index.spec_index_bits()),
            key.subrange(self.index.spec_index_bits() / 8, self.index.spec_key_bytes()),
            key,
            self.content,
            0,
            self.index.spec_item_count() as nat,
        )
    }

    /// The composed invariant.
    pub closed spec fn wf(&self) -> bool {
        &&& self.index.wf()
        &&& self.content.wf()
        &&& self.content.spec_key_len() == self.key_len
        &&& self.index.spec_key_bytes() <= self.key_len
        &&& 1 <= self.key_len <= 64
    }

    /// Open a database over the given directory images: the persisted
    /// metadata parameters, when present, override the options.
    pub fn open(options: Options, key_len: usize, files: FileSet) -> (r: Result<Database, Error>)
        requires
            1 <= key_len <= 64,
        ensures
            r is Ok ==> r->Ok_0.wf() && r->Ok_0.spec_key_len() == key_len,
            // A fresh directory opens to an empty store: nothing resolves.
            (r is Ok && files.index is None && (forall|z: int|
                0 <= z < files.tables@.len() ==> (#[trigger] files.tables@[z])@.len() == 0))
                ==> ((forall|key: Seq<u8>| r->Ok_0.spec_get_addr(key) is None) && (forall|
                a: ContentAddress,
            |
                r->Ok_0.spec_at_addr(a) is None)),
            // The persisted parameters override the options; without
            // metadata the options stand.
            (r is Ok && files.metadata is Some) ==> ({
                let m = files.metadata->Some_0@;
                &&& crate::metadata::has_magic(m)
                &&& m.len() >= 16
                &&& crate::metadata::version_of(m) == crate::metadata::CURRENT_VERSION
                &&& r->Ok_0.spec_index_key_bytes() == crate::bytes::le32_val(m[8], m[9], m[10],
                    m[11])
                &&& r->Ok_0.spec_index_bits() == crate::bytes::le32_val(m[12], m[13], m[14],
                    m[15])
            }),
            (r is Ok && files.metadata is None) ==> r->Ok_0.spec_index_key_bytes()
                == options.spec_key_bytes() && r->Ok_0.spec_index_bits()
                == options.spec_index_bits(),
            r is Ok ==> r->Ok_0.spec_skipped_watermark() == 0
                && r->Ok_0.spec_correction_watermark() == 0 && r->Ok_0.spec_oversize_trigger()
                == options.spec_oversize_trigger_mapped() && r->Ok_0.spec_oversize_shrink()
                == options.spec_oversize_shrink_mapped() && r->Ok_0.spec_skipped_trigger()
                == options.spec_skipped_count_trigger() && r->Ok_0.spec_correction_trigger()
                == options.spec_key_correction_trigger(),
            // With no metadata, workable options and an empty directory,
            // opening is owed.
            (files.metadata is None && files.tables@.len() == 64 && (forall|z: int|
                0 <= z < files.tables@.len() ==> (#[trigger] files.tables@[z])@.len() == 0) && 1
                <= options.spec_key_bytes() <= 8 && options.spec_index_bits() <= 8
                * options.spec_key_bytes() && options.spec_index_bits() <= MAX_INDEX_BITS
                && options.spec_key_bytes() <= key_len) ==> r is Ok,
            // Without an index image the index starts empty.
            (r is Ok && files.index is None) ==> forall|i: int|
                0 <= i < r->Ok_0.spec_index_view().len() ==> (#[trigger] r->Ok_0.spec_index_view()[i]).entry is None && r->Ok_0.spec_index_view()[i].skipped_count == 0,
            // The opened state reflects the given images slot by slot.
            r is Ok ==> ({
                let db = r->Ok_0;
                &&& db.spec_content().spec_key_len() == key_len
                &&& files.tables@.len() == 64
                &&& (forall|z: int|
                    0 <= z < 64 ==> #[trigger] db.spec_content().spec_tables_of(z)
                        == files.tables@[z]@.len())
                &&& (forall|z: int, t: int|
                    0 <= z < 64 && 0 <= t < db.spec_content().spec_tables_of(z)
                        ==> crate::table::table_opened_from(
                        files.tables@[z]@[t].main@,
                        files.tables@[z]@[t].externals@,
                        #[trigger] db.spec_content().tables_at(z, t),
                    ))
                &&& db.spec_index_view().len() == db.spec_item_count()
                &&& (files.index is Some ==> forall|i: int|
                    0 <= i < db.spec_index_view().len() && (i + 1) * (7
                        + db.spec_index_suffix_len()) <= files.index->Some_0@.len() ==> (
                    #[trigger] db.spec_index_view()[i]) == crate::index_item::parse_item(
                        files.index->Some_0@.subrange(
                            i * (7 + db.spec_index_suffix_len()),
                            (i + 1) * (7 + db.spec_index_suffix_len()),
                        ),
                        db.spec_index_suffix_len(),
                    ))
            }),
    {
        let ghost fresh_dir = files.index is None && (forall|z: int|
            0 <= z < files.tables@.len() ==> (#[trigger] files.tables@[z])@.len() == 0);
        let FileSet { metadata, index: index_bytes, tables } = files;
        let (key_bytes, index_bits): (usize, usize) = match metadata {
            Some(m) => {
                match MetadataV1::decode(&m) {
                    Ok(meta) => (meta.key_bytes, meta.index_bits),
                    Err(e) => {
                        return Err(e);
                    }
                }
            }
            None => (options.key_bytes, options.index_bits),
        };
        if !(1 <= key_bytes && key_bytes <= 8 && index_bits <= 8 * key_bytes && index_bits
            <= MAX_INDEX_BITS && key_bytes <= key_len) {
            return Err(Error::BadMetadata);
        }
        let ib: Vec<u8> = match index_bytes {
            Some(b) => b,
            None => Vec::new(),
        };
        let index = Index::open(key_bytes, index_bits, ib);
        let content = match Content::open(key_len, options.min_items_backed, tables) {
            Ok(c) => c,
            Err(e) => {
                return Err(e);
            }
        };
        let db = Database { options, key_len, index, content };
        proof {
            db.index.lemma_geometry();
            assert(files.index is Some ==> ib@ == files.index->Some_0@);
            assert(files.tables@ == tables@);
            if fresh_dir {
                db.index.lemma_geometry();
                assert forall|key: Seq<u8>| db.spec_get_addr(key) is None by {
                    let n = db.index.spec_item_count();
                    let prf = spec_preferred(key, db.index.spec_index_bits());
                    vstd::arithmetic::div_mod::lemma_mod_division_less_than_divisor(
                        crate::index::le_prefix(key, (db.index.spec_index_bits() + 7) / 8),
                        vstd::arithmetic::power2::pow2(
                            db.index.spec_index_bits() as nat,
                        ) as int,
                    );
                    assert(0 <= prf < n);
                    assert(db.index@[(prf + 0) % n].entry is None);
                    assert(db.index@[(prf + 0) % n].skipped_count == 0);
                }
            }
        }
        Ok(db)
    }

    /// Serialises the whole database: the metadata envelope, the index
    /// image, and every content table's files.
    pub fn commit(&self) -> (r: FileSet)
        requires
            self.wf(),
        ensures
            r.metadata is Some,
            r.metadata->Some_0@ == crate::metadata::metadata_bytes(
                self.spec_index_key_bytes(),
                self.spec_index_bits(),
            ),
            r.index is Some,
            r.index->Some_0@.len() == self.spec_item_count() * (7 + self.spec_index_suffix_len()),
            forall|i: int|
                0 <= i < self.spec_item_count() ==> r.index->Some_0@.subrange(
                    i * (7 + self.spec_index_suffix_len()),
                    (i + 1) * (7 + self.spec_index_suffix_len()),
                ) == crate::index_item::item_bytes(
                    #[trigger] self.spec_index_view()[i],
                    self.spec_index_suffix_len(),
                ),
            r.tables@.len() == 64,
            forall|z: int|
                0 <= z < 64 ==> (#[trigger] r.tables@[z])@.len() == self.spec_content(
                ).spec_tables_of(z),
            forall|z: int, t: int|
                0 <= z < 64 && 0 <= t < self.spec_content().spec_tables_of(z)
                    ==> crate::table::table_files_describe(
                    self.spec_content().tables_at(z, t),
                    #[trigger] r.tables@[z]@[t],
                ),
    {
        proof {
            self.index.lemma_geometry();
        }
        let meta = MetadataV1 { key_bytes: self.index.key_bytes_value(),
            index_bits: self.index.index_bits_value() };
        FileSet {
            metadata: Some(meta.encode()),
            index: Some(self.index.to_bytes()),
            tables: self.content.to_files(),
        }
    }

    /// The total bytes currently mapped by the content layer; saturating.
    pub fn bytes_mapped(&self) -> (r: u64)
        requires
            self.wf(),
        ensures
            self.spec_content().spec_bytes_mapped() <= u64::MAX ==> r == self.spec_content(
            ).spec_bytes_mapped(),
    {
        self.content.bytes_mapped()
    }

    /// Per-table statistics.
    pub fn info(&self) -> (r: Vec<((crate::datum_size::DatumSize, usize), (TableItemCount,
        TableItemCount, u64, u64))>)
        requires
            self.wf(),
        ensures
            r@.len() == self.spec_content().spec_tables_total(64),
    {
        self.content.info()
    }

    /// Look a key's payload up and return a copy of it. The copy stands in
    /// for a zero-copy reference: the value model owns its bytes, so a
    /// guarded borrow has nothing to guard.
    pub fn get(&mut self, hash: &Vec<u8>) -> (r: Option<Vec<u8>>)
        requires
            old(self).wf(),
            hash@.len() == old(self).spec_key_len(),
        ensures
            final(self).wf(),
            final(self).spec_key_len() == old(self).spec_key_len(),
            match old(self).spec_get_addr(hash@) {
                Some(a) => {
                    &&& r is Some
                    &&& r->Some_0@ == old(self).spec_at_addr(a)->Some_0.data
                    &&& old(self).spec_at_addr(a) is Some
                    // Reading maps the payload exactly when it is held
                    // oversize and was not mapped yet.
                    &&& (old(self).spec_content().spec_read_maps(a) ==> final(self).spec_content(
                    ).spec_ext_mapped() == old(self).spec_content().spec_ext_mapped()
                        + r->Some_0@.len())
                    &&& (!old(self).spec_content().spec_read_maps(a) ==> final(self).spec_content(
                    ).spec_ext_mapped() == old(self).spec_content().spec_ext_mapped())
                }
                None => r is None && final(self).spec_content() == old(self).spec_content(),
            },
            final(self).spec_index_view() == old(self).spec_index_view(),
            forall|a2: ContentAddress| final(self).spec_at_addr(a2) == old(self).spec_at_addr(a2),
    {
        proof {
            self.index.lemma_geometry();
        }
        match self.index.find(hash, &self.content) {
            Some(address) => {
                proof {
                    assert(old(self).spec_get_addr(hash@) == Some(address));
                }
                match self.content.item_ref(&address, Some(hash)) {
                    Ok(d) => Some(d),
                    Err(()) => {
                        proof {
                            assert(false);
                        }
                        None
                    }
                }
            }
            None => None,
        }
    }

    /// Whether a key is present.
    pub fn contains_key(&self, hash: &Vec<u8>) -> (r: bool)
        requires
            self.wf(),
            hash@.len() == self.spec_key_len(),
        ensures
            r == (self.spec_get_addr(hash@) is Some),
    {
        proof {
            self.index.lemma_geometry();
        }
        match self.index.find(hash, &self.content) {
            Some(_) => true,
            None => false,
        }
    }

    /// The number of references a key currently holds; zero when absent.
    pub fn get_ref_count(&self, hash: &Vec<u8>) -> (r: RefCount)
        requires
            self.wf(),
            hash@.len() == self.spec_key_len(),
        ensures
            r as int == (match self.spec_get_addr(hash@) {
                Some(a) => self.spec_at_addr(a)->Some_0.ref_count,
                None => 0,
            }),
    {
        proof {
            self.index.lemma_geometry();
        }
        match self.index.find(hash, &self.content) {
            Some(address) => {
                match self.content.item_ref_count(&address, Some(hash)) {
                    Ok(n) => n,
                    Err(()) => {
                        proof {
                            assert(false);
                        }
                        0
                    }
                }
            }
            None => 0,
        }
    }

    /// Re-index to a new geometry: every entry is placed afresh; the
    /// content layer and every address in it stay as they are, so the set
    /// of stored (key, data, refcount) triples is untouched.
    pub fn reindex(&mut self, key_bytes: usize, index_bits: usize) -> (r: Result<(), Error>)
        requires
            old(self).wf(),
        ensures
            final(self).wf(),
            final(self).spec_key_len() == old(self).spec_key_len(),
            final(self).spec_oversize_trigger() == old(self).spec_oversize_trigger(),
            final(self).spec_oversize_shrink() == old(self).spec_oversize_shrink(),
            final(self).spec_content() == old(self).spec_content(),
            forall|a2: ContentAddress| final(self).spec_at_addr(a2) == old(self).spec_at_addr(a2),
            r is Ok ==> final(self).spec_index_key_bytes() == key_bytes && final(self).spec_index_bits() == index_bits,
            r == Err::<(), Error>(Error::BadMetadata) <==> !(1 <= key_bytes <= 8 && index_bits
                <= 8 * key_bytes && index_bits <= MAX_INDEX_BITS && key_bytes <= old(
                self,
            ).spec_key_len()),
            r is Err ==> r == Err::<(), Error>(Error::BadMetadata) || r == Err::<(), Error>(
                Error::IndexFull,
            ),
            r is Err ==> final(self).spec_index_view() == old(self).spec_index_view() && final(self).spec_index_key_bytes() == old(self).spec_index_key_bytes() && final(self).spec_index_bits() == old(self).spec_index_bits(),
            // The rebuild is exactly the specified fold: IndexFull if and
            // only if some re-placement walk fails, and on Ok the new
            // slots are the fold's.
            (1 <= key_bytes <= 8 && index_bits <= 8 * key_bytes && index_bits <= MAX_INDEX_BITS
                && key_bytes <= old(self).spec_key_len()) ==> ({
                &&& (r == Err::<(), Error>(Error::IndexFull) <==> old(self).spec_reindex_outcome(
                    key_bytes as int,
                    index_bits as int,
                ) is Err)
                &&& (r is Ok ==> final(self).spec_index_view() == old(self).spec_reindex_outcome(
                    key_bytes as int,
                    index_bits as int,
                )->Ok_0)
            }),
            // The rebuilt index holds only addresses the old one held, and
            // every address naming a live item is carried over.
            r is Ok ==> (forall|j: int|
                0 <= j < final(self).spec_index_view().len() && (#[trigger] final(self).spec_index_view()[j]).entry is Some ==> exists|i0: int|
                    0 <= i0 < old(self).spec_index_view().len() && (#[trigger] old(self).spec_index_view()[i0]).entry is Some && old(self).spec_index_view()[i0].entry->Some_0.address == final(self).spec_index_view()[j].entry->Some_0.address),
            r is Ok ==> (forall|i0: int|
                0 <= i0 < old(self).spec_index_view().len() && (#[trigger] old(self).spec_index_view()[i0]).entry is Some && old(self).spec_at_addr(old(self).spec_index_view()[i0].entry->Some_0.address) is Some ==> exists|j: int|
                    0 <= j < final(self).spec_index_view().len() && (#[trigger] final(self).spec_index_view()[j]).entry is Some && final(self).spec_index_view()[j].entry->Some_0.address == old(self).spec_index_view()[i0].entry->Some_0.address),
    {
        if !(1 <= key_bytes && key_bytes <= 8 && index_bits <= 8 * key_bytes && index_bits
            <= MAX_INDEX_BITS && key_bytes <= self.key_len) {
            return Err(Error::BadMetadata);
        }
        match Index::from_existing(&self.index, key_bytes, index_bits, &self.content) {
            Ok(ix) => {
                self.index = ix;
                Ok(())
            }
            Err(e) => Err(e),
        }
    }

    /// Insert a payload under a key: a present key gains a reference, an
    /// absent one is stored afresh. The index is grown and rebuilt when it
    /// is too full — growth called for by earlier edits' watermarks is
    /// performed here, before the walk — and the oversize map cache is
    /// shrunk when it passes its trigger. Growth retries until the insert
    /// lands; only once the geometry reaches the addressability cap
    /// (`MAX_INDEX_BITS`, or the key width) can `IndexFull` surface.
    pub fn insert(&mut self, data: &Vec<u8>, hash: &Vec<u8>) -> (r: Result<RefCount, Error>)
        requires
            old(self).wf(),
            hash@.len() == old(self).spec_key_len(),
            data@.len() <= 0xFFFF_FFF0_0000_0000,
        ensures
            final(self).wf(),
            final(self).spec_key_len() == old(self).spec_key_len(),
            match r {
                Ok(rc) => {
                    &&& rc >= 1
                    &&& final(self).spec_get_addr(hash@) is Some
                    &&& final(self).spec_at_addr(final(self).spec_get_addr(hash@)->Some_0)
                        is Some
                    &&& final(self).spec_at_addr(
                        final(self).spec_get_addr(hash@)->Some_0,
                    )->Some_0.key == hash@
                    &&& final(self).spec_at_addr(
                        final(self).spec_get_addr(hash@)->Some_0,
                    )->Some_0.ref_count == rc
                    &&& (rc == 1 ==> final(self).spec_at_addr(
                        final(self).spec_get_addr(hash@)->Some_0,
                    )->Some_0.data == data@)
                    &&& content_touched(old(self), final(self), hash@, data@, rc)
                }
                Err(e) => e == Error::Io || e == Error::IndexFull,
            },
            // With the watermarks quiet, no deferred growth runs: the walk
            // decides on this very state and its decision is applied
            // exactly.
            (old(self).spec_watermarks_quiet() && !(old(self).spec_edit_outcome(hash@)
                is Full)) ==> edit_applied(old(self), final(self), hash@, data@, r),
            // Failures only at the stated limits.
            r == Err::<RefCount, Error>(Error::Io) ==> ((exists|a: ContentAddress|
                content_key_matches(old(self).spec_content(), a, hash@) && (#[trigger] old(
                    self,
                ).spec_at_addr(a))->Some_0.ref_count >= 0x7FFF) || (exists|z: int|
                0 <= z < 64 && (#[trigger] old(self).spec_content().spec_tables_of(z))
                    >= 0x4000000int / entries_of(spec_class_of(z)))),
            (old(self).spec_watermarks_quiet() && r == Err::<RefCount, Error>(Error::IndexFull))
                ==> old(self).spec_edit_outcome(hash@) is Full,
            // IndexFull surfaces only with growth at its cap: the next
            // size is not representable, or its rebuild walk is full.
            r == Err::<RefCount, Error>(Error::IndexFull) ==> ({
                let nib = final(self).spec_index_bits() + 1;
                let nkb = if final(self).spec_index_key_bytes() >= (nib + 7) / 8 {
                    final(self).spec_index_key_bytes()
                } else {
                    (nib + 7) / 8
                };
                ||| !(1 <= nkb && nkb <= 8 && nib <= 8 * nkb && nib <= MAX_INDEX_BITS && nkb
                    <= final(self).spec_key_len())
                ||| final(self).spec_reindex_outcome(nkb, nib) is Err
            }),
            // Once the shrink fires, the mapped external bytes stay within
            // the larger of the trigger and the shrink target.
            r is Ok && old(self).spec_oversize_trigger() < u64::MAX
                ==> final(self).spec_content().spec_ext_mapped() <= (if old(
                self,
            ).spec_oversize_trigger() >= old(self).spec_oversize_shrink() {
                old(self).spec_oversize_trigger()
            } else {
                old(self).spec_oversize_shrink()
            }),
    {
        // Growth called for by earlier edits runs first, so the coming walk
        // works against the fresh geometry; with quiet watermarks nothing
        // here moves.
        let (sc_wm, kc_wm) = self.index.watermarks();
        if sc_wm > self.options.skipped_count_trigger || kc_wm
            >= self.options.key_correction_trigger {
            let _ = self.index.take_watermarks();
            let (nkb, nib) = self.index.next_size();
            let _ = self.reindex(nkb, nib);
        }
        let ghost mid = *self;
        let r = self.insert_inner(data, hash);
        let ghost after_edit = *self;
        // Shrink the oversize map cache when it passes its trigger.
        if r.is_ok() {
            let mapped = self.content.ext_mapped_total();
            if mapped > self.options.oversize_trigger_mapped as u64 {
                let ghost pre = *self;
                self.content.shrink_to(self.options.oversize_shrink_mapped);
                proof {
                    self.lemma_shrink_keeps_resolution(&pre, hash@);
                }
            } else {
                proof {
                    if self.spec_oversize_trigger() < u64::MAX {
                        assert(mapped < u64::MAX);
                        assert(self.spec_content().spec_ext_mapped() == mapped as int);
                    }
                }
            }
        }
        proof {
            if old(self).spec_watermarks_quiet() {
                assert(mid == *old(self));
            }
            assert(mid.spec_content() == old(self).spec_content());
            if r == Err::<RefCount, Error>(Error::Io) {
                assert forall|a: ContentAddress|
                    mid.spec_at_addr(a) == old(self).spec_at_addr(a) by {}
            }
            if r is Ok {
                let rc = r->Ok_0;
                assert(content_touched(&mid, &after_edit, hash@, data@, rc));
                lemma_content_touched_congruence(&mid, old(self), &after_edit, self, hash@,
                    data@, rc);
            }
            if old(self).spec_watermarks_quiet() && !(old(self).spec_edit_outcome(hash@)
                is Full) {
                assert(edit_applied(old(self), &after_edit, hash@, data@, r));
                lemma_edit_applied_frame(old(self), &after_edit, self, hash@, data@, r);
            }
        }
        r
    }

    /// The content layer, for specifications.
    pub closed spec fn spec_content(&self) -> Content {
        self.content
    }

    /// The bounds the database invariant carries, for callers that chain
    /// the commit and reopen contracts from outside: the persisted
    /// geometry is representable and the key length fits every layer.
    pub proof fn lemma_wf_bounds(&self)
        requires
            self.wf(),
        ensures
            1 <= self.spec_index_key_bytes() <= 8,
            0 <= self.spec_index_bits() <= 8 * self.spec_index_key_bytes(),
            self.spec_index_bits() <= MAX_INDEX_BITS,
            self.spec_index_key_bytes() <= self.spec_key_len(),
            1 <= self.spec_key_len() <= 64,
            self.spec_content().spec_key_len() == self.spec_key_len(),
            self.spec_item_count() == vstd::arithmetic::power2::pow2(
                self.spec_index_bits() as nat,
            ),
            self.spec_index_view().len() == self.spec_item_count(),
            self.spec_index_suffix_len() == self.spec_index_key_bytes()
                - self.spec_index_bits() / 8,
    {
        self.index.lemma_geometry();
    }

    /// The index slots, as models.
    pub closed spec fn spec_index_view(&self) -> Seq<ItemModel> {
        self.index@
    }

    /// The number of index slots.
    pub closed spec fn spec_item_count(&self) -> int {
        self.index.spec_item_count()
    }

    /// The index's suffix width.
    pub closed spec fn spec_index_suffix_len(&self) -> int {
        self.index.spec_suffix_len()
    }

    /// The highest skipped counter seen since the watermarks were last
    /// consumed.
    pub closed spec fn spec_skipped_watermark(&self) -> int {
        self.index.spec_skipped_watermark()
    }

    /// The highest key correction seen since the watermarks were last
    /// consumed.
    pub closed spec fn spec_correction_watermark(&self) -> int {
        self.index.spec_correction_watermark()
    }

    /// The configured skipped-counter growth trigger.
    pub closed spec fn spec_skipped_trigger(&self) -> int {
        self.options.skipped_count_trigger as int
    }

    /// The configured key-correction growth trigger.
    pub closed spec fn spec_correction_trigger(&self) -> int {
        self.options.key_correction_trigger as int
    }

    /// Whether the deferred watermark growth stays silent at the next
    /// insert.
    pub open spec fn spec_watermarks_quiet(&self) -> bool {
        &&& self.spec_skipped_watermark() <= self.spec_skipped_trigger()
        &&& self.spec_correction_watermark() < self.spec_correction_trigger()
    }

    /// The insert walk's decision on this state for a key.
    pub open spec fn spec_edit_outcome(&self, key: Seq<u8>) -> EditOutcome {
        spec_edit_from(
            self.spec_index_view(),
            self.spec_item_count(),
            spec_preferred(key, self.spec_index_bits()),
            key.subrange(self.spec_index_bits() / 8, self.spec_index_key_bytes()),
            key,
            self.spec_content(),
            0,
            (if self.spec_item_count() < 32768 {
                self.spec_item_count()
            } else {
                32768
            }) as nat,
        )
    }

    /// The key width the index currently stores.
    /// The rebuild a `reindex` to the given geometry would perform on this
    /// state, as the index layer specifies it: the fold of one insert walk
    /// per live entry.
    pub open spec fn spec_reindex_outcome(&self, key_bytes: int, index_bits: int) -> Result<
        Seq<ItemModel>,
        (),
    > {
        let n_new = vstd::arithmetic::power2::pow2(index_bits as nat) as int;
        crate::index::spec_rebuild_from(
            self.spec_index_view(),
            self.spec_item_count(),
            self.spec_index_bits(),
            self.spec_content(),
            n_new,
            index_bits,
            key_bytes,
            key_bytes <= self.spec_index_key_bytes(),
            0,
            Seq::new(n_new as nat, |q: int| (ItemModel { skipped_count: 0u8, entry: None })),
        )
    }

    pub closed spec fn spec_index_key_bytes(&self) -> int {
        self.index.spec_key_bytes()
    }

    /// The index's current bit width.
    pub closed spec fn spec_index_bits(&self) -> int {
        self.index.spec_index_bits()
    }

    /// The configured shrink trigger, in mapped external bytes.
    pub closed spec fn spec_oversize_trigger(&self) -> int {
        self.options.oversize_trigger_mapped as int
    }

    /// The configured shrink target, in mapped external bytes.
    pub closed spec fn spec_oversize_shrink(&self) -> int {
        self.options.oversize_shrink_mapped as int
    }

    /// Unmapping payloads changes no slot, so key resolution and the
    /// resolved contents stay as they were.
    proof fn lemma_shrink_keeps_resolution(&self, pre: &Database, key: Seq<u8>)
        requires
            pre.wf(),
            self.index == pre.index,
            self.key_len == pre.key_len,
            self.content.wf(),
            forall|a2: ContentAddress| self.content.spec_at(a2) == pre.content.spec_at(a2),
        ensures
            self.spec_get_addr(key) == pre.spec_get_addr(key),
            forall|a2: ContentAddress| self.spec_at_addr(a2) == pre.spec_at_addr(a2),
    {
        lemma_find_congruence(
            self.index@,
            self.index.spec_item_count(),
            spec_preferred(key, self.index.spec_index_bits()),
            key.subrange(self.index.spec_index_bits() / 8, self.index.spec_key_bytes()),
            key,
            self.content,
            pre.content,
            0,
            self.index.spec_item_count() as nat,
        );
    }

    /// One insert attempt, growing the index by a bit and rebuilding when
    /// the walk reports it full; no cache shrinking.
    fn insert_inner(&mut self, data: &Vec<u8>, hash: &Vec<u8>) -> (r: Result<RefCount, Error>)
        requires
            old(self).wf(),
            hash@.len() == old(self).spec_key_len(),
            data@.len() <= 0xFFFF_FFF0_0000_0000,
        ensures
            final(self).wf(),
            final(self).spec_key_len() == old(self).spec_key_len(),
            final(self).spec_oversize_trigger() == old(self).spec_oversize_trigger(),
            final(self).spec_oversize_shrink() == old(self).spec_oversize_shrink(),
            match r {
                Ok(rc) => {
                    &&& rc >= 1
                    &&& final(self).spec_get_addr(hash@) is Some
                    &&& final(self).spec_at_addr(final(self).spec_get_addr(hash@)->Some_0)
                        is Some
                    &&& final(self).spec_at_addr(
                        final(self).spec_get_addr(hash@)->Some_0,
                    )->Some_0.key == hash@
                    &&& final(self).spec_at_addr(
                        final(self).spec_get_addr(hash@)->Some_0,
                    )->Some_0.ref_count == rc
                    &&& (rc == 1 ==> final(self).spec_at_addr(
                        final(self).spec_get_addr(hash@)->Some_0,
                    )->Some_0.data == data@)
                    &&& content_touched(old(self), final(self), hash@, data@, rc)
                }
                Err(e) => e == Error::Io || e == Error::IndexFull,
            },
            !(old(self).spec_edit_outcome(hash@) is Full) ==> edit_applied(old(self), final(self),
                hash@, data@, r),
            r == Err::<RefCount, Error>(Error::Io) ==> ((exists|a: ContentAddress|
                content_key_matches(old(self).spec_content(), a, hash@) && (#[trigger] old(
                    self,
                ).spec_at_addr(a))->Some_0.ref_count >= 0x7FFF) || (exists|z: int|
                0 <= z < 64 && (#[trigger] old(self).spec_content().spec_tables_of(z))
                    >= 0x4000000int / entries_of(spec_class_of(z)))),
            r == Err::<RefCount, Error>(Error::IndexFull) ==> old(self).spec_edit_outcome(hash@)
                is Full,
            // IndexFull surfaces only with growth at its cap: the next
            // size is not representable, or its rebuild walk is full.
            r == Err::<RefCount, Error>(Error::IndexFull) ==> ({
                let nib = final(self).spec_index_bits() + 1;
                let nkb = if final(self).spec_index_key_bytes() >= (nib + 7) / 8 {
                    final(self).spec_index_key_bytes()
                } else {
                    (nib + 7) / 8
                };
                ||| !(1 <= nkb && nkb <= 8 && nib <= 8 * nkb && nib <= MAX_INDEX_BITS && nkb
                    <= final(self).spec_key_len())
                ||| final(self).spec_reindex_outcome(nkb, nib) is Err
            }),
    {
        let ghost mut grown: bool = false;
        loop
            invariant
                self.wf(),
                self.spec_key_len() == old(self).spec_key_len(),
                self.spec_oversize_trigger() == old(self).spec_oversize_trigger(),
                self.spec_oversize_shrink() == old(self).spec_oversize_shrink(),
                hash@.len() == self.spec_key_len(),
                data@.len() <= 0xFFFF_FFF0_0000_0000,
                !grown ==> *self == *old(self),
                grown ==> old(self).spec_edit_outcome(hash@) is Full,
                forall|a: ContentAddress| self.spec_at_addr(a) == old(self).spec_at_addr(a),
                self.spec_content() == old(self).spec_content(),
            ensures
                self.wf(),
                self.spec_key_len() == old(self).spec_key_len(),
                self.spec_oversize_trigger() == old(self).spec_oversize_trigger(),
                self.spec_oversize_shrink() == old(self).spec_oversize_shrink(),
            decreases (MAX_INDEX_BITS + 1) as int - self.index.spec_index_bits(),
        {
            proof {
                self.index.lemma_geometry();
            }
            let ghost pre = *self;
            let ghost n = self.index.spec_item_count();
            let ghost prf = spec_preferred(hash@, self.index.spec_index_bits());
            let ghost sfx = hash@.subrange(
                self.index.spec_index_bits() / 8,
                self.index.spec_key_bytes(),
            );
            let ghost fuel: nat = if n < 32768 {
                n as nat
            } else {
                32768nat
            };
            match self.index.edit_in(hash, data, &mut self.content) {
                Ok(rc) => {
                    proof {
                        lemma_edit_walk_sound(pre.index@, n, prf, sfx, hash@, pre.content, 0,
                            fuel);
                        let o = spec_edit_from(pre.index@, n, prf, sfx, hash@, pre.content, 0,
                            fuel);
                        if o is Insert {
                            let slot = o->Insert_0;
                            let c = o->Insert_1;
                            let a = choose|a: ContentAddress|
                                {
                                    &&& a.valid()
                                    &&& pre.content.spec_at(a) is None
                                    &&& self.content.spec_at(a) == Some(
                                        (SlotModel { key: hash@, data: data@, ref_count: 1 }),
                                    )
                                    &&& (forall|a2: ContentAddress|
                                        !same_slot(a2, a) ==> (
                                        #[trigger] self.content.spec_at(a2))
                                            == pre.content.spec_at(a2))
                                    &&& (#[trigger] self.index@[slot]).entry == Some(
                                        (crate::index_item::EntryModel {
                                            key_correction: c,
                                            key_suffix: sfx,
                                            address: a,
                                        }),
                                    )
                                    &&& (forall|i: int|
                                        0 <= i < self.index@.len() && i != slot
                                            ==> (#[trigger] self.index@[i]).entry
                                            == pre.index@[i].entry)
                                    &&& (forall|j: int|
                                        0 <= j < c ==> (#[trigger] self.index@[(prf + j)
                                            % n]).skipped_count >= 1)
                                };
                            assert(rc == 1);
                            assert(a.valid());
                            assert forall|a2: ContentAddress|
                                !same_slot(a2, a) implies (#[trigger] self.spec_at_addr(a2))
                                == pre.spec_at_addr(a2) by {
                                assert(self.content.spec_at(a2) == pre.content.spec_at(a2));
                            }
                            assert(self.spec_at_addr(a) == Some(
                                (SlotModel { key: hash@, data: data@, ref_count: 1 }),
                            ));
                            assert(pre.spec_at_addr(a) is None);
                            assert(content_touched(&pre, self, hash@, data@, rc));
                        } else {
                            let a = o->Bump_0;
                            assert(pre.spec_at_addr(a) is Some);
                            assert(pre.spec_at_addr(a)->Some_0.key == hash@);
                            assert(pre.spec_at_addr(a)->Some_0.ref_count < 0x7FFF);
                            assert(rc as int == pre.spec_at_addr(a)->Some_0.ref_count + 1);
                            assert(self.spec_at_addr(a) == Some(
                                (SlotModel {
                                    ref_count: (pre.spec_at_addr(a)->Some_0.ref_count + 1) as nat,
                                    ..pre.spec_at_addr(a)->Some_0
                                }),
                            ));
                            assert forall|a2: ContentAddress|
                                !same_slot(a2, a) implies (#[trigger] self.spec_at_addr(a2))
                                == pre.spec_at_addr(a2) by {
                                assert(self.content.spec_at(a2) == pre.content.spec_at(a2));
                            }
                            assert(content_touched(&pre, self, hash@, data@, rc));
                        }
                        lemma_content_touched_congruence(&pre, old(self), self, self, hash@,
                            data@, rc);
                        if !grown {
                            assert(edit_applied(old(self), self, hash@, data@,
                                Ok::<RefCount, Error>(rc)));
                        }
                        self.lemma_insert_resolves(&pre, hash@, data@, rc);
                    }
                    return Ok(rc);
                }
                Err(Error::IndexFull) => {
                    proof {
                        if !grown {
                            assert(old(self).spec_edit_outcome(hash@) is Full);
                        }
                        grown = true;
                    }
                    let (nkb, nib) = self.index.next_size();
                    if !(1 <= nkb && nkb <= 8 && nib <= 8 * nkb && nib <= MAX_INDEX_BITS && nkb
                        <= self.key_len) {
                        return Err(Error::IndexFull);
                    }
                    match Index::from_existing(&self.index, nkb, nib, &self.content) {
                        Ok(ix) => {
                            self.index = ix;
                        }
                        Err(_) => {
                            proof {
                                assert(self.spec_reindex_outcome(nkb as int, nib as int)
                                    is Err);
                            }
                            return Err(Error::IndexFull);
                        }
                    }
                }
                Err(e) => {
                    proof {
                        // A ceiling or table-limit failure; the walk tells
                        // which.
                        lemma_edit_walk_sound(pre.index@, n, prf, sfx, hash@, pre.content, 0,
                            fuel);
                        let o = spec_edit_from(pre.index@, n, prf, sfx, hash@, pre.content, 0,
                            fuel);
                        assert(e == Error::Io);
                        if o is Bump {
                            let a = o->Bump_0;
                            assert(pre.spec_at_addr(a) == old(self).spec_at_addr(a));
                            assert(content_key_matches(old(self).spec_content(), a, hash@));
                            assert(old(self).spec_at_addr(a)->Some_0.ref_count >= 0x7FFF);
                        } else {
                            assert(o is Insert);
                            assert forall|z: int|
                                0 <= z < 64 implies #[trigger] old(
                            self,
                            ).spec_content().spec_tables_of(z) == pre.content.spec_tables_of(
                                z,
                            ) by {}
                        }
                        if !grown {
                            assert(edit_applied(old(self), self, hash@, data@, Err::<
                                RefCount,
                                Error,
                            >(e)));
                        }
                    }
                    return Err(e);
                }
            }
        }
    }

    /// Transfers `edit_in`'s outcome contract to the lookup walk: after a
    /// successful insert or bump, the key resolves to the touched address.
    proof fn lemma_insert_resolves(&self, pre: &Database, key: Seq<u8>, data: Seq<u8>, rc: u16)
        requires
            pre.wf(),
            self.wf(),
            key.len() == pre.spec_key_len(),
            self.key_len == pre.key_len,
            self.index.spec_key_bytes() == pre.index.spec_key_bytes(),
            self.index.spec_index_bits() == pre.index.spec_index_bits(),
            self.index.spec_item_count() == pre.index.spec_item_count(),
            self.index@.len() == pre.index@.len(),
            forall|i: int|
                0 <= i < self.index@.len() ==> (#[trigger] self.index@[i]).skipped_count
                    >= pre.index@[i].skipped_count,
            ({
                let n = pre.index.spec_item_count();
                let prf = spec_preferred(key, pre.index.spec_index_bits());
                let sfx = key.subrange(
                    pre.index.spec_index_bits() / 8,
                    pre.index.spec_key_bytes(),
                );
                let fuel = if n < 32768 {
                    n
                } else {
                    32768
                };
                match spec_edit_from(pre.index@, n, prf, sfx, key, pre.content, 0, fuel as nat) {
                    EditOutcome::Bump(a, c) => {
                        &&& pre.content.spec_at(a)->Some_0.ref_count < 0x7FFF
                        &&& self.content.spec_at(a) == Some(
                            (SlotModel {
                                ref_count: (pre.content.spec_at(a)->Some_0.ref_count + 1) as nat,
                                ..pre.content.spec_at(a)->Some_0
                            }),
                        )
                        &&& (forall|a2: ContentAddress|
                            !same_slot(a2, a) ==> (#[trigger] self.content.spec_at(a2))
                                == pre.content.spec_at(a2))
                        &&& rc as int == pre.content.spec_at(a)->Some_0.ref_count + 1
                        &&& (forall|i: int|
                            0 <= i < self.index@.len() ==> (#[trigger] self.index@[i]).entry
                                == pre.index@[i].entry)
                        &&& (forall|j: int|
                            0 <= j < c ==> (#[trigger] self.index@[(prf + j) % n]).skipped_count
                                >= 1)
                    }
                    EditOutcome::Insert(slot, c) => {
                        exists|a: ContentAddress|
                            {
                                &&& rc == 1
                                &&& a.valid()
                                &&& pre.content.spec_at(a) is None
                                &&& self.content.spec_at(a) == Some(
                                    (SlotModel { key: key, data: data, ref_count: 1 }),
                                )
                                &&& (forall|a2: ContentAddress|
                                    !same_slot(a2, a) ==> (#[trigger] self.content.spec_at(a2))
                                        == pre.content.spec_at(a2))
                                &&& (#[trigger] self.index@[slot]).entry == Some(
                                    (crate::index_item::EntryModel {
                                        key_correction: c,
                                        key_suffix: key.subrange(
                                            pre.index.spec_index_bits() / 8,
                                            pre.index.spec_key_bytes(),
                                        ),
                                        address: a,
                                    }),
                                )
                                &&& (forall|i: int|
                                    0 <= i < self.index@.len() && i != slot
                                        ==> (#[trigger] self.index@[i]).entry
                                        == pre.index@[i].entry)
                                &&& (forall|j: int|
                                    0 <= j < c ==> (#[trigger] self.index@[(prf + j)
                                        % n]).skipped_count >= 1)
                            }
                    }
                    EditOutcome::Full => false,
                }
            }),
        ensures
            self.spec_get_addr(key) is Some,
            self.spec_at_addr(self.spec_get_addr(key)->Some_0) is Some,
            self.spec_at_addr(self.spec_get_addr(key)->Some_0)->Some_0.key == key,
            self.spec_at_addr(self.spec_get_addr(key)->Some_0)->Some_0.ref_count == rc,
            rc >= 1,
            rc == 1 ==> self.spec_at_addr(self.spec_get_addr(key)->Some_0)->Some_0.data == data,
    {
        let n = pre.index.spec_item_count();
        let prf = spec_preferred(key, pre.index.spec_index_bits());
        let sfx = key.subrange(pre.index.spec_index_bits() / 8, pre.index.spec_key_bytes());
        let fuel = if n < 32768 {
            n
        } else {
            32768
        };
        pre.index.lemma_geometry();
        self.index.lemma_geometry();
        lemma_edit_walk_sound(pre.index@, n, prf, sfx, key, pre.content, 0, fuel as nat);
        match spec_edit_from(pre.index@, n, prf, sfx, key, pre.content, 0, fuel as nat) {
            EditOutcome::Bump(a, c) => {
                let target = (prf + c) % n;
                assert(crate::index::slot_matches(self.index@[target], c, sfx));
                assert(content_key_matches(self.content, a, key)) by {
                    assert(pre.content.spec_at(a)->Some_0.key == key);
                };
                pre.content.lemma_at_wf(a);
                assert(rc as int == pre.content.spec_at(a)->Some_0.ref_count + 1);
                assert forall|j: int|
                    0 <= j < c implies ((crate::index::slot_matches(
                    #[trigger] self.index@[(prf + j) % n],
                    j,
                    sfx,
                ) && content_key_matches(self.content,
                    self.index@[(prf + j) % n].entry->Some_0.address, key))
                    ==> self.content.spec_at(self.index@[(prf + j) % n].entry->Some_0.address)
                    == self.content.spec_at(a)) by {
                    assert(self.index@[(prf + j) % n].entry == pre.index@[(prf + j) % n].entry);
                    let aj = self.index@[(prf + j) % n].entry->Some_0.address;
                    if crate::index::slot_matches(self.index@[(prf + j) % n], j, sfx)
                        && content_key_matches(self.content, aj, key) {
                        if same_slot(aj, a) {
                            self.content.lemma_same_slot_at(aj, a);
                        } else {
                            assert(self.content.spec_at(aj) == pre.content.spec_at(aj));
                            assert(content_key_matches(pre.content, aj, key));
                            assert(false);
                        }
                    }
                }
                lemma_edit_then_find(self.index@, n, prf, sfx, key, self.content, target, c, a,
                    0);
            }
            EditOutcome::Insert(slot, c) => {
                let a = choose|a: ContentAddress|
                    {
                        &&& rc == 1
                        &&& a.valid()
                        &&& pre.content.spec_at(a) is None
                        &&& self.content.spec_at(a) == Some(
                            (SlotModel { key: key, data: data, ref_count: 1 }),
                        )
                        &&& (forall|a2: ContentAddress|
                            !same_slot(a2, a) ==> (#[trigger] self.content.spec_at(a2))
                                == pre.content.spec_at(a2))
                        &&& (#[trigger] self.index@[slot]).entry == Some(
                            (crate::index_item::EntryModel {
                                key_correction: c,
                                key_suffix: sfx,
                                address: a,
                            }),
                        )
                        &&& (forall|i: int|
                            0 <= i < self.index@.len() && i != slot
                                ==> (#[trigger] self.index@[i]).entry == pre.index@[i].entry)
                        &&& (forall|j: int|
                            0 <= j < c ==> (#[trigger] self.index@[(prf + j)
                                % n]).skipped_count >= 1)
                    };
                let target = (prf + c) % n;
                assert(target == slot);
                assert(crate::index::slot_matches(self.index@[target], c, sfx));
                assert(content_key_matches(self.content, a, key));
                assert forall|j: int|
                    0 <= j < c implies ((crate::index::slot_matches(
                    #[trigger] self.index@[(prf + j) % n],
                    j,
                    sfx,
                ) && content_key_matches(self.content,
                    self.index@[(prf + j) % n].entry->Some_0.address, key))
                    ==> self.content.spec_at(self.index@[(prf + j) % n].entry->Some_0.address)
                    == self.content.spec_at(a)) by {
                    crate::index::lemma_probe_distinct(n, prf, j, c);
                    assert(self.index@[(prf + j) % n].entry == pre.index@[(prf + j) % n].entry);
                    let aj = self.index@[(prf + j) % n].entry->Some_0.address;
                    if crate::index::slot_matches(self.index@[(prf + j) % n], j, sfx)
                        && content_key_matches(self.content, aj, key) {
                        if same_slot(aj, a) {
                            self.content.lemma_same_slot_at(aj, a);
                        } else {
                            assert(self.content.spec_at(aj) == pre.content.spec_at(aj));
                            assert(content_key_matches(pre.content, aj, key));
                            assert(false);
                        }
                    }
                }
                lemma_edit_then_find(self.index@, n, prf, sfx, key, self.content, target, c, a,
                    0);
                self.content.lemma_same_slot_at(a, a);
            }
            EditOutcome::Full => {}
        }
    }

    /// Remove one reference to a key; the last removal erases it. Err when
    /// the key is absent.
    pub fn remove(&mut self, hash: &Vec<u8>) -> (r: Result<RefCount, ()>)
        requires
            old(self).wf(),
            hash@.len() == old(self).spec_key_len(),
        ensures
            final(self).wf(),
            final(self).spec_key_len() == old(self).spec_key_len(),
            match old(self).spec_get_addr(hash@) {
                Some(a) => {
                    &&& r == Ok::<RefCount, ()>(
                        ((old(self).spec_at_addr(a)->Some_0.ref_count - 1) as u16),
                    )
                    &&& (old(self).spec_at_addr(a)->Some_0.ref_count > 1 ==> final(self).spec_at_addr(a) == Some(
                        (SlotModel {
                            ref_count: (old(self).spec_at_addr(a)->Some_0.ref_count - 1) as nat,
                            ..old(self).spec_at_addr(a)->Some_0
                        }),
                    ))
                    &&& (old(self).spec_at_addr(a)->Some_0.ref_count == 1 ==> final(self).spec_at_addr(a) is None)
                    &&& (old(self).spec_at_addr(a)->Some_0.ref_count > 1 ==> final(self).spec_index_view() == old(self).spec_index_view())
                    &&& forall|a2: ContentAddress|
                        !same_slot(a2, a) ==> final(self).spec_at_addr(a2) == old(
                            self,
                        ).spec_at_addr(a2)
                }
                None => {
                    &&& r == Err::<RefCount, ()>(())
                    &&& final(self).spec_index_view() == old(self).spec_index_view()
                    &&& forall|a2: ContentAddress|
                        final(self).spec_at_addr(a2) == old(self).spec_at_addr(a2)
                }
            },
            // Removing the last reference erases the key: it no longer
            // resolves, as long as its slot carried no displacement trail
            // for later entries. (With such a trail, a stale duplicate
            // beyond the erased slot can still resolve.)
            ({
                let n = old(self).spec_item_count();
                let pref = spec_preferred(hash@, old(self).spec_index_bits());
                let sfx = hash@.subrange(
                    old(self).spec_index_bits() / 8,
                    old(self).spec_index_key_bytes(),
                );
                match spec_remove_from(old(self).spec_index_view(), n, pref, sfx, hash@, old(
                    self,
                ).spec_content(), 0, n as nat) {
                    Some((a, c)) => (old(self).spec_at_addr(a)->Some_0.ref_count == 1 && old(
                        self,
                    ).spec_index_view()[(pref + c) % n].skipped_count == 0) ==> final(self).spec_get_addr(hash@) is None,
                    None => true,
                }
            }),
    {
        let ghost n = self.index.spec_item_count();
        let ghost pref = spec_preferred(hash@, self.index.spec_index_bits());
        let ghost sfx = hash@.subrange(
            self.index.spec_index_bits() / 8,
            self.index.spec_key_bytes(),
        );
        let ghost v0 = self.index@;
        let ghost con0 = self.content;
        proof {
            self.index.lemma_geometry();
            lemma_remove_walk_agrees(v0, n, pref, sfx, hash@, con0, 0, n as nat);
            lemma_remove_walk_sound(v0, n, pref, sfx, hash@, con0, 0, n as nat);
        }
        let r = self.index.edit_out(hash, &mut self.content);
        proof {
            if let Some((a, c)) = spec_remove_from(v0, n, pref, sfx, hash@, con0, 0, n as nat) {
                if con0.spec_at(a)->Some_0.ref_count == 1 && v0[(pref + c) % n].skipped_count
                    == 0 {
                    let slot = (pref + c) % n;
                    vstd::arithmetic::div_mod::lemma_mod_division_less_than_divisor(pref + c, n);
                    assert(self.index@[slot].entry is None);
                    assert(self.index@[slot].skipped_count == 0) by {
                        if walked(pref, c, n, slot) {
                            let jj = choose|jj: int|
                                0 <= jj < c && #[trigger] ((pref + jj) % n) == slot;
                            crate::index::lemma_probe_distinct(n, pref, jj, c);
                        }
                    };
                    assert forall|jj: int|
                        0 <= jj < c implies !(crate::index::slot_matches(
                        #[trigger] self.index@[(pref + jj) % n],
                        jj,
                        sfx,
                    ) && content_key_matches(self.content,
                        self.index@[(pref + jj) % n].entry->Some_0.address, hash@)) by {
                        crate::index::lemma_probe_distinct(n, pref, jj, c);
                        assert(self.index@[(pref + jj) % n].entry == v0[(pref + jj) % n].entry);
                        let aj = self.index@[(pref + jj) % n].entry->Some_0.address;
                        if crate::index::slot_matches(self.index@[(pref + jj) % n], jj, sfx)
                            && content_key_matches(self.content, aj, hash@) {
                            if same_slot(aj, a) {
                                self.content.lemma_same_slot_at(aj, a);
                                assert(self.content.spec_at(a) is None);
                                assert(false);
                            } else {
                                assert(self.content.spec_at(aj) == con0.spec_at(aj));
                                assert(content_key_matches(con0, aj, hash@));
                                assert(false);
                            }
                        }
                    }
                    lemma_erase_then_absent(self.index@, n, pref, sfx, hash@, self.content, c,
                        0);
                }
            }
        }
        r
    }

    /// Store a payload under the hash of its own bytes: the key is the
    /// BLAKE2b digest, as wide as this database's keys. Succeeds and fails
    /// exactly as `insert` of that digest does.
    pub fn store(&mut self, data: &Vec<u8>) -> (r: Result<(RefCount, Vec<u8>), Error>)
        requires
            old(self).wf(),
            data@.len() <= 0xFFFF_FFF0_0000_0000,
        ensures
            final(self).wf(),
            final(self).spec_key_len() == old(self).spec_key_len(),
            match r {
                Ok((rc, h)) => {
                    &&& h@ == crate::hashing::blake2b_of(old(self).spec_key_len(), data@)
                    &&& rc >= 1
                    &&& final(self).spec_get_addr(h@) is Some
                    &&& final(self).spec_at_addr(
                        final(self).spec_get_addr(h@)->Some_0,
                    )->Some_0.key == h@
                    &&& final(self).spec_at_addr(
                        final(self).spec_get_addr(h@)->Some_0,
                    )->Some_0.ref_count == rc
                    &&& (rc == 1 ==> final(self).spec_at_addr(
                        final(self).spec_get_addr(h@)->Some_0,
                    )->Some_0.data == data@)
                    &&& content_touched(old(self), final(self), h@, data@, rc)
                }
                Err(e) => e == Error::Io || e == Error::IndexFull,
            },
            ({
                let digest = crate::hashing::blake2b_of(old(self).spec_key_len(), data@);
                let r1 = (match r {
                    Ok((rc, h)) => Ok::<RefCount, Error>(rc),
                    Err(e) => Err::<RefCount, Error>(e),
                });
                &&& ((old(self).spec_watermarks_quiet() && !(old(self).spec_edit_outcome(digest)
                    is Full)) ==> edit_applied(old(self), final(self), digest, data@, r1))
                &&& (r1 == Err::<RefCount, Error>(Error::Io) ==> ((exists|a: ContentAddress|
                    content_key_matches(old(self).spec_content(), a, digest) && (#[trigger] old(
                        self,
                    ).spec_at_addr(a))->Some_0.ref_count >= 0x7FFF) || (exists|z: int|
                    0 <= z < 64 && (#[trigger] old(self).spec_content().spec_tables_of(z))
                        >= 0x4000000int / entries_of(spec_class_of(z)))))
                &&& ((old(self).spec_watermarks_quiet() && r1 == Err::<RefCount, Error>(
                    Error::IndexFull,
                )) ==> old(self).spec_edit_outcome(digest) is Full)
            }),
    {
        let hash = crate::hashing::blake2b_hash(self.key_len, data);
        match self.insert(data, &hash) {
            Ok(rc) => Ok((rc, hash)),
            Err(e) => Err(e),
        }
    }
}

/// A database reopened from the exact file set its commit produced is the
/// same store: it holds the same item at every address and resolves every
/// key to the same address. The hypotheses are what `commit` says of the
/// file set it returns and what `open` says of a database opened from it.
#[verifier::rlimit(100)]
pub proof fn lemma_commit_reopen_preserves(db1: &Database, fs: FileSet, db2: &Database)
    requires
        db1.wf(),
        db2.wf(),
        db2.spec_key_len() == db1.spec_key_len(),
        db2.spec_index_key_bytes() == db1.spec_index_key_bytes(),
        db2.spec_index_bits() == db1.spec_index_bits(),
        fs.index is Some,
        fs.index->Some_0@.len() == db1.spec_item_count() * (7 + db1.spec_index_suffix_len()),
        forall|i: int|
            0 <= i < db1.spec_item_count() ==> fs.index->Some_0@.subrange(
                i * (7 + db1.spec_index_suffix_len()),
                (i + 1) * (7 + db1.spec_index_suffix_len()),
            ) == crate::index_item::item_bytes(
                #[trigger] db1.spec_index_view()[i],
                db1.spec_index_suffix_len(),
            ),
        fs.tables@.len() == 64,
        forall|z: int|
            0 <= z < 64 ==> (#[trigger] fs.tables@[z])@.len() == db1.spec_content(
            ).spec_tables_of(z),
        forall|z: int, t: int|
            0 <= z < 64 && 0 <= t < db1.spec_content().spec_tables_of(z)
                ==> crate::table::table_files_describe(
                db1.spec_content().tables_at(z, t),
                #[trigger] fs.tables@[z]@[t],
            ),
        forall|z: int|
            0 <= z < 64 ==> #[trigger] db2.spec_content().spec_tables_of(z) == fs.tables@[
                z]@.len(),
        forall|z: int, t: int|
            0 <= z < 64 && 0 <= t < db2.spec_content().spec_tables_of(z)
                ==> crate::table::table_opened_from(
                fs.tables@[z]@[t].main@,
                fs.tables@[z]@[t].externals@,
                #[trigger] db2.spec_content().tables_at(z, t),
            ),
        forall|i: int|
            0 <= i < db2.spec_index_view().len() && (i + 1) * (7 + db2.spec_index_suffix_len())
                <= fs.index->Some_0@.len() ==> (#[trigger] db2.spec_index_view()[i])
                == crate::index_item::parse_item(
                fs.index->Some_0@.subrange(
                    i * (7 + db2.spec_index_suffix_len()),
                    (i + 1) * (7 + db2.spec_index_suffix_len()),
                ),
                db2.spec_index_suffix_len(),
            ),
    ensures
        db2.spec_index_view() == db1.spec_index_view(),
        forall|a: ContentAddress| db2.spec_at_addr(a) == db1.spec_at_addr(a),
        forall|key: Seq<u8>| db2.spec_get_addr(key) == db1.spec_get_addr(key),
{
    db1.index.lemma_geometry();
    db2.index.lemma_geometry();
    let bytes = fs.index->Some_0@;
    let stride = 7 + db1.index.spec_suffix_len();
    assert(db1.spec_index_view() == db1.index@);
    assert(db2.spec_index_view() == db2.index@);
    assert(db1.index.spec_suffix_len() == db1.spec_index_suffix_len());
    assert(db2.index.spec_suffix_len() == db2.spec_index_suffix_len());
    assert(db1.index@.len() == db1.spec_item_count());
    assert forall|i: int| 0 <= i < db1.index@.len() implies bytes.subrange(
        i * stride,
        (i + 1) * stride,
    ) == crate::index_item::item_bytes(#[trigger] db1.index@[i], db1.index.spec_suffix_len()) by {
        assert(bytes.subrange(i * stride, (i + 1) * stride) == crate::index_item::item_bytes(
            db1.spec_index_view()[i],
            db1.spec_index_suffix_len(),
        ));
    }
    assert forall|i: int|
        0 <= i < db2.index@.len() && (i + 1) * (7 + db2.index.spec_suffix_len())
            <= bytes.len() implies (#[trigger] db2.index@[i]) == crate::index_item::parse_item(
        bytes.subrange(
            i * (7 + db2.index.spec_suffix_len()),
            (i + 1) * (7 + db2.index.spec_suffix_len()),
        ),
        db2.index.spec_suffix_len(),
    ) by {
        assert(db2.spec_index_view()[i] == crate::index_item::parse_item(
            bytes.subrange(
                i * (7 + db2.spec_index_suffix_len()),
                (i + 1) * (7 + db2.spec_index_suffix_len()),
            ),
            db2.spec_index_suffix_len(),
        ));
    }
    crate::index::lemma_index_round_trip(db1.index, bytes, db2.index);
    assert forall|z: int| 0 <= z < 64 implies (#[trigger] db1.content.spec_tables_of(z))
        == fs.tables@[z]@.len() by {
        assert(db1.spec_content().spec_tables_of(z) == fs.tables@[z]@.len());
    }
    assert forall|z: int| 0 <= z < 64 implies (#[trigger] db2.content.spec_tables_of(z))
        == fs.tables@[z]@.len() by {
        assert(db2.spec_content().spec_tables_of(z) == fs.tables@[z]@.len());
    }
    assert forall|z: int, t: int|
        0 <= z < 64 && 0 <= t < db1.content.spec_tables_of(z)
            implies crate::table::table_files_describe(
        db1.content.tables_at(z, t),
        #[trigger] fs.tables@[z]@[t],
    ) by {
        assert(crate::table::table_files_describe(
            db1.spec_content().tables_at(z, t),
            fs.tables@[z]@[t],
        ));
    }
    assert forall|z: int, t: int|
        0 <= z < 64 && 0 <= t < db2.content.spec_tables_of(z)
            implies crate::table::table_opened_from(
        fs.tables@[z]@[t].main@,
        fs.tables@[z]@[t].externals@,
        #[trigger] db2.content.tables_at(z, t),
    ) by {
        assert(crate::table::table_opened_from(
            fs.tables@[z]@[t].main@,
            fs.tables@[z]@[t].externals@,
            db2.spec_content().tables_at(z, t),
        ));
    }
    crate::content::lemma_content_round_trip(db1.content, fs.tables@, db2.content);
    assert forall|key: Seq<u8>| db2.spec_get_addr(key) == db1.spec_get_addr(key) by {
        lemma_find_congruence(
            db1.index@,
            db1.index.spec_item_count(),
            spec_preferred(key, db1.index.spec_index_bits()),
            key.subrange(db1.index.spec_index_bits() / 8, db1.index.spec_key_bytes()),
            key,
            db1.content,
            db2.content,
            0,
            db1.index.spec_item_count() as nat,
        );
    }
}

/// One reference was added for `key`: either an existing slot holding the
/// key gained a reference (and `rc` is its new count), or a fresh slot now
/// holds `(key, data)` with one reference; every other slot is unchanged.
pub open spec fn content_touched(
    pre: &Database,
    post: &Database,
    key: Seq<u8>,
    data: Seq<u8>,
    rc: u16,
) -> bool {
    exists|a: ContentAddress|
        {
            &&& (#[trigger] post.spec_at_addr(a)) is Some
            &&& (forall|a2: ContentAddress|
                !same_slot(a2, a) ==> (#[trigger] post.spec_at_addr(a2)) == pre.spec_at_addr(a2))
            &&& ({
                ||| {
                    &&& pre.spec_at_addr(a) is Some
                    &&& pre.spec_at_addr(a)->Some_0.key == key
                    &&& rc as int == pre.spec_at_addr(a)->Some_0.ref_count + 1
                    &&& post.spec_at_addr(a) == Some(
                        (SlotModel {
                            ref_count: (pre.spec_at_addr(a)->Some_0.ref_count + 1) as nat,
                            ..pre.spec_at_addr(a)->Some_0
                        }),
                    )
                }
                ||| {
                    &&& pre.spec_at_addr(a) is None
                    &&& rc == 1
                    &&& post.spec_at_addr(a) == Some(
                        (SlotModel { key: key, data: data, ref_count: 1 }),
                    )
                }
            })
        }
}

/// What applying the insert walk's decision did, stated between the state
/// the walk ran on and the state it left: the result, the touched content
/// slot, and the index frame per outcome.
pub open spec fn edit_applied(
    pre: &Database,
    post: &Database,
    key: Seq<u8>,
    data: Seq<u8>,
    r: Result<RefCount, Error>,
) -> bool {
    let n = pre.spec_item_count();
    let prf = spec_preferred(key, pre.spec_index_bits());
    let sfx = key.subrange(pre.spec_index_bits() / 8, pre.spec_index_key_bytes());
    match pre.spec_edit_outcome(key) {
        EditOutcome::Bump(a, c) => {
            &&& (pre.spec_at_addr(a)->Some_0.ref_count < 0x7FFF ==> {
                &&& r == Ok::<RefCount, Error>(
                    ((pre.spec_at_addr(a)->Some_0.ref_count + 1) as u16),
                )
                &&& post.spec_at_addr(a) == Some(
                    (SlotModel {
                        ref_count: (pre.spec_at_addr(a)->Some_0.ref_count + 1) as nat,
                        ..pre.spec_at_addr(a)->Some_0
                    }),
                )
                &&& (forall|a2: ContentAddress|
                    !same_slot(a2, a) ==> (#[trigger] post.spec_at_addr(a2)) == pre.spec_at_addr(
                        a2,
                    ))
            })
            &&& (pre.spec_at_addr(a)->Some_0.ref_count >= 0x7FFF ==> {
                &&& r == Err::<RefCount, Error>(Error::Io)
                &&& (forall|a2: ContentAddress| post.spec_at_addr(a2) == pre.spec_at_addr(a2))
            })
            &&& (forall|i: int|
                0 <= i < post.spec_index_view().len() ==> (
                #[trigger] post.spec_index_view()[i]).entry == pre.spec_index_view()[i].entry)
            &&& (c == 0 ==> post.spec_index_view() == pre.spec_index_view()
                && post.spec_skipped_watermark() == pre.spec_skipped_watermark()
                && post.spec_correction_watermark() == pre.spec_correction_watermark())
        }
        EditOutcome::Insert(slot, c) => {
            ||| {
                &&& r == Ok::<RefCount, Error>(1u16)
                &&& post.spec_index_view()[slot].skipped_count
                    == pre.spec_index_view()[slot].skipped_count
                &&& (c == 0 ==> post.spec_skipped_watermark() == pre.spec_skipped_watermark()
                    && post.spec_correction_watermark() == pre.spec_correction_watermark())
                &&& (exists|a: ContentAddress|
                    {
                        &&& a.valid()
                        &&& pre.spec_at_addr(a) is None
                        &&& (#[trigger] post.spec_at_addr(a)) == Some(
                            (SlotModel { key: key, data: data, ref_count: 1 }),
                        )
                        &&& (forall|a2: ContentAddress|
                            !same_slot(a2, a) ==> (#[trigger] post.spec_at_addr(a2))
                                == pre.spec_at_addr(a2))
                        &&& post.spec_index_view()[slot].entry == Some(
                            (crate::index_item::EntryModel {
                                key_correction: c,
                                key_suffix: sfx,
                                address: a,
                            }),
                        )
                        &&& (forall|i: int|
                            0 <= i < post.spec_index_view().len() && i != slot ==> (
                            #[trigger] post.spec_index_view()[i]).entry
                                == pre.spec_index_view()[i].entry)
                        &&& (forall|j: int|
                            0 <= j < c ==> (#[trigger] post.spec_index_view()[(prf + j)
                                % n]).skipped_count >= 1)
                    })
            }
            ||| {
                &&& r == Err::<RefCount, Error>(Error::Io)
                &&& post.spec_index_view() == pre.spec_index_view()
                &&& (forall|a2: ContentAddress| post.spec_at_addr(a2) == pre.spec_at_addr(a2))
            }
        }
        EditOutcome::Full => true,
    }
}

/// `content_touched` is stable under swapping either side for a state that
/// resolves every address alike.
proof fn lemma_content_touched_congruence(
    p1: &Database,
    p2: &Database,
    q1: &Database,
    q2: &Database,
    key: Seq<u8>,
    data: Seq<u8>,
    rc: u16,
)
    requires
        content_touched(p1, q1, key, data, rc),
        forall|a: ContentAddress| p1.spec_at_addr(a) == p2.spec_at_addr(a),
        forall|a: ContentAddress| q1.spec_at_addr(a) == q2.spec_at_addr(a),
    ensures
        content_touched(p2, q2, key, data, rc),
{
    let a = choose|a: ContentAddress|
        {
            &&& (#[trigger] q1.spec_at_addr(a)) is Some
            &&& (forall|a2: ContentAddress|
                !same_slot(a2, a) ==> (#[trigger] q1.spec_at_addr(a2)) == p1.spec_at_addr(a2))
            &&& ({
                ||| {
                    &&& p1.spec_at_addr(a) is Some
                    &&& p1.spec_at_addr(a)->Some_0.key == key
                    &&& rc as int == p1.spec_at_addr(a)->Some_0.ref_count + 1
                    &&& q1.spec_at_addr(a) == Some(
                        (SlotModel {
                            ref_count: (p1.spec_at_addr(a)->Some_0.ref_count + 1) as nat,
                            ..p1.spec_at_addr(a)->Some_0
                        }),
                    )
                }
                ||| {
                    &&& p1.spec_at_addr(a) is None
                    &&& rc == 1
                    &&& q1.spec_at_addr(a) == Some(
                        (SlotModel { key: key, data: data, ref_count: 1 }),
                    )
                }
            })
        };
    assert(q2.spec_at_addr(a) is Some);
    assert forall|a2: ContentAddress|
        !same_slot(a2, a) implies (#[trigger] q2.spec_at_addr(a2)) == p2.spec_at_addr(a2) by {
        assert(q1.spec_at_addr(a2) == p1.spec_at_addr(a2));
    }
}

/// `edit_applied` is stable under a later step that keeps every address,
/// the index slots and the watermarks as they are.
proof fn lemma_edit_applied_frame(
    pre: &Database,
    q1: &Database,
    q2: &Database,
    key: Seq<u8>,
    data: Seq<u8>,
    r: Result<RefCount, Error>,
)
    requires
        edit_applied(pre, q1, key, data, r),
        forall|a: ContentAddress| q1.spec_at_addr(a) == q2.spec_at_addr(a),
        q1.spec_index_view() == q2.spec_index_view(),
        q1.spec_skipped_watermark() == q2.spec_skipped_watermark(),
        q1.spec_correction_watermark() == q2.spec_correction_watermark(),
    ensures
        edit_applied(pre, q2, key, data, r),
{
    let n = pre.spec_item_count();
    let prf = spec_preferred(key, pre.spec_index_bits());
    let sfx = key.subrange(pre.spec_index_bits() / 8, pre.spec_index_key_bytes());
    match pre.spec_edit_outcome(key) {
        EditOutcome::Bump(a, c) => {
            assert forall|a2: ContentAddress|
                q2.spec_at_addr(a2) == q1.spec_at_addr(a2) by {}
        }
        EditOutcome::Insert(slot, c) => {
            if r == Ok::<RefCount, Error>(1u16) {
                let a = choose|a: ContentAddress|
                    {
                        &&& a.valid()
                        &&& pre.spec_at_addr(a) is None
                        &&& (#[trigger] q1.spec_at_addr(a)) == Some(
                            (SlotModel { key: key, data: data, ref_count: 1 }),
                        )
                        &&& (forall|a2: ContentAddress|
                            !same_slot(a2, a) ==> (#[trigger] q1.spec_at_addr(a2))
                                == pre.spec_at_addr(a2))
                        &&& q1.spec_index_view()[slot].entry == Some(
                            (crate::index_item::EntryModel {
                                key_correction: c,
                                key_suffix: sfx,
                                address: a,
                            }),
                        )
                        &&& (forall|i: int|
                            0 <= i < q1.spec_index_view().len() && i != slot ==> (
                            #[trigger] q1.spec_index_view()[i]).entry
                                == pre.spec_index_view()[i].entry)
                        &&& (forall|j: int|
                            0 <= j < c ==> (#[trigger] q1.spec_index_view()[(prf + j)
                                % n]).skipped_count >= 1)
                    };
                assert(q2.spec_at_addr(a) == Some(
                    (SlotModel { key: key, data: data, ref_count: 1 }),
                ));
                assert forall|a2: ContentAddress|
                    !same_slot(a2, a) implies (#[trigger] q2.spec_at_addr(a2)) == pre.spec_at_addr(
                    a2,
                ) by {
                    assert(q1.spec_at_addr(a2) == pre.spec_at_addr(a2));
                }
            }
        }
        EditOutcome::Full => {}
    }
}

/// Soundness facts of the removal walk: the found entry really matches,
/// and no slot walked past held a full match.
proof fn lemma_remove_walk_sound(
    v: Seq<ItemModel>,
    n: int,
    pref: int,
    suffix: Seq<u8>,
    key: Seq<u8>,
    con: Content,
    c: int,
    fuel: nat,
)
    requires
        0 <= c,
        fuel + c <= n,
        0 <= pref < n,
        0 < n,
    ensures
        match spec_remove_from(v, n, pref, suffix, key, con, c, fuel) {
            Some((a, cc)) => c <= cc < n && crate::index::slot_matches(
                v[(pref + cc) % n],
                cc,
                suffix,
            ) && v[(pref + cc) % n].entry->Some_0.address == a && content_key_matches(con, a, key)
                && (forall|j: int|
                c <= j < cc ==> !(crate::index::slot_matches(#[trigger] v[(pref + j) % n], j,
                suffix) && content_key_matches(con, v[(pref + j) % n].entry->Some_0.address,
                key))),
            None => true,
        },
    decreases fuel,
{
    if fuel > 0 {
        lemma_remove_walk_sound(v, n, pref, suffix, key, con, c + 1, (fuel - 1) as nat);
    }
}

/// After an entry whose slot carries no displacement trail is erased, a
/// lookup walk that meets no full match on the way to that slot ends there
/// with nothing.
proof fn lemma_erase_then_absent(
    v1: Seq<ItemModel>,
    n: int,
    pref: int,
    suffix: Seq<u8>,
    key: Seq<u8>,
    con1: Content,
    c: int,
    j: int,
)
    requires
        0 < n,
        0 <= pref < n,
        0 <= j <= c < n,
        v1.len() == n,
        v1[(pref + c) % n].entry is None,
        v1[(pref + c) % n].skipped_count == 0,
        forall|jj: int|
            j <= jj < c ==> !(crate::index::slot_matches(#[trigger] v1[(pref + jj) % n], jj,
            suffix) && content_key_matches(con1, v1[(pref + jj) % n].entry->Some_0.address, key)),
    ensures
        spec_find_from(v1, n, pref, suffix, key, con1, j, (n - j) as nat) is None,
    decreases c - j,
{
    if j == c {
        assert(spec_find_from(v1, n, pref, suffix, key, con1, j, (n - j) as nat) is None);
    } else {
        let m = v1[(pref + j) % n];
        if m.skipped_count == 0 {
        } else {
            lemma_erase_then_absent(v1, n, pref, suffix, key, con1, c, j + 1);
        }
    }
}

/// The lookup walk and the removal walk agree: a removal frees exactly the
/// entry a lookup of the same key would have returned.
pub proof fn lemma_remove_walk_agrees(
    v: Seq<crate::index_item::ItemModel>,
    n: int,
    pref: int,
    suffix: Seq<u8>,
    key: Seq<u8>,
    con: Content,
    c: int,
    fuel: nat,
)
    ensures
        match spec_remove_from(v, n, pref, suffix, key, con, c, fuel) {
            Some((a, cc)) => spec_find_from(v, n, pref, suffix, key, con, c, fuel) == Some(a),
            None => spec_find_from(v, n, pref, suffix, key, con, c, fuel) is None,
        },
    decreases fuel,
{
    if fuel > 0 {
        lemma_remove_walk_agrees(v, n, pref, suffix, key, con, c + 1, (fuel - 1) as nat);
    }
}

/// Soundness facts of the insert walk: the outcome's slot really is what
/// the walk says, and no slot walked past held a full match.
proof fn lemma_edit_walk_sound(
    v: Seq<crate::index_item::ItemModel>,
    n: int,
    pref: int,
    suffix: Seq<u8>,
    key: Seq<u8>,
    con: Content,
    c: int,
    fuel: nat,
)
    requires
        0 <= c,
        fuel + c <= n,
        0 <= pref < n,
        0 < n,
    ensures
        match spec_edit_from(v, n, pref, suffix, key, con, c, fuel) {
            EditOutcome::Bump(a, cc) => c <= cc < n && crate::index::slot_matches(
                v[(pref + cc) % n],
                cc,
                suffix,
            ) && v[(pref + cc) % n].entry->Some_0.address == a && content_key_matches(con, a, key)
                && (forall|j: int|
                c <= j < cc ==> !(crate::index::slot_matches(#[trigger] v[(pref + j) % n], j,
                suffix) && content_key_matches(con, v[(pref + j) % n].entry->Some_0.address,
                key))),
            EditOutcome::Insert(slot, cc) => c <= cc < n && slot == (pref + cc) % n && (forall|
                j: int,
            |
                c <= j < cc ==> !(crate::index::slot_matches(#[trigger] v[(pref + j) % n], j,
                suffix) && content_key_matches(con, v[(pref + j) % n].entry->Some_0.address,
                key))),
            EditOutcome::Full => true,
        },
    decreases fuel,
{
    if fuel > 0 {
        lemma_edit_walk_sound(v, n, pref, suffix, key, con, c + 1, (fuel - 1) as nat);
    }
}

} // verus!
