use subdb::{CompactContentAddress, ContentAddress, DatumSize, Error, FileSet, MetadataV1,
    Options};
use subdb::table::{Table, TableFiles};
use subdb::index_item::{IndexEntry, IndexItem};
use subdb::FreeMap;

fn fresh_files() -> FileSet {
    let mut tables = Vec::new();
    for _ in 0..64 {
        tables.push(Vec::new());
    }
    FileSet { metadata: None, index: None, tables }
}

#[test]
fn content_addresses_encode_encode_ok() {
    let a = ContentAddress { datum_size: DatumSize::Size(0), content_table: 1, entry_index: 2 };
    assert_eq!(a.datum_size.size(), Some(32));
    assert_eq!(a.datum_size.contents_entries(), 65536);
    let b = CompactContentAddress::from(&a);
    assert_eq!(b, CompactContentAddress(65538 * 64));
    let a2 = ContentAddress::from(b);
    assert_eq!(a, a2);
}

#[test]
fn datum_size_works() {
    assert_eq!(DatumSize::from(0).size().unwrap(), 32);
    assert_eq!(DatumSize::from(1).size().unwrap(), 36);
    assert_eq!(DatumSize::from(2).size().unwrap(), 40);
    assert_eq!(DatumSize::from(7).size().unwrap(), 60);
    assert_eq!(DatumSize::from(8).size().unwrap(), 64);
    assert_eq!(DatumSize::from(9).size().unwrap(), 72);
    assert_eq!(DatumSize::from(15).size().unwrap(), 120);
    assert_eq!(DatumSize::from(16).size().unwrap(), 128);
    assert_eq!(DatumSize::from(17).size().unwrap(), 144);
    assert_eq!(DatumSize::from(24).size().unwrap(), 256);
    assert_eq!(DatumSize::from(31).size().unwrap(), 480);
    assert_eq!(DatumSize::from(32).size().unwrap(), 512);
    assert_eq!(DatumSize::from(33).size().unwrap(), 640);
    assert_eq!(DatumSize::from(34).size().unwrap(), 768);
    assert_eq!(DatumSize::from(35).size().unwrap(), 896);
    assert_eq!(DatumSize::from(36).size().unwrap(), 1_024);
    assert_eq!(DatumSize::from(37).size().unwrap(), 1_280);
    assert_eq!(DatumSize::from(38).size().unwrap(), 1_536);
    assert_eq!(DatumSize::from(39).size().unwrap(), 1_792);
    assert_eq!(DatumSize::from(40).size().unwrap(), 2_048);
    assert_eq!(DatumSize::from(44).size().unwrap(), 4_096);
    assert_eq!(DatumSize::from(48).size().unwrap(), 8_192);
    assert_eq!(DatumSize::from(52).size().unwrap(), 16_384);
    assert_eq!(DatumSize::from(56).size().unwrap(), 32_768);
    assert_eq!(DatumSize::from(60).size().unwrap(), 65_536);
    assert_eq!(DatumSize::from(62).size().unwrap(), 98_304);
    assert_eq!(DatumSize::from(63).size(), None);

    assert_eq!(DatumSize::nearest(0).size().unwrap(), 32);
    assert_eq!(DatumSize::nearest(29).size().unwrap(), 32);
    assert_eq!(DatumSize::nearest(30).size().unwrap(), 32);
    assert_eq!(DatumSize::nearest(31).size().unwrap(), 32);
    assert_eq!(DatumSize::nearest(32).size().unwrap(), 32);
    assert_eq!(DatumSize::nearest(33).size().unwrap(), 36);
    assert_eq!(DatumSize::nearest(34).size().unwrap(), 36);
    assert_eq!(DatumSize::nearest(35).size().unwrap(), 36);
    assert_eq!(DatumSize::nearest(36).size().unwrap(), 36);
    assert_eq!(DatumSize::nearest(37).size().unwrap(), 40);
    assert_eq!(DatumSize::nearest(38).size().unwrap(), 40);
    assert_eq!(DatumSize::nearest(39).size().unwrap(), 40);
    assert_eq!(DatumSize::nearest(40).size().unwrap(), 40);
    assert_eq!(DatumSize::nearest(62).size().unwrap(), 64);
    assert_eq!(DatumSize::nearest(63).size().unwrap(), 64);
    assert_eq!(DatumSize::nearest(64).size().unwrap(), 64);
    assert_eq!(DatumSize::nearest(65).size().unwrap(), 72);
    assert_eq!(DatumSize::nearest(66).size().unwrap(), 72);
    assert_eq!(DatumSize::nearest(67).size().unwrap(), 72);
    assert_eq!(DatumSize::nearest(68).size().unwrap(), 72);
    assert_eq!(DatumSize::nearest(69).size().unwrap(), 72);
    assert_eq!(DatumSize::nearest(70).size().unwrap(), 72);
    assert_eq!(DatumSize::nearest(71).size().unwrap(), 72);
    assert_eq!(DatumSize::nearest(72).size().unwrap(), 72);
    assert_eq!(DatumSize::nearest(73).size().unwrap(), 80);

    assert_eq!(DatumSize::nearest(480).size().unwrap(), 480);
    assert_eq!(DatumSize::nearest(481).size().unwrap(), 512);
    assert_eq!(DatumSize::nearest(512).size().unwrap(), 512);
    assert_eq!(DatumSize::nearest(513).size().unwrap(), 640);
    assert_eq!(DatumSize::nearest(640).size().unwrap(), 640);
    assert_eq!(DatumSize::nearest(641).size().unwrap(), 768);

    assert_eq!(DatumSize::nearest(98_303).size().unwrap(), 98_304);
    assert_eq!(DatumSize::nearest(98_304).size().unwrap(), 98_304);
    assert_eq!(DatumSize::nearest(98_305).size(), None);
}

#[test]
fn size_range_spans_the_step_between_classes() {
    // Each sized class past the first serves exactly the sizes between its
    // own payload size and the class below; class 0 also serves 0..=32.
    assert_eq!(DatumSize::from(0).size_range(), 33);
    for c in 1u8..63 {
        let below = DatumSize::from(c - 1).size().unwrap();
        let here = DatumSize::from(c).size().unwrap();
        assert_eq!(DatumSize::from(c).size_range(), here - below);
    }
    assert_eq!(DatumSize::from(32).size_range(), 32);
    assert_eq!(DatumSize::from(33).size_range(), 128);
    assert_eq!(DatumSize::from(63).size_range(), usize::MAX);
}

#[test]
fn index_item_encodes_decodes_correctly() {
    let item = IndexItem {
        skipped_count: 0,
        maybe_entry: Some(IndexEntry {
            key_correction: 0,
            key_suffix: vec![45],
            address: ContentAddress {
                datum_size: DatumSize::Size(0),
                content_table: 0,
                entry_index: 0,
            },
        }),
    };
    let mut encoded = Vec::<u8>::new();
    item.encode_to(&mut encoded, 1);
    let item2 = IndexItem::decode(&encoded, 0, 1);
    assert_eq!(item, item2);
}

#[test]
fn contains_key_after_reopen() {
    let mut db = Options::new()
        .key_bytes(2)
        .index_bits(4)
        .open(8, fresh_files())
        .unwrap();
    let (rc, key) = db.store(&b"Hello world!".to_vec()).unwrap();
    assert_eq!(rc, 1);
    let files = db.commit();

    let mut db = Options::new().open(8, files).unwrap();
    assert!(db.contains_key(&key));
    assert_eq!(db.remove(&key), Ok(0));
    assert!(!db.contains_key(&key));
}

#[test]
fn oversize_round_trip() {
    let blob = vec![0u8; 1024 * 1024];
    let mut db = Options::new()
        .key_bytes(2)
        .index_bits(4)
        .open(8, fresh_files())
        .unwrap();
    let (rc, key) = db.store(&blob).unwrap();
    assert_eq!(rc, 1);
    let files = db.commit();

    let mut db = Options::new().open(8, files).unwrap();
    assert_eq!(db.get(&key).unwrap(), blob);
    assert_eq!(db.remove(&key), Ok(0));
    let files = db.commit();

    let mut db = Options::new().open(8, files).unwrap();
    assert!(!db.contains_key(&key));
    assert_eq!(db.get(&key), None);
}

#[test]
fn oversize_lru_shrink() {
    let mut db = Options::new()
        .key_bytes(2)
        .index_bits(4)
        .oversize_shrink(8 * 1024 * 1024, 2 * 1024 * 1024)
        .all_items_backed()
        .open(8, fresh_files())
        .unwrap();
    let mut keys = Vec::new();
    for i in 0..8u8 {
        keys.push(db.store(&vec![i; 1024 * 1024]).unwrap().1);
    }
    // Eight one-MiB payloads mapped, plus one ten-byte slot image per
    // oversize table. The fixed overhead counts the model's slot records
    // alone — an engine that mapped whole files page by page would count a
    // larger constant here, but the bound under test is the same
    // "payloads + fixed overhead" from the shrink law.
    assert_eq!(db.bytes_mapped(), 8 * 1024 * 1024 + 8 * 10);

    // The ninth store passes the trigger and shrinks the cache down to the
    // two most recently used payloads.
    let key8 = db.store(&vec![8u8; 1024 * 1024]).unwrap().1;
    assert_eq!(db.bytes_mapped(), 2 * 1024 * 1024 + 9 * 10);

    // The last two payloads are still mapped; reading them maps nothing new.
    assert_eq!(db.get(&keys[7]).unwrap(), vec![7u8; 1024 * 1024]);
    assert_eq!(db.get(&key8).unwrap(), vec![8u8; 1024 * 1024]);
    assert_eq!(db.bytes_mapped(), 2 * 1024 * 1024 + 9 * 10);

    // Reading the first payload maps its file again.
    assert_eq!(db.get(&keys[0]).unwrap(), vec![0u8; 1024 * 1024]);
    assert_eq!(db.bytes_mapped(), 3 * 1024 * 1024 + 9 * 10);
}

#[test]
fn reindex_on_growth() {
    let mut db = Options::new()
        .key_bytes(2)
        .index_bits(4)
        .open(8, fresh_files())
        .unwrap();
    let mut keys = Vec::new();
    let mut values = Vec::new();
    for i in 0..100u32 {
        let value = format!("The number {}", i).into_bytes();
        let key = db.store(&value).unwrap().1;
        keys.push(key);
        values.push(value);
    }
    // Sixteen slots cannot hold a hundred entries: the index must have
    // grown by at least one bit.
    let files = db.commit();
    let meta = MetadataV1::decode(files.metadata.as_ref().unwrap()).unwrap();
    assert!(meta.index_bits > 4);

    let mut db = Options::new().open(8, files).unwrap();
    for i in 0..100usize {
        assert_eq!(db.get(&keys[i]).unwrap(), values[i]);
    }
}

#[test]
fn refcounts_add_up() {
    let mut db = Options::new()
        .key_bytes(2)
        .index_bits(4)
        .open(8, fresh_files())
        .unwrap();
    let data = b"a value worth keeping thrice".to_vec();
    let (rc1, key) = db.store(&data).unwrap();
    let (rc2, key2) = db.store(&data).unwrap();
    let (rc3, key3) = db.store(&data).unwrap();
    assert_eq!(rc1, 1);
    assert_eq!(rc2, 2);
    assert_eq!(rc3, 3);
    assert_eq!(key, key2);
    assert_eq!(key, key3);
    assert_eq!(db.get_ref_count(&key), 3);
    assert_eq!(db.remove(&key), Ok(2));
    assert_eq!(db.remove(&key), Ok(1));
    assert_eq!(db.get_ref_count(&key), 1);
    assert_eq!(db.remove(&key), Ok(0));
    assert!(!db.contains_key(&key));
    assert_eq!(db.get_ref_count(&key), 0);
    assert_eq!(db.remove(&key), Err(()));
}

#[test]
fn commit_copy_reopens_identically() {
    let mut db = Options::new()
        .key_bytes(2)
        .index_bits(4)
        .open(8, fresh_files())
        .unwrap();
    let small = b"small payload".to_vec();
    let large = vec![7u8; 500_000];
    let (_, k1) = db.store(&small).unwrap();
    db.store(&small).unwrap();
    let (_, k2) = db.store(&large).unwrap();
    // Two separate commits stand for copying the directory elsewhere.
    let copy_one = db.commit();
    let copy_two = db.commit();

    let mut db1 = Options::new().open(8, copy_one).unwrap();
    assert_eq!(db1.get(&k1).unwrap(), small);
    assert_eq!(db1.get_ref_count(&k1), 2);
    assert_eq!(db1.get(&k2).unwrap(), large);
    assert_eq!(db1.get_ref_count(&k2), 1);

    let mut db2 = Options::new().open(8, copy_two).unwrap();
    assert_eq!(db2.get(&k1).unwrap(), small);
    assert_eq!(db2.get_ref_count(&k1), 2);
    assert_eq!(db2.get(&k2).unwrap(), large);
    assert_eq!(db2.get_ref_count(&k2), 1);
}

#[test]
fn store_hashes_with_blake2b() {
    let mut db = Options::new()
        .key_bytes(2)
        .index_bits(4)
        .open(8, fresh_files())
        .unwrap();
    let data = b"Hello world!".to_vec();
    let (_, key) = db.store(&data).unwrap();
    assert_eq!(key.len(), 8);
    // The key is a digest of the payload, not the payload's own bytes.
    assert_ne!(key, b"Hello wo".to_vec());
    // The same payload always hashes to the same key.
    let (rc, key2) = db.store(&data).unwrap();
    assert_eq!(key, key2);
    assert_eq!(rc, 2);
}

#[test]
fn metadata_rejects_foreign_files() {
    assert_eq!(MetadataV1::decode(&b"nope".to_vec()), Err(Error::BadMetadata));
    assert_eq!(MetadataV1::decode(&Vec::new()), Err(Error::BadMetadata));
    let mut wrong_version = b"SBDB".to_vec();
    wrong_version.extend_from_slice(&[2, 0, 0, 0]);
    wrong_version.extend_from_slice(&[2, 0, 0, 0]);
    wrong_version.extend_from_slice(&[4, 0, 0, 0]);
    assert_eq!(MetadataV1::decode(&wrong_version), Err(Error::UnsupportedVersion));
    let meta = MetadataV1 { key_bytes: 2, index_bits: 4 };
    assert_eq!(MetadataV1::decode(&meta.encode()), Ok(meta));
}

#[test]
fn open_rejects_bad_metadata() {
    let mut files = fresh_files();
    files.metadata = Some(b"XXXX\x01\x00\x00\x00\x02\x00\x00\x00\x04\x00\x00\x00".to_vec());
    match Options::new().open(8, files) {
        Err(Error::BadMetadata) => {}
        _ => panic!("foreign magic must be bad metadata"),
    }
}

#[test]
fn table_stores_and_reopens() {
    let files = TableFiles { main: Vec::new(), externals: Vec::new() };
    let mut t = Table::open(DatumSize::from(0), 1, 65536, files).unwrap();
    let x = t.allocate(&vec![42u8], 12).unwrap();
    assert_eq!(t.set_item(x, &b"Hello world!".to_vec()), Ok(()));
    assert_eq!(t.item_ref(x, None).unwrap(), b"Hello world!".to_vec());
    let files = t.to_files();
    let mut t = Table::open(DatumSize::from(0), 1, 65536, files).unwrap();
    assert_eq!(t.item_ref(x, None).unwrap(), b"Hello world!".to_vec());
    assert_eq!(t.item_ref(x, Some(&vec![42u8])).unwrap(), b"Hello world!".to_vec());
    assert_eq!(t.item_ref(x, Some(&vec![43u8])), Err(()));
    assert_eq!(t.item_hash(x).unwrap(), vec![42u8]);
}

#[test]
fn oversize_table_stores_and_reopens() {
    let files = TableFiles { main: Vec::new(), externals: Vec::new() };
    let mut t = Table::open(DatumSize::Oversize, 1, 65536, files).unwrap();
    let x = t.allocate(&vec![42u8], 12).unwrap();
    assert_eq!(t.set_item(x, &b"Hello world!".to_vec()), Ok(()));
    assert_eq!(t.item_ref(x, None).unwrap(), b"Hello world!".to_vec());
    let files = t.to_files();
    // Exactly one external payload file exists, for the allocated slot.
    assert_eq!(files.externals.iter().filter(|e| e.is_some()).count(), 1);
    let mut t = Table::open(DatumSize::Oversize, 1, 65536, files).unwrap();
    assert_eq!(t.item_ref(x, Some(&vec![42u8])).unwrap(), b"Hello world!".to_vec());
    assert_eq!(t.bytes_used(), 3 + 12);
}

#[test]
fn thin_table_grows_on_demand() {
    let files = TableFiles { main: Vec::new(), externals: Vec::new() };
    let mut t = Table::open(DatumSize::from(0), 1, 0, files).unwrap();
    assert_eq!(t.bytes_used(), 0);
    let x = t.allocate(&vec![42u8], 12).unwrap();
    assert_eq!(t.set_item(x, &b"Hello world!".to_vec()), Ok(()));
    assert_eq!(t.bytes_used(), 36);
    assert_eq!(t.item_ref(x, None).unwrap(), b"Hello world!".to_vec());
    let files = t.to_files();
    let mut t = Table::open(DatumSize::from(0), 1, 0, files).unwrap();
    assert_eq!(t.item_ref(x, None).unwrap(), b"Hello world!".to_vec());
}

#[test]
fn free_list_reuses_slots() {
    let files = TableFiles { main: Vec::new(), externals: Vec::new() };
    let mut t = Table::open(DatumSize::from(0), 1, 0, files).unwrap();
    let a = t.allocate(&vec![1u8], 10).unwrap();
    let b = t.allocate(&vec![2u8], 10).unwrap();
    assert_ne!(a, b);
    assert_eq!(t.used(), 2);
    assert_eq!(t.free(a, None), Ok(0));
    assert_eq!(t.used(), 1);
    // The freed slot is handed out again.
    let c = t.allocate(&vec![3u8], 10).unwrap();
    assert_eq!(c, a);
    assert_eq!(t.used(), 2);
    assert_eq!(t.available(), t.total() - 2);
}

#[test]
fn options_setters_converge() {
    let o = Options::new().key_bytes(2);
    let mut db = o.open(8, fresh_files()).unwrap();
    let files = db.commit();
    let meta = MetadataV1::decode(files.metadata.as_ref().unwrap()).unwrap();
    // key_bytes(2) lowers the default sixteen index bits to fit two bytes.
    assert_eq!(meta.key_bytes, 2);
    assert_eq!(meta.index_bits, 16);

    let o = Options::new().key_bytes(1).index_bits(12);
    let mut db = o.open(8, fresh_files()).unwrap();
    let files = db.commit();
    let meta = MetadataV1::decode(files.metadata.as_ref().unwrap()).unwrap();
    // index_bits(12) raises the single key byte to two.
    assert_eq!(meta.key_bytes, 2);
    assert_eq!(meta.index_bits, 12);
}

#[test]
fn explicit_reindex_keeps_data() {
    let mut db = Options::new()
        .key_bytes(2)
        .index_bits(4)
        .open(8, fresh_files())
        .unwrap();
    let (_, key) = db.store(&b"Hello world!".to_vec()).unwrap();
    assert_eq!(db.reindex(2, 8), Ok(()));
    assert!(db.contains_key(&key));
    assert_eq!(db.get(&key).unwrap(), b"Hello world!".to_vec());
    assert_eq!(db.get_ref_count(&key), 1);
}

#[test]
fn freemap_tracks_bits() {
    let mut m = FreeMap::new(vec![0u64; 4]);
    assert_eq!(m.total_set(), 0);
    assert_eq!(m.next_free(256), Some(0));
    m.set(0);
    m.set(1);
    m.set(77);
    assert!(m.get(0));
    assert!(m.get(77));
    assert!(!m.get(76));
    assert_eq!(m.total_set(), 3);
    assert_eq!(m.next_free(256), Some(2));
    m.set(2);
    assert_eq!(m.next_free(256), Some(3));
    m.clear(1);
    assert_eq!(m.total_set(), 3);
    assert_eq!(m.next_free(256), Some(1));
    m.clear(1);
    assert_eq!(m.total_set(), 3);
}
