//! The fixed-width record of one index slot: a skipped counter and, when the
//! slot is occupied, the entry with its key correction, key suffix and packed
//! content address.
//!
//! A record takes `2 + 1 + suffix_len + 4` bytes: a little-endian 16-bit word
//! whose high bit marks occupancy and whose low 15 bits are the key
//! correction, the skipped counter, the key suffix, and the packed address.
//! An empty slot zeroes everything but the skipped counter.

use vstd::prelude::*;
use crate::bytes::{u16_le, u32_le, le16_val, le32_val, get_u16, get_u32, push_u16, push_u32,
    lemma_u16_le_val, lemma_u32_le_val};
use crate::content_address::{ContentAddress, CompactContentAddress, spec_to_compact,
    spec_from_compact, lemma_compact_round_trip};

verus! {

/// An item describing an entry in this database. It does not contain its
/// data; only where to find it.
#[derive(Clone, PartialEq, Eq, Debug)]
pub struct IndexEntry {
    /// The number of slots that had to be skipped from the slot derived from
    /// the key. Encodes into 15 bits.
    pub key_correction: usize,
    /// The bytes of the key that the slot position does not imply.
    pub key_suffix: Vec<u8>,
    /// Where the payload lives in the content tables.
    pub address: ContentAddress,
}

/// An item possibly describing an entry in this database.
#[derive(Clone, PartialEq, Eq, Debug)]
pub struct IndexItem {
    /// The number of items currently in the database that would have been
    /// placed in this slot at preference, but had to go into a later slot
    /// because this one was occupied.
    pub skipped_count: u8,
    /// The entry, if there is one.
    pub maybe_entry: Option<IndexEntry>,
}

/// The mathematical form of an occupied slot.
#[verifier::ext_equal]
pub struct EntryModel {
    pub key_correction: int,
    pub key_suffix: Seq<u8>,
    pub address: ContentAddress,
}

/// The mathematical form of one index slot.
#[verifier::ext_equal]
pub struct ItemModel {
    pub skipped_count: u8,
    pub entry: Option<EntryModel>,
}

impl View for IndexEntry {
    type V = EntryModel;

    open spec fn view(&self) -> EntryModel {
        EntryModel {
            key_correction: self.key_correction as int,
            key_suffix: self.key_suffix@,
            address: self.address,
        }
    }
}

impl View for IndexItem {
    type V = ItemModel;

    open spec fn view(&self) -> ItemModel {
        ItemModel {
            skipped_count: self.skipped_count,
            entry: match self.maybe_entry {
                Some(e) => Some(e@),
                None => None,
            },
        }
    }
}

impl ItemModel {
    /// A slot model the record format can carry, for a given suffix length.
    pub open spec fn wf(self, suffix_len: int) -> bool {
        match self.entry {
            Some(e) => {
                &&& 0 <= e.key_correction < 0x8000
                &&& e.key_suffix.len() == suffix_len
                &&& e.address.valid()
            }
            None => true,
        }
    }
}

/// A run of zero bytes.
pub open spec fn zero_bytes(n: int) -> Seq<u8> {
    Seq::new(n as nat, |i: int| 0u8)
}

/// The bytes of one index record.
pub open spec fn item_bytes(m: ItemModel, suffix_len: int) -> Seq<u8> {
    match m.entry {
        Some(e) => u16_le((0x8000 + e.key_correction) as u16) + seq![m.skipped_count]
            + e.key_suffix + u32_le(spec_to_compact(e.address)),
        None => seq![0u8, 0u8, m.skipped_count] + zero_bytes(suffix_len + 4),
    }
}

/// The slot a record's bytes describe. Total: a word without its high bit
/// set means an empty slot whatever the rest holds.
pub open spec fn parse_item(s: Seq<u8>, suffix_len: int) -> ItemModel {
    let word = le16_val(s[0], s[1]);
    if word >= 0x8000 {
        ItemModel {
            skipped_count: s[2],
            entry: Some(EntryModel {
                key_correction: word - 0x8000,
                key_suffix: s.subrange(3, 3 + suffix_len),
                address: spec_from_compact(le32_val(
                    s[3 + suffix_len],
                    s[4 + suffix_len],
                    s[5 + suffix_len],
                    s[6 + suffix_len],
                ) as u32),
            }),
        }
    } else {
        ItemModel { skipped_count: s[2], entry: None }
    }
}

/// A record parses back to the slot it was written from: the format loses
/// nothing.
pub proof fn lemma_item_round_trip(m: ItemModel, suffix_len: int)
    requires
        m.wf(suffix_len),
        suffix_len >= 0,
    ensures
        item_bytes(m, suffix_len).len() == 7 + suffix_len,
        parse_item(item_bytes(m, suffix_len), suffix_len) == m,
{
    let s = item_bytes(m, suffix_len);
    match m.entry {
        Some(e) => {
            let w: u16 = (0x8000 + e.key_correction) as u16;
            lemma_u16_le_val(w);
            assert(s[0] == u16_le(w)[0] && s[1] == u16_le(w)[1]);
            assert(le16_val(s[0], s[1]) == w);
            assert(w >= 0x8000);
            let code = spec_to_compact(e.address);
            lemma_u32_le_val(code);
            assert(s[3 + suffix_len] == u32_le(code)[0]);
            assert(s[4 + suffix_len] == u32_le(code)[1]);
            assert(s[5 + suffix_len] == u32_le(code)[2]);
            assert(s[6 + suffix_len] == u32_le(code)[3]);
            assert(le32_val(s[3 + suffix_len], s[4 + suffix_len], s[5 + suffix_len],
                s[6 + suffix_len]) == code);
            lemma_compact_round_trip(e.address);
            assert(s.subrange(3, 3 + suffix_len) =~= e.key_suffix);
            assert(parse_item(s, suffix_len) =~~= m);
        }
        None => {
            assert(le16_val(s[0], s[1]) == 0);
            assert(parse_item(s, suffix_len) =~~= m);
        }
    }
}

impl IndexItem {
    /// An empty slot with a zero skipped counter.
    pub fn empty() -> (r: Self)
        ensures
            r@.skipped_count == 0,
            r@.entry is None,
    {
        IndexItem { skipped_count: 0, maybe_entry: None }
    }

    /// Appends this slot's record to `output`.
    pub fn encode_to(&self, output: &mut Vec<u8>, suffix_len: usize)
        requires
            self@.wf(suffix_len as int),
            suffix_len <= 8,
        ensures
            final(output)@ == old(output)@ + item_bytes(self@, suffix_len as int),
    {
        match &self.maybe_entry {
            Some(entry) => {
                push_u16(output, 0x8000 + entry.key_correction as u16);
                output.push(self.skipped_count);
                let mut k: usize = 0;
                while k < entry.key_suffix.len()
                    invariant
                        k <= entry.key_suffix.len(),
                        output@ == old(output)@ + u16_le(
                            (0x8000 + self@.entry->Some_0.key_correction) as u16,
                        ) + seq![self@.skipped_count] + entry.key_suffix@.subrange(0, k as int),
                        self.maybe_entry == Some(*entry),
                    decreases entry.key_suffix.len() - k,
                {
                    let b = entry.key_suffix[k];
                    output.push(b);
                    proof {
                        assert(entry.key_suffix@.subrange(0, k + 1) =~= entry.key_suffix@.subrange(
                            0,
                            k as int,
                        ).push(b));
                        assert(output@ =~= old(output)@ + u16_le(
                            (0x8000 + self@.entry->Some_0.key_correction) as u16,
                        ) + seq![self@.skipped_count] + entry.key_suffix@.subrange(0, k + 1));
                    }
                    k = k + 1;
                }
                proof {
                    assert(entry.key_suffix@.subrange(0, entry.key_suffix@.len() as int)
                        =~= entry.key_suffix@);
                }
                let compact = CompactContentAddress::from(&entry.address);
                push_u32(output, compact.0);
                proof {
                    assert(output@ =~= old(output)@ + item_bytes(self@, suffix_len as int));
                }
            }
            None => {
                output.push(0);
                output.push(0);
                output.push(self.skipped_count);
                let mut k: usize = 0;
                while k < suffix_len + 4
                    invariant
                        k <= suffix_len + 4,
                        suffix_len + 4 <= usize::MAX,
                        output@ == old(output)@ + seq![0u8, 0u8, self@.skipped_count]
                            + zero_bytes(k as int),
                        self.maybe_entry is None,
                    decreases suffix_len + 4 - k,
                {
                    output.push(0);
                    proof {
                        assert(zero_bytes(k + 1) =~= zero_bytes(k as int).push(0u8));
                        assert(output@ =~= old(output)@ + seq![0u8, 0u8, self@.skipped_count]
                            + zero_bytes(k + 1));
                    }
                    k = k + 1;
                }
                proof {
                    assert(output@ =~= old(output)@ + item_bytes(self@, suffix_len as int));
                }
            }
        }
    }

    /// Reads the slot recorded at offset `at`.
    pub fn decode(b: &Vec<u8>, at: usize, suffix_len: usize) -> (r: Self)
        requires
            at + 7 + suffix_len <= b.len(),
        ensures
            r@ == parse_item(b@.subrange(at as int, at as int + 7 + suffix_len), suffix_len as int),
            r@.wf(suffix_len as int),
    {
        let ghost s = b@.subrange(at as int, at as int + 7 + suffix_len);
        let word: u16 = get_u16(b, at);
        let skipped_count: u8 = b[at + 2];
        proof {
            assert(s[0] == b@[at as int] && s[1] == b@[at as int + 1] && s[2] == b@[at as int + 2]);
        }
        if word >= 0x8000 {
            let key_correction: usize = (word - 0x8000) as usize;
            let mut key_suffix: Vec<u8> = Vec::new();
            let mut k: usize = 0;
            while k < suffix_len
                invariant
                    k <= suffix_len,
                    at + 7 + suffix_len <= b.len(),
                    key_suffix@ == b@.subrange(at as int + 3, at as int + 3 + k as int),
                decreases suffix_len - k,
            {
                key_suffix.push(b[at + 3 + k]);
                proof {
                    assert(b@.subrange(at as int + 3, at as int + 3 + k + 1) =~= b@.subrange(
                        at as int + 3,
                        at as int + 3 + k as int,
                    ).push(b@[at as int + 3 + k]));
                }
                k = k + 1;
            }
            let code: u32 = get_u32(b, at + 3 + suffix_len);
            let address = CompactContentAddress(code).decode();
            proof {
                assert(s.subrange(3, 3 + suffix_len as int) =~= key_suffix@);
                assert(s[3 + suffix_len] == b@[at as int + 3 + suffix_len]);
                assert(s[4 + suffix_len] == b@[at as int + 4 + suffix_len]);
                assert(s[5 + suffix_len] == b@[at as int + 5 + suffix_len]);
                assert(s[6 + suffix_len] == b@[at as int + 6 + suffix_len]);
            }
            IndexItem {
                skipped_count,
                maybe_entry: Some(IndexEntry { key_correction, key_suffix, address }),
            }
        } else {
            IndexItem { skipped_count, maybe_entry: None }
        }
    }
}

} // verus!
