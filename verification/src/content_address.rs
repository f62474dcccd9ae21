//! The packed 32-bit address of a datum: its size class, which table of that
//! class it lives in, and its slot within that table.
//!
//! The code packs as `class + 64 * linear`, where `linear` is
//! `entry_index + capacity * content_table` and the low six bits carry the
//! class.

use vstd::prelude::*;
use vstd::arithmetic::div_mod::{lemma_fundamental_div_mod_converse};
use crate::datum_size::{DatumSize, class_entries, MAX_SIZE};
use crate::types::{TableIndex, EntryIndex};

verus! {

/// A content address packed into 32 bits.
#[derive(Copy, Clone, PartialEq, Eq, Structural, Debug)]
pub struct CompactContentAddress(pub u32);

/// A content address in its three-part form.
#[derive(Copy, Clone, PartialEq, Eq, Structural, Debug)]
pub struct ContentAddress {
    /// The size class, or possibly oversize.
    pub datum_size: DatumSize,
    /// The instance of the content table that the data is stored in.
    pub content_table: TableIndex,
    /// The index of the entry within the content table that is the data.
    pub entry_index: EntryIndex,
}

/// How many slots a table of class `ds` holds; total over all values.
pub open spec fn entries_of(ds: DatumSize) -> int {
    match ds {
        DatumSize::Oversize => 1,
        DatumSize::Size(c) => if c < MAX_SIZE {
            class_entries(c as int)
        } else {
            1
        },
    }
}

impl ContentAddress {
    /// The linear slot number of this address within its size class.
    pub open spec fn spec_linear(self) -> int {
        self.entry_index + entries_of(self.datum_size) * self.content_table
    }

    /// An address that can be packed: a well-formed class, a slot within the
    /// table's capacity, and a linear number below 2^26.
    pub open spec fn valid(self) -> bool {
        &&& self.datum_size.wf()
        &&& self.entry_index < entries_of(self.datum_size)
        &&& self.spec_linear() < 0x4000000
    }
}

/// The packed code of an address. An address that cannot be packed keeps
/// only its class byte; such addresses never arise from the allocator.
pub open spec fn spec_to_compact(a: ContentAddress) -> u32 {
    if a.valid() {
        (a.datum_size.spec_code() + 64 * a.spec_linear()) as u32
    } else {
        a.datum_size.spec_code() as u32
    }
}

/// The three-part form of a packed code.
pub open spec fn spec_from_compact(code: u32) -> ContentAddress {
    let ds = spec_class_of_byte((code as int % 64) as u8);
    let rest: int = code as int / 64;
    (ContentAddress {
        datum_size: ds,
        content_table: (rest / entries_of(ds)) as usize,
        entry_index: (rest % entries_of(ds)) as usize,
    })
}

/// The class a code byte names.
pub open spec fn spec_class_of_byte(x: u8) -> DatumSize {
    if x < MAX_SIZE {
        DatumSize::Size(x)
    } else {
        DatumSize::Oversize
    }
}

/// Packing then unpacking a valid address gives it back: the packed form
/// loses nothing.
pub proof fn lemma_compact_round_trip(a: ContentAddress)
    requires
        a.valid(),
    ensures
        spec_from_compact(spec_to_compact(a)) == a,
{
    let code = spec_to_compact(a);
    let cls = a.datum_size.spec_code();
    let linear = a.spec_linear();
    let entries = entries_of(a.datum_size);
    assert(0 <= cls < 64);
    assert(0 <= linear < 0x4000000);
    assert(a.content_table <= entries * a.content_table) by (nonlinear_arith)
        requires
            entries >= 1,
            a.content_table >= 0,
    ;
    assert(code == cls + 64 * linear);
    lemma_fundamental_div_mod_converse(code as int, 64, linear, cls);
    assert(code as int % 64 == cls);
    assert(code as int / 64 == linear);
    assert(spec_class_of_byte((cls as int % 64) as u8) == a.datum_size) by {
        match a.datum_size {
            DatumSize::Oversize => {
                assert(cls == MAX_SIZE as int);
            }
            DatumSize::Size(c) => {
                assert(cls == c as int && c < MAX_SIZE);
            }
        }
    };
    assert(linear == entries * a.content_table + a.entry_index);
    assert(entries >= 1);
    assert(0 <= a.entry_index < entries);
    assert(linear == (a.content_table as int) * entries + a.entry_index) by (nonlinear_arith)
        requires
            linear == a.entry_index + entries * a.content_table,
    ;
    lemma_fundamental_div_mod_converse(linear, entries, a.content_table as int,
        a.entry_index as int);
    assert(linear / entries == a.content_table as int);
    assert(linear % entries == a.entry_index as int);
}

/// Computes `entries_of` for any class value.
fn entries_for(ds: DatumSize) -> (r: usize)
    ensures
        r == entries_of(ds),
        1 <= r <= 65536,
{
    match ds {
        DatumSize::Oversize => 1,
        DatumSize::Size(c) => {
            if c < MAX_SIZE {
                DatumSize::Size(c).contents_entries()
            } else {
                1
            }
        }
    }
}

impl<'a> From<&'a ContentAddress> for CompactContentAddress {
    /// Packs an address into its 32-bit code.
    fn from(x: &'a ContentAddress) -> (r: Self) {
        let code: u8 = u8::from(x.datum_size);
        let is_wf: bool = if let DatumSize::Size(c) = x.datum_size {
            c < MAX_SIZE
        } else {
            true
        };
        if is_wf {
            let entries: usize = entries_for(x.datum_size);
            if let Some(prod) = entries.checked_mul(x.content_table) {
                if let Some(linear) = prod.checked_add(x.entry_index) {
                    if linear < 0x4000000 && x.entry_index < entries {
                        return CompactContentAddress(code as u32 + (linear as u32) * 64);
                    }
                }
            }
        }
        CompactContentAddress(code as u32)
    }
}

impl<'a> vstd::std_specs::convert::FromSpecImpl<&'a ContentAddress> for CompactContentAddress {
    open spec fn obeys_from_spec() -> bool {
        true
    }

    open spec fn from_spec(x: &'a ContentAddress) -> Self {
        CompactContentAddress(spec_to_compact(*x))
    }
}

impl From<ContentAddress> for CompactContentAddress {
    /// Packs an address into its 32-bit code.
    fn from(x: ContentAddress) -> (r: Self) {
        CompactContentAddress::from(&x)
    }
}

impl vstd::std_specs::convert::FromSpecImpl<ContentAddress> for CompactContentAddress {
    open spec fn obeys_from_spec() -> bool {
        true
    }

    open spec fn from_spec(x: ContentAddress) -> Self {
        CompactContentAddress(spec_to_compact(x))
    }
}

impl From<CompactContentAddress> for ContentAddress {
    /// Unpacks a 32-bit code into its three-part form.
    fn from(x: CompactContentAddress) -> (r: Self) {
        let class_byte: u8 = (x.0 % 64) as u8;
        let datum_size = DatumSize::from(class_byte);
        let entries: usize = datum_size.contents_entries();
        let rest: usize = (x.0 / 64) as usize;
        ContentAddress {
            datum_size,
            content_table: rest / entries,
            entry_index: rest % entries,
        }
    }
}

impl vstd::std_specs::convert::FromSpecImpl<CompactContentAddress> for ContentAddress {
    open spec fn obeys_from_spec() -> bool {
        true
    }

    open spec fn from_spec(x: CompactContentAddress) -> Self {
        spec_from_compact(x.0)
    }
}

impl CompactContentAddress {
    /// The three-part form of this code; a named form of the conversion for
    /// use inside the engine.
    pub fn decode(self) -> (r: ContentAddress)
        ensures
            r == spec_from_compact(self.0),
            r.valid(),
    {
        let r = ContentAddress::from(self);
        proof {
            let ds = spec_class_of_byte((self.0 as int % 64) as u8);
            let rest: int = self.0 as int / 64;
            vstd::arithmetic::div_mod::lemma_mod_division_less_than_divisor(rest, entries_of(ds));
            vstd::arithmetic::div_mod::lemma_fundamental_div_mod(rest, entries_of(ds));
            assert(r.spec_linear() == rest);
            assert(rest < 0x4000000);
        }
        r
    }
}

} // verus!
