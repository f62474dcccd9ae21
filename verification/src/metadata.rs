//! The versioned metadata envelope: magic, format version, and the two
//! persisted index parameters.

use vstd::prelude::*;
use crate::bytes::{u32_le, le32_val, get_u32, push_u32, lemma_u32_le_val};
use crate::error::Error;

verus! {

/// The current metadata format version.
pub const CURRENT_VERSION: u32 = 1;

/// The persisted parameters of a database: how many key bytes the index
/// stores and how many bits of them select the slot.
#[derive(Copy, Clone, PartialEq, Eq, Structural, Debug)]
pub struct MetadataV1 {
    pub key_bytes: usize,
    pub index_bits: usize,
}

/// The bytes of a metadata file: the magic `SBDB`, the version, then the two
/// parameters, all little-endian 32-bit words.
pub open spec fn metadata_bytes(key_bytes: int, index_bits: int) -> Seq<u8> {
    seq![0x53u8, 0x42u8, 0x44u8, 0x42u8] + u32_le(CURRENT_VERSION) + u32_le(key_bytes as u32)
        + u32_le(index_bits as u32)
}

/// Whether `b` opens with the magic.
pub open spec fn has_magic(b: Seq<u8>) -> bool {
    b.len() >= 4 && b[0] == 0x53 && b[1] == 0x42 && b[2] == 0x44 && b[3] == 0x42
}

/// The version field of `b`.
pub open spec fn version_of(b: Seq<u8>) -> int {
    le32_val(b[4], b[5], b[6], b[7])
}

impl MetadataV1 {
    /// The bytes this metadata writes.
    pub open spec fn spec_bytes(self) -> Seq<u8> {
        metadata_bytes(self.key_bytes as int, self.index_bits as int)
    }

    /// Serialises the metadata envelope.
    pub fn encode(&self) -> (r: Vec<u8>)
        requires
            self.key_bytes < 0x100000000,
            self.index_bits < 0x100000000,
        ensures
            r@ == self.spec_bytes(),
    {
        let mut out: Vec<u8> = Vec::new();
        out.push(0x53);
        out.push(0x42);
        out.push(0x44);
        out.push(0x42);
        proof {
            assert(out@ =~= seq![0x53u8, 0x42u8, 0x44u8, 0x42u8]);
        }
        push_u32(&mut out, CURRENT_VERSION);
        push_u32(&mut out, self.key_bytes as u32);
        push_u32(&mut out, self.index_bits as u32);
        proof {
            assert(out@ =~= self.spec_bytes());
        }
        out
    }

    /// Reads a metadata envelope back. A missing or foreign magic is bad
    /// metadata; a magic with any version but the current one is
    /// unsupported.
    pub fn decode(b: &Vec<u8>) -> (r: Result<Self, Error>)
        ensures
            match r {
                Ok(m) => {
                    &&& has_magic(b@)
                    &&& b@.len() >= 16
                    &&& version_of(b@) == CURRENT_VERSION
                    &&& m.key_bytes == le32_val(b@[8], b@[9], b@[10], b@[11])
                    &&& m.index_bits == le32_val(b@[12], b@[13], b@[14], b@[15])
                }
                Err(e) => {
                    &&& (e == Error::BadMetadata || e == Error::UnsupportedVersion)
                    &&& (e == Error::UnsupportedVersion <==> (has_magic(b@) && b@.len() >= 8
                        && version_of(b@) != CURRENT_VERSION))
                    &&& !(has_magic(b@) && b@.len() >= 16 && version_of(b@) == CURRENT_VERSION)
                }
            },
    {
        if b.len() < 4 {
            return Err(Error::BadMetadata);
        }
        if !(b[0] == 0x53 && b[1] == 0x42 && b[2] == 0x44 && b[3] == 0x42) {
            return Err(Error::BadMetadata);
        }
        if b.len() < 8 {
            return Err(Error::BadMetadata);
        }
        let version: u32 = get_u32(b, 4);
        if version != CURRENT_VERSION {
            return Err(Error::UnsupportedVersion);
        }
        if b.len() < 16 {
            return Err(Error::BadMetadata);
        }
        let key_bytes: u32 = get_u32(b, 8);
        let index_bits: u32 = get_u32(b, 12);
        Ok(MetadataV1 { key_bytes: key_bytes as usize, index_bits: index_bits as usize })
    }
}

/// What was written is read back unchanged.
pub proof fn lemma_metadata_round_trip(m: MetadataV1)
    requires
        m.key_bytes < 0x100000000,
        m.index_bits < 0x100000000,
    ensures
        has_magic(m.spec_bytes()),
        m.spec_bytes().len() == 16,
        version_of(m.spec_bytes()) == CURRENT_VERSION,
        le32_val(m.spec_bytes()[8], m.spec_bytes()[9], m.spec_bytes()[10], m.spec_bytes()[11])
            == m.key_bytes,
        le32_val(m.spec_bytes()[12], m.spec_bytes()[13], m.spec_bytes()[14], m.spec_bytes()[15])
            == m.index_bits,
{
    lemma_u32_le_val(CURRENT_VERSION);
    lemma_u32_le_val(m.key_bytes as u32);
    lemma_u32_le_val(m.index_bits as u32);
    let s = m.spec_bytes();
    assert(s[4] == u32_le(CURRENT_VERSION)[0]);
    assert(s[5] == u32_le(CURRENT_VERSION)[1]);
    assert(s[6] == u32_le(CURRENT_VERSION)[2]);
    assert(s[7] == u32_le(CURRENT_VERSION)[3]);
    assert(s[8] == u32_le(m.key_bytes as u32)[0]);
    assert(s[9] == u32_le(m.key_bytes as u32)[1]);
    assert(s[10] == u32_le(m.key_bytes as u32)[2]);
    assert(s[11] == u32_le(m.key_bytes as u32)[3]);
    assert(s[12] == u32_le(m.index_bits as u32)[0]);
    assert(s[13] == u32_le(m.index_bits as u32)[1]);
    assert(s[14] == u32_le(m.index_bits as u32)[2]);
    assert(s[15] == u32_le(m.index_bits as u32)[3]);
}

} // verus!
