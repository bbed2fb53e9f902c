//! The record that each block of a store carries: a timestamp, a user id, a
//! version tag, the size of some off-chain data and the digest of that data.
use vstd::bytes::*;
use vstd::prelude::*;
use vstd::slice::slice_subrange;

use crate::codec::{copy_into, Deserialize, Serialize};
use crate::digest::{digest, lemma_words_of_word_bytes, word_bytes, words_of, Digest};
use crate::error::Error;
use crate::sha256::sha256;

verus! {

/// The length of an encoded record in bytes.
pub const BLOCK_SIZE: usize = 64;

/// Where the timestamp starts in an encoded record (8 bytes, little-endian).
pub const TIMESTAMP_OFFSET: usize = 0;

/// Where the user id starts in an encoded record (8 bytes, little-endian).
pub const USER_ID_OFFSET: usize = 8;

/// Where the version tag starts in an encoded record (8 bytes, little-endian).
pub const VERSION_OFFSET: usize = 16;

/// Where the data size starts in an encoded record (8 bytes, little-endian).
pub const DATA_SIZE_OFFSET: usize = 24;

/// Where the digest of the off-chain data starts in an encoded record (32 bytes).
pub const MERKLE_ROOT_OFFSET: usize = 32;

/// One record: what the store keeps about a piece of off-chain data.
#[derive(Clone, Copy, Debug)]
pub struct Block {
    /// Seconds since the Unix epoch.
    pub timestamp: i64,
    pub user_id: u64,
    pub version: u64,
    /// The length in bytes of the off-chain data.
    pub data_size: u64,
    /// The digest of the off-chain data.
    pub merkle_root: Digest,
}

/// The eight bytes of `x`, least significant first.
pub open spec fn le64(x: u64) -> Seq<u8> {
    spec_u64_to_le_bytes(x)
}

/// The value of eight bytes, least significant first.
pub open spec fn from_le64(b: Seq<u8>) -> u64 {
    spec_u64_from_le_bytes(b)
}

impl Block {
    /// A record of `data` made at `timestamp`, in seconds since the Unix
    /// epoch: the data's size and its digest. The caller reads the clock.
    pub fn new(timestamp: i64, user_id: u64, version: u64, data: &[u8]) -> (b: Block)
        ensures
            b.timestamp == timestamp,
            b.user_id == user_id,
            b.version == version,
            b.data_size == data@.len(),
            b.merkle_root@ == sha256(data@),
    {
        Block {
            timestamp,
            user_id,
            version,
            data_size: data.len() as u64,
            merkle_root: digest(data),
        }
    }
}

impl PartialEq for Block {
    fn eq(&self, other: &Block) -> (r: bool) {
        self.timestamp == other.timestamp && self.user_id == other.user_id && self.version
            == other.version && self.data_size == other.data_size && self.merkle_root
            == other.merkle_root
    }
}

impl vstd::std_specs::cmp::PartialEqSpecImpl for Block {
    open spec fn obeys_eq_spec() -> bool {
        true
    }

    open spec fn eq_spec(&self, other: &Block) -> bool {
        &&& self.timestamp == other.timestamp
        &&& self.user_id == other.user_id
        &&& self.version == other.version
        &&& self.data_size == other.data_size
        &&& self.merkle_root@ == other.merkle_root@
    }
}

impl Eq for Block {

}

impl Serialize for Block {
    open spec fn encoding(&self) -> Seq<u8> {
        le64(self.timestamp as u64) + le64(self.user_id) + le64(self.version) + le64(self.data_size)
            + word_bytes(self.merkle_root@)
    }

    fn serialize(&self, buf: &mut [u8]) -> (r: Result<(), Error>) {
        proof {
            lemma_auto_spec_u64_to_from_le_bytes();
            Digest::lemma_len(self.merkle_root);
        }
        if buf.len() != BLOCK_SIZE {
            return Err(Error::InvalidSliceLength);
        }
        let mut enc = u64_to_le_bytes(self.timestamp as u64);
        let mut user_id = u64_to_le_bytes(self.user_id);
        let mut version = u64_to_le_bytes(self.version);
        let mut data_size = u64_to_le_bytes(self.data_size);
        let mut root = self.merkle_root.to_bytes();
        enc.append(&mut user_id);
        enc.append(&mut version);
        enc.append(&mut data_size);
        enc.append(&mut root);
        copy_into(buf, enc.as_slice());
        Ok(())
    }
}

impl Deserialize for Block {
    open spec fn decodable(bytes: Seq<u8>) -> bool {
        bytes.len() == 64
    }

    open spec fn decodes(bytes: Seq<u8>, value: Block) -> bool {
        &&& value.timestamp == from_le64(bytes.subrange(0, 8)) as i64
        &&& value.user_id == from_le64(bytes.subrange(8, 16))
        &&& value.version == from_le64(bytes.subrange(16, 24))
        &&& value.data_size == from_le64(bytes.subrange(24, 32))
        &&& value.merkle_root@ == words_of(bytes.subrange(32, 64))
    }

    fn deserialize(buf: &[u8]) -> (r: Result<Block, Error>) {
        if buf.len() != BLOCK_SIZE {
            return Err(Error::InvalidSliceLength);
        }
        let timestamp = u64_from_le_bytes(slice_subrange(buf, TIMESTAMP_OFFSET, USER_ID_OFFSET)) as i64;
        let user_id = u64_from_le_bytes(slice_subrange(buf, USER_ID_OFFSET, VERSION_OFFSET));
        let version = u64_from_le_bytes(slice_subrange(buf, VERSION_OFFSET, DATA_SIZE_OFFSET));
        let data_size = u64_from_le_bytes(slice_subrange(buf, DATA_SIZE_OFFSET, MERKLE_ROOT_OFFSET));
        let merkle_root = match Digest::deserialize(slice_subrange(buf, MERKLE_ROOT_OFFSET, BLOCK_SIZE)) {
            Ok(d) => d,
            Err(e) => {
                return Err(e);
            },
        };
        Ok(Block { timestamp, user_id, version, data_size, merkle_root })
    }
}

/// Reading back the encoding of a record gives that record and no other.
pub proof fn lemma_block_round_trip(b: Block, c: Block)
    ensures
        Block::decodable(b.encoding()),
        Block::decodes(b.encoding(), c) <==> c == b,
{
    lemma_auto_spec_u64_to_from_le_bytes();
    Digest::lemma_len(b.merkle_root);
    lemma_words_of_word_bytes(b.merkle_root@);
    let e = b.encoding();
    let ts = b.timestamp;
    assert(e.subrange(0, 8) =~= le64(ts as u64));
    assert(e.subrange(8, 16) =~= le64(b.user_id));
    assert(e.subrange(16, 24) =~= le64(b.version));
    assert(e.subrange(24, 32) =~= le64(b.data_size));
    assert(e.subrange(32, 64) =~= word_bytes(b.merkle_root@));
    assert((ts as u64) as i64 == ts) by (bit_vector);
    if Block::decodes(e, c) {
        Digest::lemma_view_eq(c.merkle_root, b.merkle_root);
    }
}

} // verus!
