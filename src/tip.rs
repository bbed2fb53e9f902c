//! The end of a store as its one writer sees it, and the append path that
//! keeps every block linked to the one before it.
use vstd::arithmetic::div_mod::lemma_mod_multiples_basic;
use vstd::prelude::*;
use vstd::slice::slice_to_vec;

use crate::chain::{
    block_at, block_region, block_total, chain_intact, digest_field, lemma_append_keeps_chain,
    size_error, well_sized, Layout,
};
use crate::digest::{digest, word_bytes, Digest};
use crate::error::Error;
use crate::sha256::sha256;

verus! {

/// Whether `tip` stands at the end of the intact store image `image`: the
/// blocks after the header are whole and not none, every link holds, and
/// the tip holds the digest of the last block.
pub open spec fn tip_tracks(image: Seq<u8>, tip: ChainTip) -> bool {
    let bs = tip.spec_layout()@;
    let h = tip.spec_layout().header_len();
    let reg = block_region(image, h);
    &&& image.len() >= h
    &&& well_sized(reg, bs)
    &&& chain_intact(reg, bs)
    &&& tip.spec_last() == sha256(block_at(reg, bs, block_total(reg, bs) - 1))
}

/// A store of a header and one block, with a tip that holds the digest of
/// that block, is one the tip stands at the end of.
pub proof fn lemma_genesis_tracks(image: Seq<u8>, tip: ChainTip)
    requires
        image.len() == tip.spec_layout().header_len() + tip.spec_layout()@,
        tip.spec_layout()@ > 0,
        tip.spec_last() == sha256(block_region(image, tip.spec_layout().header_len())),
    ensures
        tip_tracks(image, tip),
{
    let bs = tip.spec_layout()@;
    let reg = block_region(image, tip.spec_layout().header_len());
    lemma_mod_multiples_basic(1, bs as int);
    assert(block_total(reg, bs) == 1);
    assert(block_at(reg, bs, 0) =~= reg);
}

/// The end of a store as its one writer sees it: the layout, and the
/// digest of the last block, cached so that an append need not read the
/// last block back.
#[derive(Clone, Copy, Debug)]
pub struct ChainTip {
    layout: Layout,
    last_hash: Digest,
}

impl ChainTip {
    /// The layout of the store.
    pub closed spec fn spec_layout(&self) -> Layout {
        self.layout
    }

    /// The cached digest of the last block.
    pub closed spec fn spec_last(&self) -> Seq<u32> {
        self.last_hash@
    }

    /// The tip of a store whose last block is `last_block`.
    pub fn new(layout: Layout, last_block: &[u8]) -> (r: Result<ChainTip, Error>)
        ensures
            last_block@.len() != layout@ ==> r == Err::<ChainTip, Error>(Error::InvalidSliceLength),
            last_block@.len() == layout@ ==> (r matches Ok(t) && t.spec_layout() == layout
                && t.spec_last() == sha256(last_block@)),
    {
        if last_block.len() != layout.block_size() {
            return Err(Error::InvalidSliceLength);
        }
        Ok(ChainTip { layout, last_hash: digest(last_block) })
    }

    /// The tip of a store of `file_size` bytes whose last block is
    /// `last_block`. The store must meet the size rule of its layout.
    pub fn open(layout: Layout, file_size: u64, last_block: &[u8]) -> (r: Result<ChainTip, Error>)
        ensures
            match size_error(file_size as int, layout.header_len() as int, layout@ as int) {
                Some(e) => r == Err::<ChainTip, Error>(e),
                None => if last_block@.len() != layout@ {
                    r == Err::<ChainTip, Error>(Error::InvalidSliceLength)
                } else {
                    r matches Ok(t) && t.spec_layout() == layout && t.spec_last() == sha256(
                        last_block@,
                    )
                },
            },
    {
        match layout.validate_size(file_size) {
            Ok(()) => ChainTip::new(layout, last_block),
            Err(e) => Err(e),
        }
    }

    /// The layout of the store.
    pub fn layout(&self) -> (l: Layout)
        ensures
            l == self.spec_layout(),
    {
        self.layout
    }

    /// The cached digest of the last block.
    pub fn last_hash(&self) -> (d: Digest)
        ensures
            d@ == self.spec_last(),
    {
        self.last_hash
    }

    /// The block that appends the payload `data`: the cached digest of the
    /// last block in its digest field, then `data`, which must be exactly
    /// one payload long.
    pub fn next_block(&self, data: &[u8]) -> (r: Result<Vec<u8>, Error>)
        ensures
            data@.len() + 32 != self.spec_layout()@ ==> r == Err::<Vec<u8>, Error>(
                Error::InvalidSliceLength,
            ),
            data@.len() + 32 == self.spec_layout()@ ==> (r matches Ok(b) && b@ == word_bytes(
                self.spec_last(),
            ) + data@),
    {
        if data.len() != self.layout.payload_size() {
            return Err(Error::InvalidSliceLength);
        }
        let mut block = self.last_hash.to_bytes();
        let mut payload = slice_to_vec(data);
        block.append(&mut payload);
        Ok(block)
    }

    /// Records that `block` was written as the new last block.
    pub fn commit(&mut self, block: &[u8])
        ensures
            final(self).spec_layout() == old(self).spec_layout(),
            final(self).spec_last() == sha256(block@),
    {
        self.last_hash = digest(block);
    }

    /// Appends the payload `data` to the store image `image` as a new block
    /// that records the digest of the last one, and moves the tip to it.
    /// A tip that stood at the end of an intact image still does.
    pub fn append(&mut self, image: &mut Vec<u8>, data: &[u8]) -> (r: Result<(), Error>)
        ensures
            data@.len() + 32 != old(self).spec_layout()@ ==> {
                &&& r == Err::<(), Error>(Error::InvalidSliceLength)
                &&& final(image)@ == old(image)@
                &&& *final(self) == *old(self)
            },
            data@.len() + 32 == old(self).spec_layout()@ ==> {
                &&& r == Ok::<(), Error>(())
                &&& final(image)@ == old(image)@ + word_bytes(old(self).spec_last()) + data@
                &&& final(self).spec_layout() == old(self).spec_layout()
                &&& final(self).spec_last() == sha256(word_bytes(old(self).spec_last()) + data@)
            },
            tip_tracks(old(image)@, *old(self)) ==> tip_tracks(final(image)@, *final(self)),
    {
        let mut block = match self.next_block(data) {
            Ok(b) => b,
            Err(e) => {
                return Err(e);
            },
        };
        let ghost old_image = image@;
        let block_size = self.layout.block_size();
        let ghost bs = block_size as nat;
        let ghost h = self.layout.header_len();
        let ghost stamped = block@;
        proof {
            Digest::lemma_len(self.last_hash);
            assert(digest_field(stamped) =~= word_bytes(self.spec_last()));
            if tip_tracks(old_image, *self) {
                lemma_append_keeps_chain(block_region(old_image, h), bs, stamped);
            }
        }
        self.commit(block.as_slice());
        image.append(&mut block);
        proof {
            if tip_tracks(old_image, *old(self)) {
                let reg = block_region(old_image, h);
                assert(block_region(image@, h) =~= reg + stamped);
                assert(block_total(reg + stamped, bs) - 1 == block_total(reg, bs));
            }
        }
        Ok(())
    }
}

} // verus!
