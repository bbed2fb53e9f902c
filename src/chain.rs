//! The layout of a store: blocks of one fixed size, each starting with the
//! digest of the block before it; and the rules that check sizes, offsets,
//! reads, links and appends against that layout.
use vstd::arithmetic::div_mod::{lemma_fundamental_div_mod, lemma_mod_multiples_basic};
use vstd::bytes::*;
use vstd::prelude::*;
use vstd::slice::{slice_subrange, slice_to_vec};

use crate::codec::{Deserialize, Serialize};
use crate::digest::{
    digest, lemma_word_bytes_of_words, lemma_words_of_word_bytes, word_bytes, words_of, Digest,
    DIGEST_SIZE,
};
use crate::error::Error;
use crate::sha256::{initial_state, lemma_sha256_len, sha256};

verus! {

/// The layout of one store: the size of its blocks in bytes, and whether a
/// size header precedes them. A block holds the digest of its predecessor
/// and a payload of at least one byte, and its size fits the 32-bit header.
#[derive(Clone, Copy, Debug)]
pub struct Layout {
    block_size: usize,
    header_size: usize,
}

impl View for Layout {
    type V = nat;

    closed spec fn view(&self) -> nat {
        self.block_size as nat
    }
}

/// The length of the size header that precedes the blocks of a store that
/// declares its block size.
pub const HEADER_SIZE: usize = 4;

/// The block size that a size header declares: its four bytes, little-endian.
pub open spec fn header_block_size(header: Seq<u8>) -> nat {
    spec_u32_from_le_bytes(header.subrange(0, 4)) as nat
}

/// The bytes that precede the blocks of a store: the block size as four
/// little-endian bytes where the store declares it, else nothing.
pub open spec fn header_bytes(header_len: nat, block_size: nat) -> Seq<u8> {
    if header_len == 0 {
        Seq::empty()
    } else {
        spec_u32_to_le_bytes(block_size as u32)
    }
}

/// The blocks of a store image: what follows its header.
pub open spec fn block_region(image: Seq<u8>, header_len: nat) -> Seq<u8> {
    image.subrange(header_len as int, image.len() as int)
}

/// How a store of `file_size` bytes, whose blocks of `bs` bytes follow a
/// header of `header_len` bytes, breaks the size rule, if it does: a store
/// holds at least one block, and whole blocks only.
pub open spec fn size_error(file_size: int, header_len: int, bs: int) -> Option<Error> {
    if file_size == 0 {
        Some(Error::FileIsEmpty)
    } else if file_size < header_len {
        Some(Error::InvalidFileSize)
    } else if file_size == header_len {
        Some(Error::FileIsEmpty)
    } else if (file_size - header_len) % bs != 0 {
        Some(Error::InvalidFileSize)
    } else {
        None
    }
}

/// Block `i` of the store image `image`, whose blocks are `bs` bytes each.
pub open spec fn block_at(image: Seq<u8>, bs: nat, i: int) -> Seq<u8> {
    image.subrange(i * bs, i * bs + bs)
}

/// The digest field at the start of a block.
pub open spec fn digest_field(block: Seq<u8>) -> Seq<u8> {
    block.subrange(0, 32)
}

/// Whether a store image is not empty and holds whole blocks of `bs` bytes.
pub open spec fn well_sized(image: Seq<u8>, bs: nat) -> bool {
    image.len() > 0 && image.len() % bs == 0
}

/// The number of whole blocks of `bs` bytes in a store image.
pub open spec fn block_total(image: Seq<u8>, bs: nat) -> int {
    image.len() as int / bs as int
}

/// Whether block `i` records the digest of block `i - 1` in its digest field.
pub open spec fn link_holds(image: Seq<u8>, bs: nat, i: int) -> bool {
    digest_field(block_at(image, bs, i)) == word_bytes(sha256(block_at(image, bs, i - 1)))
}

/// Whether every block but the genesis block records the digest of its predecessor.
pub open spec fn chain_intact(image: Seq<u8>, bs: nat) -> bool {
    forall|i: int| 1 <= i < block_total(image, bs) ==> #[trigger] link_holds(image, bs, i)
}

/// Whether `i` is the first block whose link to its predecessor is broken.
pub open spec fn first_broken_link(image: Seq<u8>, bs: nat, i: int) -> bool {
    &&& 1 <= i < block_total(image, bs)
    &&& !link_holds(image, bs, i)
    &&& forall|j: int| 1 <= j < i ==> #[trigger] link_holds(image, bs, j)
}

/// A store image that is well sized holds at least one block.
pub proof fn lemma_well_sized_not_empty(image: Seq<u8>, bs: nat)
    requires
        bs > 0,
        well_sized(image, bs),
    ensures
        block_total(image, bs) >= 1,
        block_total(image, bs) * bs == image.len(),
{
    let len = image.len() as int;
    let q = len / bs as int;
    lemma_fundamental_div_mod(len, bs as int);
    assert(q >= 1) by (nonlinear_arith)
        requires
            bs > 0,
            len > 0,
            len == bs * q,
    ;
    assert(q * bs == len) by (nonlinear_arith)
        requires
            len == bs * q,
    ;
}

/// A block that lies before the end of the image lies inside it.
pub proof fn lemma_block_in_bounds(len: int, bs: int, i: int)
    requires
        bs > 0,
        len >= 0,
        0 <= i < len / bs,
    ensures
        0 <= i * bs,
        i * bs + bs <= len,
{
    let q = len / bs;
    lemma_fundamental_div_mod(len, bs);
    assert(i * bs + bs <= len) by (nonlinear_arith)
        requires
            bs > 0,
            0 <= i < q,
            len == bs * q + len % bs,
            len % bs >= 0,
    ;
    assert(0 <= i * bs) by (nonlinear_arith)
        requires
            bs > 0,
            0 <= i,
    ;
}

/// Checks the size rule on a store of `file_size` bytes whose blocks of
/// `bs` bytes follow a header of `header_len` bytes.
fn check_size(file_size: u64, header_len: usize, bs: usize) -> (r: Result<(), Error>)
    requires
        bs > 0,
    ensures
        match size_error(file_size as int, header_len as int, bs as int) {
            Some(e) => r == Err::<(), Error>(e),
            None => r == Ok::<(), Error>(()),
        },
{
    let h = header_len as u64;
    if file_size == 0 {
        Err(Error::FileIsEmpty)
    } else if file_size < h {
        Err(Error::InvalidFileSize)
    } else if file_size == h {
        Err(Error::FileIsEmpty)
    } else if (file_size - h) % bs as u64 != 0 {
        Err(Error::InvalidFileSize)
    } else {
        Ok(())
    }
}

impl Layout {
    #[verifier::type_invariant]
    spec fn inv(self) -> bool {
        &&& DIGEST_SIZE < self.block_size <= u32::MAX
        &&& (self.header_size == 0 || self.header_size == HEADER_SIZE)
    }

    /// The length of the size header before the blocks: four bytes, or none
    /// for a store whose block size its caller fixes.
    pub closed spec fn header_len(&self) -> nat {
        self.header_size as nat
    }

    /// The layout of a store that declares its block size in a header, with
    /// blocks that carry payloads of `payload_size` bytes.
    pub fn new(payload_size: usize) -> (r: Result<Layout, Error>)
        ensures
            payload_size > u32::MAX - 32 ==> r == Err::<Layout, Error>(Error::BlockSizeTooBig),
            payload_size == 0 ==> r == Err::<Layout, Error>(Error::ZeroBlockSize),
            0 < payload_size <= u32::MAX - 32 ==> (r matches Ok(l) && l@ == payload_size + 32
                && l.header_len() == 4),
    {
        if payload_size > u32::MAX as usize - DIGEST_SIZE {
            Err(Error::BlockSizeTooBig)
        } else if payload_size == 0 {
            Err(Error::ZeroBlockSize)
        } else {
            Ok(Layout { block_size: payload_size + DIGEST_SIZE, header_size: HEADER_SIZE })
        }
    }

    /// The layout of a store without a header, whose block size the caller
    /// fixes, with blocks that carry payloads of `payload_size` bytes.
    pub fn fixed(payload_size: usize) -> (r: Result<Layout, Error>)
        ensures
            payload_size > u32::MAX - 32 ==> r == Err::<Layout, Error>(Error::BlockSizeTooBig),
            payload_size == 0 ==> r == Err::<Layout, Error>(Error::ZeroBlockSize),
            0 < payload_size <= u32::MAX - 32 ==> (r matches Ok(l) && l@ == payload_size + 32
                && l.header_len() == 0),
    {
        if payload_size > u32::MAX as usize - DIGEST_SIZE {
            Err(Error::BlockSizeTooBig)
        } else if payload_size == 0 {
            Err(Error::ZeroBlockSize)
        } else {
            Ok(Layout { block_size: payload_size + DIGEST_SIZE, header_size: 0 })
        }
    }

    /// The layout of an existing store of `file_size` bytes that declares its
    /// block size in the header `header`, its first four bytes. The store
    /// must hold whole blocks of that size, and a block must leave room for
    /// a payload.
    pub fn of_store(header: &[u8], file_size: u64) -> (r: Result<Layout, Error>)
        ensures
            file_size == 0 ==> r == Err::<Layout, Error>(Error::FileIsEmpty),
            0 < file_size < 4 ==> r == Err::<Layout, Error>(Error::InvalidFileSize),
            file_size >= 4 && header@.len() < 4 ==> r == Err::<Layout, Error>(
                Error::InvalidSliceLength,
            ),
            file_size >= 4 && header@.len() >= 4 && header_block_size(header@) == 0 ==> r
                == Err::<Layout, Error>(Error::ZeroBlockSize),
            file_size >= 4 && header@.len() >= 4 && header_block_size(header@) > 0 ==> match size_error(
                file_size as int,
                4,
                header_block_size(header@) as int,
            ) {
                Some(e) => r == Err::<Layout, Error>(e),
                None => if header_block_size(header@) <= 32 {
                    r == Err::<Layout, Error>(Error::ZeroBlockSize)
                } else {
                    r matches Ok(l) && l@ == header_block_size(header@) && l.header_len() == 4
                },
            },
    {
        if file_size == 0 {
            return Err(Error::FileIsEmpty);
        }
        if file_size < HEADER_SIZE as u64 {
            return Err(Error::InvalidFileSize);
        }
        if header.len() < HEADER_SIZE {
            return Err(Error::InvalidSliceLength);
        }
        let size = u32_from_le_bytes(slice_subrange(header, 0, HEADER_SIZE)) as usize;
        if size == 0 {
            return Err(Error::ZeroBlockSize);
        }
        match check_size(file_size, HEADER_SIZE, size) {
            Ok(()) => {},
            Err(e) => {
                return Err(e);
            },
        }
        if size <= DIGEST_SIZE {
            Err(Error::ZeroBlockSize)
        } else {
            Ok(Layout { block_size: size, header_size: HEADER_SIZE })
        }
    }

    /// The size of a block in bytes, the digest field included.
    pub fn block_size(&self) -> (r: usize)
        ensures
            r == self@,
            32 < r <= u32::MAX,
    {
        proof {
            use_type_invariant(self);
        }
        self.block_size
    }

    /// The length of the size header before the blocks.
    pub fn header_size(&self) -> (r: usize)
        ensures
            r == self.header_len(),
            r == 0 || r == 4,
    {
        proof {
            use_type_invariant(self);
        }
        self.header_size
    }

    /// The size of a block's payload in bytes.
    pub fn payload_size(&self) -> (r: usize)
        ensures
            r == self@ - 32,
            0 < r,
    {
        proof {
            use_type_invariant(self);
        }
        self.block_size - DIGEST_SIZE
    }

    /// The bytes that precede the blocks of a store of this layout.
    pub fn header(&self) -> (r: Vec<u8>)
        ensures
            r@ == header_bytes(self.header_len(), self@),
    {
        proof {
            use_type_invariant(self);
        }
        if self.header_size == 0 {
            Vec::new()
        } else {
            u32_to_le_bytes(self.block_size as u32)
        }
    }

    /// Checks that a store of `file_size` bytes holds at least one block
    /// after its header, and whole blocks only.
    pub fn validate_size(&self, file_size: u64) -> (r: Result<(), Error>)
        ensures
            match size_error(file_size as int, self.header_len() as int, self@ as int) {
                Some(e) => r == Err::<(), Error>(e),
                None => r == Ok::<(), Error>(()),
            },
    {
        proof {
            use_type_invariant(self);
        }
        check_size(file_size, self.header_size, self.block_size)
    }

    /// The number of blocks in a store of `file_size` bytes.
    pub fn block_count(&self, file_size: u64) -> (r: Result<u64, Error>)
        ensures
            match size_error(file_size as int, self.header_len() as int, self@ as int) {
                Some(e) => r == Err::<u64, Error>(e),
                None => r == Ok::<u64, Error>(
                    ((file_size - self.header_len()) / self@ as int) as u64,
                ),
            },
    {
        proof {
            use_type_invariant(self);
        }
        match self.validate_size(file_size) {
            Ok(()) => Ok((file_size - self.header_size as u64) / self.block_size as u64),
            Err(e) => Err(e),
        }
    }

    /// The byte offset at which block `index` starts, after the header.
    pub fn offset_of(&self, index: u64) -> (r: Result<u64, Error>)
        ensures
            self.header_len() + index * self@ > u64::MAX ==> r == Err::<u64, Error>(
                Error::IntegerOverflow,
            ),
            self.header_len() + index * self@ <= u64::MAX ==> r == Ok::<u64, Error>(
                (self.header_len() + index * self@) as u64,
            ),
    {
        proof {
            use_type_invariant(self);
        }
        match index.checked_mul(self.block_size as u64) {
            Some(pos) => match pos.checked_add(self.header_size as u64) {
                Some(p) => Ok(p),
                None => Err(Error::IntegerOverflow),
            },
            None => {
                assert(self.header_len() + index * self@ > u64::MAX);
                Err(Error::IntegerOverflow)
            },
        }
    }

    /// Checks that a stream position lies on a block boundary.
    pub fn check_position(&self, pos: u64) -> (r: Result<u64, Error>)
        ensures
            pos >= self.header_len() && (pos - self.header_len()) % (self@ as int) == 0 ==> r
                == Ok::<u64, Error>(pos),
            !(pos >= self.header_len() && (pos - self.header_len()) % (self@ as int) == 0) ==> r
                == Err::<u64, Error>(Error::BadStreamPosition(pos)),
    {
        proof {
            use_type_invariant(self);
        }
        let h = self.header_size as u64;
        if pos < h || (pos - h) % self.block_size as u64 != 0 {
            Err(Error::BadStreamPosition(pos))
        } else {
            Ok(pos)
        }
    }

    /// Checks that a buffer of `len` bytes holds exactly one block.
    pub fn check_block_buffer(&self, len: usize) -> (r: Result<(), Error>)
        ensures
            len != self@ ==> r == Err::<(), Error>(Error::InvalidSliceLength),
            len == self@ ==> r == Ok::<(), Error>(()),
    {
        proof {
            use_type_invariant(self);
        }
        if len != self.block_size {
            Err(Error::InvalidSliceLength)
        } else {
            Ok(())
        }
    }

    /// Checks that a buffer of `len` bytes holds exactly one payload.
    pub fn check_data_buffer(&self, len: usize) -> (r: Result<(), Error>)
        ensures
            len != self@ - 32 ==> r == Err::<(), Error>(Error::InvalidSliceLength),
            len == self@ - 32 ==> r == Ok::<(), Error>(()),
    {
        proof {
            use_type_invariant(self);
        }
        if len != self.block_size - DIGEST_SIZE {
            Err(Error::InvalidSliceLength)
        } else {
            Ok(())
        }
    }

    /// The bytes of a new store: the header, then the genesis block, whose
    /// digest field holds the initial digest and whose payload is the
    /// encoding of `data`, which must be exactly one payload long.
    pub fn genesis<T: Serialize>(&self, data: &T) -> (r: Result<Vec<u8>, Error>)
        ensures
            data.encoding().len() != self@ - 32 ==> r == Err::<Vec<u8>, Error>(
                Error::InvalidSliceLength,
            ),
            data.encoding().len() == self@ - 32 ==> (r matches Ok(b) && b@ == header_bytes(
                self.header_len(),
                self@,
            ) + word_bytes(initial_state()) + data.encoding()),
    {
        proof {
            use_type_invariant(self);
        }
        let payload_size: usize = self.block_size - DIGEST_SIZE;
        let mut payload: Vec<u8> = vec![0u8; payload_size];
        match data.serialize(payload.as_mut_slice()) {
            Ok(()) => {},
            Err(e) => {
                return Err(e);
            },
        }
        let mut image = self.header();
        let mut field = Digest::initial().to_bytes();
        image.append(&mut field);
        image.append(&mut payload);
        Ok(image)
    }

    /// Where block `index` starts in a store of `file_size` bytes, if the
    /// store holds that block.
    pub fn locate_block(&self, index: u64, file_size: u64) -> (r: Result<u64, Error>)
        ensures
            match size_error(file_size as int, self.header_len() as int, self@ as int) {
                Some(e) => r == Err::<u64, Error>(e),
                None => if index >= (file_size - self.header_len()) / (self@ as int) {
                    r == Err::<u64, Error>(Error::BlockNumDoesNotExist)
                } else {
                    r == Ok::<u64, Error>((self.header_len() + index * self@) as u64)
                },
            },
    {
        proof {
            use_type_invariant(self);
        }
        let count = match self.block_count(file_size) {
            Ok(n) => n,
            Err(e) => {
                return Err(e);
            },
        };
        if index >= count {
            return Err(Error::BlockNumDoesNotExist);
        }
        let h = self.header_size as u64;
        proof {
            lemma_block_in_bounds((file_size - h) as int, self.block_size as int, index as int);
        }
        Ok(h + index * self.block_size as u64)
    }

    /// Where the last block starts in a store of `file_size` bytes.
    pub fn last_block_offset(&self, file_size: u64) -> (r: Result<u64, Error>)
        ensures
            match size_error(file_size as int, self.header_len() as int, self@ as int) {
                Some(e) => r == Err::<u64, Error>(e),
                None => r == Ok::<u64, Error>((file_size - self@) as u64),
            },
    {
        proof {
            use_type_invariant(self);
        }
        match self.validate_size(file_size) {
            Ok(()) => {
                proof {
                    lemma_fundamental_div_mod(
                        (file_size - self.header_size) as int,
                        self.block_size as int,
                    );
                    let q = (file_size - self.header_size) as int / self.block_size as int;
                    let b = self.block_size as int;
                    let n = (file_size - self.header_size) as int;
                    assert(n >= b) by (nonlinear_arith)
                        requires
                            n > 0,
                            b > 0,
                            n == b * q,
                    ;
                }
                Ok(file_size - self.block_size as u64)
            },
            Err(e) => Err(e),
        }
    }

    /// Where the pair of blocks that link block `index` to its predecessor
    /// starts, in a store of `file_size` bytes; none for the genesis block,
    /// which has no predecessor.
    pub fn link_span(&self, index: u64, file_size: u64) -> (r: Result<Option<u64>, Error>)
        ensures
            match size_error(file_size as int, self.header_len() as int, self@ as int) {
                Some(e) => r == Err::<Option<u64>, Error>(e),
                None => if index >= (file_size - self.header_len()) / (self@ as int) {
                    r == Err::<Option<u64>, Error>(Error::BlockNumDoesNotExist)
                } else if index == 0 {
                    r == Ok::<Option<u64>, Error>(None)
                } else {
                    r == Ok::<Option<u64>, Error>(
                        Some((self.header_len() + (index - 1) * self@) as u64),
                    )
                },
            },
    {
        proof {
            use_type_invariant(self);
        }
        match self.locate_block(index, file_size) {
            Ok(pos) => {
                if index == 0 {
                    Ok(None)
                } else {
                    proof {
                        let b = self.block_size as int;
                        let i = index as int;
                        assert((i - 1) * b == i * b - b) by (nonlinear_arith);
                        assert(i * b >= b) by (nonlinear_arith)
                            requires
                                i >= 1,
                                b > 0,
                        ;
                        lemma_block_in_bounds(
                            file_size - self.header_size,
                            b,
                            i,
                        );
                    }
                    Ok(Some(pos - self.block_size as u64))
                }
            },
            Err(e) => Err(e),
        }
    }

    /// Checks that the second of two consecutive blocks, `pair`, records
    /// the digest of the first; a broken link is reported as block `index`.
    pub fn check_link_pair(&self, index: u64, pair: &[u8]) -> (r: Result<(), Error>)
        ensures
            pair@.len() != 2 * self@ ==> r == Err::<(), Error>(Error::InvalidSliceLength),
            pair@.len() == 2 * self@ ==> r == (if link_holds(pair@, self@, 1) {
                Ok::<(), Error>(())
            } else {
                Err::<(), Error>(Error::InvalidBlockHash(index))
            }),
    {
        proof {
            use_type_invariant(self);
        }
        let bs = self.block_size;
        if pair.len() / 2 != bs || pair.len() % 2 != 0 {
            return Err(Error::InvalidSliceLength);
        }
        proof {
            lemma_mod_multiples_basic(2, bs as int);
            assert(pair@.len() as int / bs as int == 2) by (nonlinear_arith)
                requires
                    pair@.len() == 2 * bs,
                    bs > 0,
            ;
        }
        if self.check_link(pair, 1, bs) {
            Ok(())
        } else {
            Err(Error::InvalidBlockHash(index))
        }
    }

    /// The blocks of a store image that holds at least its header.
    fn region<'a>(&self, image: &'a [u8]) -> (r: &'a [u8])
        requires
            image@.len() >= self.header_len(),
        ensures
            r@ == block_region(image@, self.header_len()),
    {
        proof {
            use_type_invariant(self);
        }
        slice_subrange(image, self.header_size, image.len())
    }

    /// The blocks of a store image that meets the size rule, and how many
    /// there are.
    fn checked_region<'a>(&self, image: &'a [u8]) -> (r: Result<(&'a [u8], usize), Error>)
        ensures
            match size_error(image@.len() as int, self.header_len() as int, self@ as int) {
                Some(e) => r == Err::<(&'a [u8], usize), Error>(e),
                None => r matches Ok((reg, n)) && reg@ == block_region(image@, self.header_len())
                    && well_sized(reg@, self@) && n == block_total(reg@, self@),
            },
    {
        proof {
            use_type_invariant(self);
        }
        match self.validate_size(image.len() as u64) {
            Ok(()) => {
                let reg = self.region(image);
                Ok((reg, reg.len() / self.block_size))
            },
            Err(e) => Err(e),
        }
    }

    /// A copy of block `index` of the store image `image`.
    pub fn read_block_at(&self, image: &[u8], index: u64) -> (r: Result<Vec<u8>, Error>)
        ensures
            match size_error(image@.len() as int, self.header_len() as int, self@ as int) {
                Some(e) => r == Err::<Vec<u8>, Error>(e),
                None => {
                    let reg = block_region(image@, self.header_len());
                    if index >= block_total(reg, self@) {
                        r == Err::<Vec<u8>, Error>(Error::BlockNumDoesNotExist)
                    } else {
                        r matches Ok(b) && b@ == block_at(reg, self@, index as int)
                    }
                },
            },
    {
        proof {
            use_type_invariant(self);
        }
        let (reg, count) = match self.checked_region(image) {
            Ok(p) => p,
            Err(e) => {
                return Err(e);
            },
        };
        if index >= count as u64 {
            return Err(Error::BlockNumDoesNotExist);
        }
        let bs = self.block_size;
        let n: usize = reg.len();
        proof {
            lemma_block_in_bounds(n as int, bs as int, index as int);
        }
        let start = index as usize * bs;
        Ok(slice_to_vec(slice_subrange(reg, start, start + bs)))
    }

    /// A copy of the payload of block `index` of the store image `image`:
    /// the block without its digest field.
    pub fn read_data_at(&self, image: &[u8], index: u64) -> (r: Result<Vec<u8>, Error>)
        ensures
            match size_error(image@.len() as int, self.header_len() as int, self@ as int) {
                Some(e) => r == Err::<Vec<u8>, Error>(e),
                None => {
                    let reg = block_region(image@, self.header_len());
                    if index >= block_total(reg, self@) {
                        r == Err::<Vec<u8>, Error>(Error::BlockNumDoesNotExist)
                    } else {
                        r matches Ok(b) && b@ == block_at(reg, self@, index as int).subrange(
                            32,
                            self@ as int,
                        )
                    }
                },
            },
    {
        proof {
            use_type_invariant(self);
        }
        let (reg, count) = match self.checked_region(image) {
            Ok(p) => p,
            Err(e) => {
                return Err(e);
            },
        };
        if index >= count as u64 {
            return Err(Error::BlockNumDoesNotExist);
        }
        let bs = self.block_size;
        let n: usize = reg.len();
        proof {
            lemma_block_in_bounds(n as int, bs as int, index as int);
        }
        let start = index as usize * bs;
        let b = slice_to_vec(slice_subrange(reg, start + DIGEST_SIZE, start + bs));
        assert(b@ =~= block_at(reg@, self@, index as int).subrange(32, self@ as int));
        Ok(b)
    }

    /// Whether block `i` of the blocks `reg`, which starts at `start`,
    /// records the digest of block `i - 1`.
    fn check_link(&self, reg: &[u8], i: usize, start: usize) -> (r: bool)
        requires
            well_sized(reg@, self@),
            1 <= i < block_total(reg@, self@),
            start == i * self@,
        ensures
            r == link_holds(reg@, self@, i as int),
    {
        proof {
            use_type_invariant(self);
        }
        let bs = self.block_size;
        let n: usize = reg.len();
        proof {
            lemma_block_in_bounds(reg@.len() as int, bs as int, i as int);
            lemma_block_in_bounds(reg@.len() as int, bs as int, i - 1);
            assert((i - 1) * bs == i * bs - bs) by (nonlinear_arith);
        }
        let computed = digest(slice_subrange(reg, start - bs, start));
        let field = slice_subrange(reg, start, start + DIGEST_SIZE);
        let recorded = match Digest::deserialize(field) {
            Ok(d) => d,
            Err(_) => computed,
        };
        let ghost prev = block_at(reg@, self@, i - 1);
        let ghost cur = block_at(reg@, self@, i as int);
        assert(prev =~= reg@.subrange(start - bs, start as int));
        assert(digest_field(cur) =~= field@);
        proof {
            Digest::lemma_len(computed);
            lemma_words_of_word_bytes(computed@);
            lemma_word_bytes_of_words(field@);
        }
        computed == recorded
    }

    /// Checks that block `index` of `image` records the digest of block
    /// `index - 1`. The genesis block has no predecessor and always passes.
    pub fn validate_block_at(&self, image: &[u8], index: u64) -> (r: Result<(), Error>)
        ensures
            match size_error(image@.len() as int, self.header_len() as int, self@ as int) {
                Some(e) => r == Err::<(), Error>(e),
                None => {
                    let reg = block_region(image@, self.header_len());
                    if index >= block_total(reg, self@) {
                        r == Err::<(), Error>(Error::BlockNumDoesNotExist)
                    } else if index == 0 || link_holds(reg, self@, index as int) {
                        r == Ok::<(), Error>(())
                    } else {
                        r == Err::<(), Error>(Error::InvalidBlockHash(index))
                    }
                },
            },
    {
        proof {
            use_type_invariant(self);
        }
        let (reg, count) = match self.checked_region(image) {
            Ok(p) => p,
            Err(e) => {
                return Err(e);
            },
        };
        if index >= count as u64 {
            return Err(Error::BlockNumDoesNotExist);
        }
        if index == 0 {
            return Ok(());
        }
        let n: usize = reg.len();
        proof {
            lemma_block_in_bounds(n as int, self.block_size as int, index as int);
        }
        if self.check_link(reg, index as usize, index as usize * self.block_size) {
            Ok(())
        } else {
            Err(Error::InvalidBlockHash(index))
        }
    }

    /// Checks every link of the blocks `reg`, of which there are `count`.
    fn validate_region(&self, reg: &[u8], count: usize) -> (r: Result<(), Error>)
        requires
            well_sized(reg@, self@),
            count == block_total(reg@, self@),
        ensures
            chain_intact(reg@, self@) <==> r == Ok::<(), Error>(()),
            match r {
                Ok(()) => true,
                Err(Error::InvalidBlockHash(i)) => first_broken_link(reg@, self@, i as int),
                Err(_) => false,
            },
    {
        proof {
            use_type_invariant(self);
        }
        let bs = self.block_size;
        let n: usize = reg.len();
        let mut i: usize = 1;
        let mut start: usize = bs;
        while i < count
            invariant
                1 <= i,
                32 < bs,
                n == reg@.len(),
                count == block_total(reg@, self@),
                well_sized(reg@, self@),
                bs == self@,
                start == i * bs,
                forall|j: int| 1 <= j < i ==> #[trigger] link_holds(reg@, self@, j),
            decreases count - i,
        {
            if !self.check_link(reg, i, start) {
                return Err(Error::InvalidBlockHash(i as u64));
            }
            proof {
                lemma_block_in_bounds(reg@.len() as int, bs as int, i as int);
                assert((i + 1) * bs == i * bs + bs) by (nonlinear_arith);
            }
            i += 1;
            start = start + bs;
        }
        Ok(())
    }

    /// Checks every link of `image` in order and reports the first block
    /// that does not record the digest of its predecessor.
    pub fn validate_all_blocks(&self, image: &[u8]) -> (r: Result<(), Error>)
        ensures
            match size_error(image@.len() as int, self.header_len() as int, self@ as int) {
                Some(e) => r == Err::<(), Error>(e),
                None => {
                    let reg = block_region(image@, self.header_len());
                    &&& (chain_intact(reg, self@) <==> r == Ok::<(), Error>(()))
                    &&& match r {
                        Ok(()) => true,
                        Err(Error::InvalidBlockHash(i)) => first_broken_link(reg, self@, i as int),
                        Err(_) => false,
                    }
                },
            },
    {
        proof {
            use_type_invariant(self);
        }
        let (reg, count) = match self.checked_region(image) {
            Ok(p) => p,
            Err(e) => {
                return Err(e);
            },
        };
        self.validate_region(reg, count)
    }
}

/// Appending a block whose digest field holds the digest of the last block
/// keeps a store well sized and every link of it intact.
pub proof fn lemma_append_keeps_chain(image: Seq<u8>, bs: nat, block: Seq<u8>)
    requires
        bs > 32,
        well_sized(image, bs),
        chain_intact(image, bs),
        block.len() == bs,
        digest_field(block) == word_bytes(sha256(block_at(image, bs, block_total(image, bs) - 1))),
    ensures
        well_sized(image + block, bs),
        block_total(image + block, bs) == block_total(image, bs) + 1,
        block_at(image + block, bs, block_total(image, bs)) == block,
        chain_intact(image + block, bs),
{
    let q = block_total(image, bs);
    let len = image.len() as int;
    let b = bs as int;
    let ext = image + block;
    lemma_well_sized_not_empty(image, bs);
    assert((q + 1) * b == len + b) by (nonlinear_arith)
        requires
            q * b == len,
    ;
    lemma_mod_multiples_basic(q + 1, b);
    assert(ext.len() as int / b == q + 1) by (nonlinear_arith)
        requires
            ext.len() == (q + 1) * b,
            b > 0,
    ;
    assert forall|i: int| 0 <= i < q implies #[trigger] block_at(ext, bs, i) == block_at(
        image,
        bs,
        i,
    ) by {
        lemma_block_in_bounds(len, b, i);
        assert(block_at(ext, bs, i) =~= block_at(image, bs, i));
    }
    assert(block_at(ext, bs, q) =~= block);
    assert forall|i: int| 1 <= i < q + 1 implies #[trigger] link_holds(ext, bs, i) by {
        if i < q {
            assert(block_at(ext, bs, i - 1) == block_at(image, bs, i - 1));
            assert(block_at(ext, bs, i) == block_at(image, bs, i));
            assert(link_holds(image, bs, i));
        } else {
            assert(block_at(ext, bs, i - 1) == block_at(image, bs, q - 1));
        }
    }
}

/// Changing one byte of the digest field of block `i` of an intact store
/// breaks the link into block `i` and no link before it: block `i` is then
/// the first broken link.
pub proof fn lemma_corrupt_digest_field(image: Seq<u8>, bs: nat, i: int, k: int, v: u8)
    requires
        bs > 32,
        well_sized(image, bs),
        chain_intact(image, bs),
        1 <= i < block_total(image, bs),
        0 <= k < 32,
        v != image[i * bs + k],
    ensures
        well_sized(image.update(i * bs + k, v), bs),
        first_broken_link(image.update(i * bs + k, v), bs, i),
{
    let b = bs as int;
    let len = image.len() as int;
    let p = i * b + k;
    let m = image.update(p, v);
    lemma_block_in_bounds(len, b, i);
    assert forall|j: int| 0 <= j < i implies #[trigger] block_at(m, bs, j) == block_at(image, bs, j) by {
        lemma_block_in_bounds(len, b, j);
        assert(j * b + b <= i * b) by (nonlinear_arith)
            requires
                j < i,
                b > 0,
        ;
        assert(block_at(m, bs, j) =~= block_at(image, bs, j));
    }
    assert forall|j: int| 1 <= j < i implies #[trigger] link_holds(m, bs, j) by {
        assert(block_at(m, bs, j - 1) == block_at(image, bs, j - 1));
        assert(block_at(m, bs, j) == block_at(image, bs, j));
        assert(link_holds(image, bs, j));
    }
    assert(block_at(m, bs, i - 1) == block_at(image, bs, i - 1));
    assert(digest_field(block_at(m, bs, i))[k] == v);
    assert(digest_field(block_at(image, bs, i))[k] == image[p]);
    assert(link_holds(image, bs, i));
}

/// Changing one payload byte of block `j` of an intact store, where block
/// `j + 1` exists, breaks the link into block `j + 1` and no link before
/// it, provided the changed block hashes differently (the hash has no
/// collision on it). In the genesis block, whose digest field no link
/// checks, any byte counts as payload.
pub proof fn lemma_corrupt_payload(image: Seq<u8>, bs: nat, j: int, k: int, v: u8)
    requires
        bs > 32,
        well_sized(image, bs),
        chain_intact(image, bs),
        0 <= j,
        j + 1 < block_total(image, bs),
        0 <= k < bs,
        j == 0 || k >= 32,
        v != image[j * bs + k],
        sha256(block_at(image.update(j * bs + k, v), bs, j)) != sha256(block_at(image, bs, j)),
    ensures
        well_sized(image.update(j * bs + k, v), bs),
        first_broken_link(image.update(j * bs + k, v), bs, j + 1),
{
    let b = bs as int;
    let len = image.len() as int;
    let p = j * b + k;
    let m = image.update(p, v);
    lemma_block_in_bounds(len, b, j);
    lemma_block_in_bounds(len, b, j + 1);
    assert((j + 1) * b == j * b + b) by (nonlinear_arith);
    assert forall|i: int| 0 <= i < j implies #[trigger] block_at(m, bs, i) == block_at(image, bs, i) by {
        lemma_block_in_bounds(len, b, i);
        assert(i * b + b <= j * b) by (nonlinear_arith)
            requires
                i < j,
                b > 0,
        ;
        assert(block_at(m, bs, i) =~= block_at(image, bs, i));
    }
    assert(block_at(m, bs, j + 1) =~= block_at(image, bs, j + 1));
    assert forall|i: int| 1 <= i < j implies #[trigger] link_holds(m, bs, i) by {
        assert(block_at(m, bs, i - 1) == block_at(image, bs, i - 1));
        assert(block_at(m, bs, i) == block_at(image, bs, i));
        assert(link_holds(image, bs, i));
    }
    if j >= 1 {
        assert(block_at(m, bs, j - 1) == block_at(image, bs, j - 1));
        assert(digest_field(block_at(m, bs, j)) =~= digest_field(block_at(image, bs, j)));
        assert(link_holds(image, bs, j));
        assert(link_holds(m, bs, j));
    }
    let old_hash = sha256(block_at(image, bs, j));
    let new_hash = sha256(block_at(m, bs, j));
    lemma_sha256_len(block_at(image, bs, j));
    lemma_sha256_len(block_at(m, bs, j));
    lemma_words_of_word_bytes(old_hash);
    lemma_words_of_word_bytes(new_hash);
    assert(link_holds(image, bs, j + 1));
    assert(word_bytes(old_hash) != word_bytes(new_hash));
}

} // verus!
