use vstd::prelude::*;

verus! {

/// The kind of an I/O failure, as std reports it.
#[verifier::external_type_specification]
#[verifier::external_body]
pub struct ExIoErrorKind(std::io::ErrorKind);

/// Relies on `ErrorKind: Copy`: a clone is the same kind. Verus needs this
/// declaration to accept the derived `Clone` of `Error`.
pub assume_specification[ <std::io::ErrorKind as Clone>::clone ](k: &std::io::ErrorKind) -> (r:
    std::io::ErrorKind)
    ensures
        r == *k,
;

/// Every way in which an operation of the store can fail.
#[derive(Debug, Clone, PartialEq, Eq)]
pub enum Error {
    /// A stream position that is not at a block boundary.
    BadStreamPosition(u64),
    /// A block index at or past the end of the store.
    BlockNumDoesNotExist,
    /// A buffer whose length differs from the length the operation needs.
    InvalidSliceLength,
    /// A block size that leaves no room for a payload.
    ZeroBlockSize,
    /// A block size that does not fit the 32-bit size header.
    BlockSizeTooBig,
    /// A store was to be created where a path already exists.
    PathAlreadyExists,
    /// A store was to be opened at a path that is not a file.
    PathIsNotAFile,
    /// A store file that holds no bytes.
    FileIsEmpty,
    /// An offset computation that does not fit in 64 bits.
    IntegerOverflow,
    /// A store file whose length is not a multiple of its block size.
    InvalidFileSize,
    /// The block at this index does not record the digest of its predecessor.
    InvalidBlockHash(u64),
    /// A hex text of the wrong length.
    InvalidHexLength,
    /// A hex text with a character that is not a hex digit.
    InvalidHexDigit,
    /// An I/O failure of the underlying file.
    IOError(std::io::ErrorKind),
}

} // verus!
