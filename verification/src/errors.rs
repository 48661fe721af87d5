use vstd::prelude::*;

verus! {

/// Error raised when decoding a base58 address string fails.
#[derive(Debug, Clone)]
pub enum Base58Error {
    /// A character of the input lies outside the 58-character alphabet.
    InvalidChar(char),
    /// The recomputed 4-byte checksum differs from the trailing 4 bytes.
    ChecksumFailed { expected: Vec<u8>, actual: Vec<u8> },
    /// The decoded byte string does not have the expected length.
    InvalidLength(usize),
    /// The leading version byte is not one of the known version bytes.
    InvalidVersion(u8),
}

/// Error raised when decoding a cashaddr string fails.
#[derive(Debug, Clone)]
pub enum CashAddrDecodingError {
    /// The digit count does not fit any supported hash length (also raised
    /// for empty input, with length 0).
    InvalidLength(usize),
    /// Zero or multiple ':' separators.
    NoPrefix,
    /// The prefix holds a character outside 'a'..='z', or is not a known
    /// network prefix.
    InvalidPrefix(String),
    /// The polynomial checksum residue was nonzero (the residue is carried).
    ChecksumFailed(u64),
    /// A payload character lies outside the 32-character alphabet, or the
    /// final digit carries nonzero padding bits.
    InvalidChar(char),
    /// The version byte is not a supported type/size combination.
    InvalidVersion(u8),
    /// Both an uppercase and a lowercase letter occur in the input.
    MixedCase,
}

/// Error raised when encoding a cashaddr: the body length fits no
/// supported size class.
#[derive(Debug, Clone, Copy, PartialEq, Eq, Structural)]
pub struct CashAddrInvalidLength(pub usize);

/// Error of a decode attempt that tried both address formats.
#[derive(Debug, Clone)]
pub enum AddressDecodingError {
    /// The base58 attempt failed with this error.
    Base58(Base58Error),
    /// The cashaddr attempt failed with this error.
    CashAddr(CashAddrDecodingError),
}

impl From<Base58Error> for AddressDecodingError {
    fn from(e: Base58Error) -> (r: Self) {
        AddressDecodingError::Base58(e)
    }
}

impl vstd::std_specs::convert::FromSpecImpl<Base58Error> for AddressDecodingError {
    open spec fn obeys_from_spec() -> bool {
        true
    }

    open spec fn from_spec(e: Base58Error) -> Self {
        AddressDecodingError::Base58(e)
    }
}

impl From<CashAddrDecodingError> for AddressDecodingError {
    fn from(e: CashAddrDecodingError) -> (r: Self) {
        AddressDecodingError::CashAddr(e)
    }
}

impl vstd::std_specs::convert::FromSpecImpl<CashAddrDecodingError> for AddressDecodingError {
    open spec fn obeys_from_spec() -> bool {
        true
    }

    open spec fn from_spec(e: CashAddrDecodingError) -> Self {
        AddressDecodingError::CashAddr(e)
    }
}

} // verus!
