//! Conversion between raw hash bytes and the two textual address formats of
//! the Bitcoin Cash network: the legacy Base58Check format and the newer
//! checksummed cashaddr format.
//!
//! An [`Address`] carries the raw hash (`body`), a [`HashType`] saying
//! whether it is a public-key hash or a script hash, and a [`Network`].
//! [`Base58Codec`] and [`CashAddrCodec`] turn such a value into a string and
//! back; [`AnyCodec`] decodes a string of unknown format by trying cashaddr
//! first and base58 second, and reports both errors when both fail.

use vstd::prelude::*;

pub mod base58;
pub mod cashaddr;
pub mod errors;

pub use base58::Base58Codec;
pub use cashaddr::CashAddrCodec;
pub use errors::AddressDecodingError;
pub use errors::Base58Error;
pub use errors::CashAddrDecodingError;
pub use errors::CashAddrInvalidLength;

verus! {

/// Bitcoin Cash networks.
#[derive(PartialEq, Eq, Clone, Copy, Debug, Hash, Structural)]
pub enum Network {
    /// Main network.
    Main,
    /// Test network.
    Test,
    /// Regression test network.
    Regtest,
}

/// Interpretation of the hash bytes of an address.
#[derive(PartialEq, Eq, Clone, Copy, Debug, Hash, Structural)]
pub enum HashType {
    /// Public key hash.
    Key,
    /// Script hash.
    Script,
}

/// The bytes and metadata of a Bitcoin Cash address. Yielded by decoding,
/// consumed by encoding.
#[derive(Debug, Clone, Hash)]
pub struct Address {
    /// Raw hash bytes.
    pub body: Vec<u8>,
    /// Hash type.
    pub hash_type: HashType,
    /// Network.
    pub network: Network,
}

/// Compares two byte slices for equality.
pub(crate) fn bytes_eq(a: &[u8], b: &[u8]) -> (r: bool)
    ensures
        r == (a@ == b@),
{
    if a.len() != b.len() {
        assert(a@ != b@) by {
            assert(a@.len() != b@.len());
        }
        return false;
    }
    let n = a.len();
    let mut i: usize = 0;
    while i < n
        invariant
            n == a@.len() == b@.len(),
            0 <= i <= n,
            forall|j: int| 0 <= j < i ==> a@[j] == b@[j],
        decreases n - i,
    {
        if a[i] != b[i] {
            return false;
        }
        i += 1;
    }
    proof {
        assert(a@ =~= b@);
    }
    true
}

impl PartialEq for Address {
    /// Structural equality: same body bytes, hash type and network.
    fn eq(&self, other: &Address) -> (r: bool) {
        bytes_eq(self.body.as_slice(), other.body.as_slice()) && self.hash_type
            == other.hash_type && self.network == other.network
    }
}

impl vstd::std_specs::cmp::PartialEqSpecImpl for Address {
    open spec fn obeys_eq_spec() -> bool {
        true
    }

    open spec fn eq_spec(&self, other: &Address) -> bool {
        self.body@ == other.body@ && self.hash_type == other.hash_type
            && self.network == other.network
    }
}

impl Eq for Address {}

impl Default for Address {
    /// The empty address: no body bytes, [`HashType::Key`], [`Network::Main`].
    fn default() -> (r: Self)
        ensures
            r.body@ == Seq::<u8>::empty(),
            r.hash_type == HashType::Key,
            r.network == Network::Main,
    {
        Address { body: Vec::new(), hash_type: HashType::Key, network: Network::Main }
    }
}

impl Address {
    /// Creates an address from its parts.
    pub fn new(body: Vec<u8>, hash_type: HashType, network: Network) -> (r: Self)
        ensures
            r.body@ == body@,
            r.hash_type == hash_type,
            r.network == network,
    {
        Address { body, hash_type, network }
    }

    /// Borrows the body bytes.
    pub fn as_body(&self) -> (r: &[u8])
        ensures
            r@ == self.body@,
    {
        self.body.as_slice()
    }

    /// Takes the body bytes.
    pub fn into_body(self) -> (r: Vec<u8>)
        ensures
            r@ == self.body@,
    {
        self.body
    }

    /// Encodes this address as a string in the format of the chosen codec.
    pub fn encode<C: AddressEncoder>(&self) -> (r: Result<String, C::EncodingError>)
        ensures
            C::encodes(self.body@, self.hash_type, self.network, r),
    {
        C::encode(self.body.as_slice(), self.hash_type, self.network)
    }

    /// Decodes an address string in the format of the chosen codec.
    pub fn decode<C: AddressDecoder>(addr_str: &str) -> (r: Result<Self, C::DecodingError>)
        ensures
            C::decodes(addr_str@, r),
    {
        C::decode(addr_str)
    }
}

/// An address scheme's encoding half: a pure function from the raw bytes and
/// metadata of an address to a string.
pub trait AddressEncoder {
    type EncodingError;

    /// What this codec's `encode` returns: a relation that pins the result,
    /// success and failure alike, for every input.
    spec fn encodes(
        raw: Seq<u8>,
        hash_type: HashType,
        network: Network,
        r: Result<String, Self::EncodingError>,
    ) -> bool;

    /// Converts the raw address bytes to a string.
    fn encode(raw: &[u8], hash_type: HashType, network: Network) -> (r: Result<
        String,
        Self::EncodingError,
    >)
        ensures
            Self::encodes(raw@, hash_type, network, r),
    ;
}

/// An address scheme's decoding half: a pure function from a string to the
/// raw bytes and metadata of an address.
pub trait AddressDecoder {
    type DecodingError;

    /// What this codec's `decode` returns: a relation that pins the result,
    /// success and failure alike, for every input.
    spec fn decodes(s: Seq<char>, r: Result<Address, Self::DecodingError>) -> bool;

    /// Converts an address string to an address.
    fn decode(s: &str) -> (r: Result<Address, Self::DecodingError>)
        ensures
            Self::decodes(s@, r),
    ;
}

/// Decoder of either format: tries cashaddr first, then base58, and carries
/// both errors when both attempts fail.
pub struct AnyCodec;

impl AddressDecoder for AnyCodec {
    type DecodingError = (CashAddrDecodingError, Base58Error);

    /// Either the cashaddr decoding succeeded with this result, or it failed
    /// and the base58 decoding decided; a returned error pairs the cashaddr
    /// error with the base58 error.
    open spec fn decodes(s: Seq<char>, r: Result<Address, Self::DecodingError>) -> bool {
        match r {
            Ok(a) => CashAddrCodec::decodes(s, Ok(a)) || ((exists|e: CashAddrDecodingError|
                CashAddrCodec::decodes(s, Err(e))) && Base58Codec::decodes(s, Ok(a))),
            Err(pair) => CashAddrCodec::decodes(s, Err(pair.0)) && Base58Codec::decodes(
                s,
                Err(pair.1),
            ),
        }
    }

    fn decode(s: &str) -> (r: Result<Address, Self::DecodingError>)
        ensures
            Self::decodes(s@, r),
    {
        match CashAddrCodec::decode(s) {
            Ok(a) => Ok(a),
            Err(cash_err) => match Base58Codec::decode(s) {
                Ok(a) => {
                    proof {
                        assert(exists|e: CashAddrDecodingError|
                            CashAddrCodec::decodes(s@, Err(e)));
                    }
                    Ok(a)
                },
                Err(base58_err) => Err((cash_err, base58_err)),
            },
        }
    }
}

} // verus!
