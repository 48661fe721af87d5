//! The legacy Base58Check address codec: a one-byte version prefix, the raw
//! hash bytes, and a 4-byte double-SHA256 checksum, together mapped through
//! the 58-character alphabet.

use vstd::prelude::*;

use crate::Address;
use crate::HashType;
use crate::Network;
use crate::AddressDecoder;
use crate::AddressEncoder;
use crate::errors::Base58Error;

use rust_base58::base58::FromBase58;
use rust_base58::base58::ToBase58;

verus! {

/// The base58 string that `rust_base58`'s `to_base58` produces for a byte
/// string: leading zero bytes become '1' characters, the remaining value is
/// written big-endian in base 58 over the Bitcoin alphabet.
pub uninterp spec fn base58_of(bytes: Seq<u8>) -> Seq<char>;

/// The byte string that `rust_base58`'s `from_base58` recovers from a string
/// of base58 characters: the exact inverse of `base58_of`.
pub uninterp spec fn b58_bytes_of(s: Seq<char>) -> Seq<u8>;

/// The 32-byte double-SHA256 digest that `bitcoin_hashes` computes.
pub uninterp spec fn sha256d_of(bytes: Seq<u8>) -> Seq<u8>;

/// Membership in the 58-character Bitcoin alphabet: digits and letters
/// without '0', 'O', 'I' and 'l'.
pub open spec fn is_b58_char(c: char) -> bool {
    (49 <= (c as u32) <= 57)  // '1' ..= '9'
    || (65 <= (c as u32) <= 90 && (c as u32) != 73 && (c as u32) != 79)  // uppercase but 'I', 'O'
    || (97 <= (c as u32) <= 122 && (c as u32) != 108)  // lowercase but 'l'
}

/// Every character lies in the base58 alphabet.
pub open spec fn all_b58(s: Seq<char>) -> bool {
    forall|i: int| 0 <= i < s.len() ==> is_b58_char(#[trigger] s[i])
}

/// Relies on `rust_base58`'s `to_base58` for `[u8]`: the result is the
/// base58 encoding of the bytes, all its characters lie in the alphabet,
/// and `from_base58` recovers the bytes from it.
#[verifier::external_body]
fn base58_encode(b: &[u8]) -> (r: String)
    ensures
        r@ == base58_of(b@),
        all_b58(r@),
        b58_bytes_of(r@) == b@,
{
    b.to_base58()
}

/// Relies on `rust_base58`'s `from_base58` for `str`: on a string of
/// alphabet characters it returns the decoded bytes (its only error is an
/// out-of-alphabet byte), and `to_base58` maps those bytes back to the
/// input string.
#[verifier::external_body]
fn base58_decode_raw(s: &str) -> (r: Vec<u8>)
    requires
        all_b58(s@),
    ensures
        r@ == b58_bytes_of(s@),
        base58_of(r@) == s@,
{
    s.from_base58().unwrap()
}

/// Relies on `bitcoin_hashes`'s `sha256d::Hash::hash`: the 32-byte
/// double-SHA256 digest of the input, a function of the bytes alone.
#[verifier::external_body]
fn sha256d(b: &[u8]) -> (r: Vec<u8>)
    ensures
        r@ == sha256d_of(b@),
        r@.len() == 32,
{
    bitcoin_hashes::sha256d::Hash::hash(b).to_byte_array().to_vec()
}

/// The first 4 bytes of the double-SHA256 digest of a byte string: the
/// checksum of the legacy format.
pub open spec fn sha256d_head4(b: Seq<u8>) -> Seq<u8> {
    Seq::new(4, |i: int| sha256d_of(b)[i])
}

/// The version byte of the legacy format for a hash type and network. Test
/// and Regtest share their version bytes: the legacy format cannot tell
/// them apart.
pub open spec fn b58_version_byte(hash_type: HashType, network: Network) -> u8 {
    match (hash_type, network) {
        (HashType::Key, Network::Main) => 0x00,
        (HashType::Key, _) => 0x6f,
        (HashType::Script, Network::Main) => 0x05,
        (HashType::Script, _) => 0xc4,
    }
}

/// The 25 bytes under the base58 layer: version byte, body, and the first 4
/// bytes of the double-SHA256 of version byte and body.
pub open spec fn b58_check_bytes(raw: Seq<u8>, hash_type: HashType, network: Network) -> Seq<u8> {
    let payload = seq![b58_version_byte(hash_type, network)] + raw;
    payload + sha256d_head4(payload)
}

/// What decoding the byte string under the base58 layer yields: the length
/// must be exactly 25, the trailing 4 bytes must equal the recomputed
/// checksum, and the version byte must be known; the checksum is checked
/// before the version byte.
pub open spec fn b58_decodes_bytes(b: Seq<u8>, r: Result<Address, Base58Error>) -> bool {
    if b.len() != 25 {
        r matches Err(Base58Error::InvalidLength(l)) && l as nat == b.len()
    } else {
        let payload = b.take(21);
        let claimed = b.skip(21);

        let digest = sha256d_head4(payload);
        if digest != claimed {
            r matches Err(Base58Error::ChecksumFailed { expected, actual })
                && expected@ == digest && actual@ == claimed
        } else if b[0] == 0x00 {
            r matches Ok(a) && a.body@ == b.subrange(1, 21) && a.hash_type == HashType::Key
                && a.network == Network::Main
        } else if b[0] == 0x05 {
            r matches Ok(a) && a.body@ == b.subrange(1, 21) && a.hash_type == HashType::Script
                && a.network == Network::Main
        } else if b[0] == 0x6f {
            r matches Ok(a) && a.body@ == b.subrange(1, 21) && a.hash_type == HashType::Key
                && a.network == Network::Test
        } else if b[0] == 0xc4 {
            r matches Ok(a) && a.body@ == b.subrange(1, 21) && a.hash_type == HashType::Script
                && a.network == Network::Test
        } else {
            r matches Err(Base58Error::InvalidVersion(v)) && v == b[0]
        }
    }
}

/// What decoding a base58 address string yields: an out-of-alphabet
/// character is rejected first (the earliest one is carried in the error);
/// otherwise the string's base58 preimage is decoded as a 25-byte check
/// payload.
pub open spec fn base58_decodes(s: Seq<char>, r: Result<Address, Base58Error>) -> bool {
    if !all_b58(s) {
        exists|i: int|
            0 <= i < s.len() && !is_b58_char(s[i]) && (forall|j: int|
                0 <= j < i ==> is_b58_char(#[trigger] s[j])) && r == Result::<
                Address,
                Base58Error,
            >::Err(Base58Error::InvalidChar(s[i]))
    } else {
        b58_decodes_bytes(b58_bytes_of(s), r)
    }
}

/// Codec for the legacy base58 address format.
pub struct Base58Codec;

impl AddressEncoder for Base58Codec {
    type EncodingError = Base58Error;

    /// Encoding never fails: the result is the base58 form of the 25-byte
    /// check payload.
    open spec fn encodes(
        raw: Seq<u8>,
        hash_type: HashType,
        network: Network,
        r: Result<String, Base58Error>,
    ) -> bool {
        r matches Ok(s) && s@ == base58_of(b58_check_bytes(raw, hash_type, network))
    }

    fn encode(raw: &[u8], hash_type: HashType, network: Network) -> (r: Result<
        String,
        Base58Error,
    >) {
        let version_byte: u8 = match (hash_type, network) {
            (HashType::Key, Network::Main) => 0x00,
            (HashType::Key, _) => 0x6f,
            (HashType::Script, Network::Main) => 0x05,
            (HashType::Script, _) => 0xc4,
        };
        let mut check: Vec<u8> = Vec::new();
        check.push(version_byte);
        let mut i: usize = 0;
        while i < raw.len()
            invariant
                check@ == seq![b58_version_byte(hash_type, network)] + raw@.take(i as int),
                0 <= i <= raw@.len(),
            decreases raw@.len() - i,
        {
            check.push(raw[i]);
            proof {
                assert(check@ =~= seq![b58_version_byte(hash_type, network)] + raw@.take(
                    i + 1 as int,
                ));
            }
            i += 1;
        }
        proof {
            assert(check@ =~= seq![b58_version_byte(hash_type, network)] + raw@);
        }
        let ghost payload = check@;
        let digest = sha256d(check.as_slice());
        let mut k: usize = 0;
        while k < 4
            invariant
                digest@ == sha256d_of(payload),
                digest@.len() == 32,
                check@ == payload + digest@.take(k as int),
                0 <= k <= 4,
            decreases 4 - k,
        {
            check.push(digest[k]);
            proof {
                assert(check@ =~= payload + digest@.take(k + 1 as int));
            }
            k += 1;
        }
        proof {
            assert(check@ =~= b58_check_bytes(raw@, hash_type, network));
        }
        Ok(base58_encode(check.as_slice()))
    }
}

impl AddressDecoder for Base58Codec {
    type DecodingError = Base58Error;

    open spec fn decodes(s: Seq<char>, r: Result<Address, Base58Error>) -> bool {
        base58_decodes(s, r)
    }

    fn decode(s: &str) -> (r: Result<Address, Base58Error>) {
        let n = s.unicode_len();
        let mut i: usize = 0;
        while i < n
            invariant
                n == s@.len(),
                0 <= i <= n,
                forall|j: int| 0 <= j < i ==> is_b58_char(#[trigger] s@[j]),
            decreases n - i,
        {
            let c = s.get_char(i);
            let v: u32 = c as u32;
            let ok = (49 <= v && v <= 57) || (65 <= v && v <= 90 && v != 73 && v != 79) || (97
                <= v && v <= 122 && v != 108);
            if !ok {
                proof {
                    assert(!is_b58_char(s@[i as int]));
                }
                return Err(Base58Error::InvalidChar(c));
            }
            i += 1;
        }
        let raw = base58_decode_raw(s);
        if raw.len() != 25 {
            return Err(Base58Error::InvalidLength(raw.len()));
        }
        let payload = vec_range(&raw, 0, 21);
        let claimed = vec_range(&raw, 21, 25);
        let digest = sha256d(payload.as_slice());
        let expected = vec_range(&digest, 0, 4);
        proof {
            assert(payload@ =~= raw@.take(21));
            assert(claimed@ =~= raw@.skip(21));
            assert(expected@ =~= sha256d_head4(raw@.take(21)));
        }
        if !crate::bytes_eq(expected.as_slice(), claimed.as_slice()) {
            return Err(Base58Error::ChecksumFailed { expected, actual: claimed });
        }
        let version_byte = raw[0];
        let (network, hash_type) = match version_byte {
            0x00 => (Network::Main, HashType::Key),
            0x05 => (Network::Main, HashType::Script),
            0x6f => (Network::Test, HashType::Key),
            0xc4 => (Network::Test, HashType::Script),
            _ => {
                return Err(Base58Error::InvalidVersion(version_byte));
            },
        };
        let body = vec_range(&raw, 1, 21);
        Ok(Address { body, hash_type, network })
    }
}

/// Copies the bytes of a vector between two positions.
fn vec_range(v: &Vec<u8>, a: usize, b: usize) -> (r: Vec<u8>)
    requires
        a <= b <= v@.len(),
    ensures
        r@ == v@.subrange(a as int, b as int),
{
    let mut r: Vec<u8> = Vec::new();
    let mut i: usize = a;
    while i < b
        invariant
            a <= i <= b <= v@.len(),
            r@ == v@.subrange(a as int, i as int),
        decreases b - i,
    {
        r.push(v[i]);
        proof {
            assert(r@ =~= v@.subrange(a as int, i + 1 as int));
        }
        i += 1;
    }
    r
}

/// Round trip of the legacy codec at the byte layer: a 25-byte check
/// payload built from a 20-byte body always decodes back to the same body,
/// hash type and network. Regtest is left out: the legacy format writes it
/// with the Test version bytes, so it decodes as Test.
pub proof fn lemma_base58_round_trip(raw: Seq<u8>, hash_type: HashType, network: Network)
    requires
        raw.len() == 20,
        network != Network::Regtest,
    ensures
        forall|r: Result<Address, Base58Error>|
            b58_decodes_bytes(b58_check_bytes(raw, hash_type, network), r) ==> (r matches Ok(a)
                && a.body@ == raw && a.hash_type == hash_type && a.network == network),
{
    let b = b58_check_bytes(raw, hash_type, network);
    let payload = seq![b58_version_byte(hash_type, network)] + raw;
    assert(b.len() == 25);
    assert(b.take(21) =~= payload);
    assert(b.skip(21) =~= sha256d_head4(payload));
    assert(b.subrange(1, 21) =~= raw);
    assert(b[0] == b58_version_byte(hash_type, network));
}


/// A character outside the 58-character alphabet makes decoding fail with
/// the invalid-character error naming the earliest one, whatever the rest
/// of the string holds.
pub proof fn lemma_base58_alphabet_rejection(s: Seq<char>, i: int)
    requires
        0 <= i < s.len(),
        !is_b58_char(s[i]),
        forall|j: int| 0 <= j < i ==> is_b58_char(#[trigger] s[j]),
    ensures
        forall|r: Result<Address, Base58Error>|
            base58_decodes(s, r) ==> r == Result::<Address, Base58Error>::Err(
                Base58Error::InvalidChar(s[i]),
            ),
{
    assert(!all_b58(s));
    assert forall|r: Result<Address, Base58Error>|
        base58_decodes(s, r) implies r == Result::<Address, Base58Error>::Err(
        Base58Error::InvalidChar(s[i]),
    ) by {
        let w = choose|w: int|
            0 <= w < s.len() && !is_b58_char(s[w]) && (forall|j: int|
                0 <= j < w ==> is_b58_char(#[trigger] s[j])) && r == Result::<
                Address,
                Base58Error,
            >::Err(Base58Error::InvalidChar(s[w]));
        if w < i {
            assert(is_b58_char(s[w]));
        }
        if w > i {
            assert(is_b58_char(s[i]));
        }
        assert(w == i);
    }
}

/// Round trip of the legacy codec at the string layer. The two premises
/// about the base58 transport hold of every string the codec emits: they
/// are exactly what the trusted base58 wrappers certify, and every caller
/// of `encode` obtains them from its contract.
pub proof fn lemma_base58_string_round_trip(raw: Seq<u8>, hash_type: HashType, network: Network)
    requires
        raw.len() == 20,
        network != Network::Regtest,
        all_b58(base58_of(b58_check_bytes(raw, hash_type, network))),
        b58_bytes_of(base58_of(b58_check_bytes(raw, hash_type, network))) == b58_check_bytes(
            raw,
            hash_type,
            network,
        ),
    ensures
        forall|r: Result<Address, Base58Error>|
            base58_decodes(base58_of(b58_check_bytes(raw, hash_type, network)), r) ==> (
            r matches Ok(a) && a.body@ == raw && a.hash_type == hash_type && a.network
                == network),
{
    lemma_base58_round_trip(raw, hash_type, network);
}
} // verus!
