use bitcoincash_addr::{Address, AddressDecoder, AddressEncoder, Base58Codec, Base58Error, HashType, Network};
use rust_base58::base58::ToBase58;

#[test]
fn to_legacyaddr() {
    let pubkey_hex = "04005937fd439b3c19014d5f328df8c7ed514eaaf41c1980b8aeab461dffb23fbf3317e42395db24a52ce9fc947d9c22f54dc3217c8b11dfc7a09c59e0dca591d3";
    let pubkeyhash = bitcoin_hashes::hash160::Hash::hash(&hex::decode(pubkey_hex).unwrap())
        .to_byte_array()
        .to_vec();
    let legacyaddr = Base58Codec::encode(&pubkeyhash, HashType::Key, Network::Main).unwrap();
    assert!(legacyaddr == "1NM2HFXin4cEQRBLjkNZAS98qLX9JKzjKn");
}

#[test]
fn from_legacyaddr() {
    let legacyaddr = "1NM2HFXin4cEQRBLjkNZAS98qLX9JKzjKn";
    let result = Base58Codec::decode(legacyaddr).unwrap();
    let hash160 = result.as_body();
    assert!(hex::encode(hash160) == "ea2407829a5055466b27784cde8cf463167946bf");
}

#[test]
fn from_legacyaddr_errors() {
    assert!(Base58Codec::decode("0").is_err());
    assert!(Base58Codec::decode("1000000000000000000000000000000000").is_err());
}

#[test]
fn base58_known_vector_encode() {
    let body = hex::decode("ea2407829a5055466b27784cde8cf463167946bf").unwrap();
    let s = Base58Codec::encode(&body, HashType::Key, Network::Main).unwrap();
    assert_eq!(s, "1NM2HFXin4cEQRBLjkNZAS98qLX9JKzjKn");
}

#[test]
fn base58_known_vector_decode() {
    let a = Base58Codec::decode("1NM2HFXin4cEQRBLjkNZAS98qLX9JKzjKn").unwrap();
    assert_eq!(hex::encode(a.as_body()), "ea2407829a5055466b27784cde8cf463167946bf");
    assert!(matches!(a.hash_type, HashType::Key));
    assert!(matches!(a.network, Network::Main));
}

#[test]
fn base58_round_trips() {
    let body: Vec<u8> = (0u8..20).collect();
    for &ht in &[HashType::Key, HashType::Script] {
        for &nw in &[Network::Main, Network::Test] {
            let a = Address::new(body.clone(), ht, nw);
            let s = a.encode::<Base58Codec>().unwrap();
            let b = Address::decode::<Base58Codec>(&s).unwrap();
            assert_eq!(a, b);
        }
    }
}

#[test]
fn base58_regtest_reads_back_as_test() {
    let body: Vec<u8> = (0u8..20).collect();
    let a = Address::new(body.clone(), HashType::Key, Network::Regtest);
    let s = a.encode::<Base58Codec>().unwrap();
    let b = Address::decode::<Base58Codec>(&s).unwrap();
    assert_eq!(b.as_body(), &body[..]);
    assert!(matches!(b.network, Network::Test));
}

#[test]
fn base58_invalid_char_identified() {
    // '0' is outside the alphabet; the error carries the first such character
    match Base58Codec::decode("0") {
        Err(Base58Error::InvalidChar(c)) => assert_eq!(c, '0'),
        other => panic!("expected InvalidChar, got {:?}", other),
    }
    match Base58Codec::decode("1NM2l") {
        Err(Base58Error::InvalidChar(c)) => assert_eq!(c, 'l'),
        other => panic!("expected InvalidChar, got {:?}", other),
    }
}

#[test]
fn base58_invalid_length() {
    match Base58Codec::decode("1000000000000000000000000000000000") {
        Err(Base58Error::InvalidChar(c)) => assert_eq!(c, '0'),
        other => panic!("expected InvalidChar, got {:?}", other),
    }
    // 2 bytes decoded: not 25
    match Base58Codec::decode("5z") {
        Err(Base58Error::InvalidLength(l)) => assert_eq!(l, 2),
        other => panic!("expected InvalidLength, got {:?}", other),
    }
}

#[test]
fn base58_checksum_failed_carries_values() {
    // decode a 25-byte string with a corrupted checksum
    let mut payload: Vec<u8> = vec![0x00];
    payload.extend((0u8..20).collect::<Vec<u8>>());
    let digest = bitcoin_hashes::sha256d::Hash::hash(&payload).to_byte_array();
    let mut full = payload.clone();
    full.extend(&digest[0..4]);
    *full.last_mut().unwrap() ^= 0xff;
    let s = full.to_base58();
    match Base58Codec::decode(&s) {
        Err(Base58Error::ChecksumFailed { expected, actual }) => {
            assert_eq!(expected, digest[0..4].to_vec());
            let mut corrupted = digest[0..4].to_vec();
            corrupted[3] ^= 0xff;
            assert_eq!(actual, corrupted);
        }
        other => panic!("expected ChecksumFailed, got {:?}", other),
    }
}

#[test]
fn base58_invalid_version() {
    let mut payload: Vec<u8> = vec![0xff];
    payload.extend((0u8..20).collect::<Vec<u8>>());
    let digest = bitcoin_hashes::sha256d::Hash::hash(&payload).to_byte_array();
    let mut full = payload.clone();
    full.extend(&digest[0..4]);
    let s = full.to_base58();
    match Base58Codec::decode(&s) {
        Err(Base58Error::InvalidVersion(v)) => assert_eq!(v, 0xff),
        other => panic!("expected InvalidVersion, got {:?}", other),
    }
}

#[test]
fn base58_single_char_flips_never_decode_silently() {
    let alphabet: Vec<char> = "123456789ABCDEFGHJKLMNPQRSTUVWXYZabcdefghijkmnopqrstuvwxyz"
        .chars()
        .collect();
    let s = "1NM2HFXin4cEQRBLjkNZAS98qLX9JKzjKn";
    let original = Base58Codec::decode(s).unwrap();
    for i in 0..s.len() {
        for &c in &alphabet {
            if s.as_bytes()[i] as char == c {
                continue;
            }
            let mut flipped: Vec<char> = s.chars().collect();
            flipped[i] = c;
            let flipped: String = flipped.into_iter().collect();
            match Base58Codec::decode(&flipped) {
                Ok(a) => panic!("flip at {} to {} decoded: {:?} vs {:?}", i, c, a, original),
                Err(_) => {}
            }
        }
    }
}
