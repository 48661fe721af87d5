use bitcoincash_addr::{
    Address, AddressDecoder, AddressEncoder, CashAddrCodec, CashAddrDecodingError, HashType,
    Network,
};

#[test]
fn cashaddr_known_vector_encode() {
    let body = hex::decode("ea2407829a5055466b27784cde8cf463167946bf").unwrap();
    let s = CashAddrCodec::encode(&body, HashType::Key, Network::Test).unwrap();
    assert_eq!(s, "bchtest:qr4zgpuznfg923ntyauyeh5v7333v72xhum2dsdgfh");
}

#[test]
fn cashaddr_known_vector_decode() {
    let a = CashAddrCodec::decode("bchtest:qr4zgpuznfg923ntyauyeh5v7333v72xhum2dsdgfh").unwrap();
    assert_eq!(hex::encode(a.as_body()), "ea2407829a5055466b27784cde8cf463167946bf");
    assert!(matches!(a.hash_type, HashType::Key));
    assert!(matches!(a.network, Network::Test));
}

#[test]
fn cashaddr_round_trips_all_lengths() {
    for &len in &[20usize, 24, 28, 32, 40, 48, 56, 64] {
        let body: Vec<u8> = (0..len).map(|i| (i * 7 + 3) as u8).collect();
        for &ht in &[HashType::Key, HashType::Script] {
            for &nw in &[Network::Main, Network::Test, Network::Regtest] {
                let a = Address::new(body.clone(), ht, nw);
                let s = a.encode::<CashAddrCodec>().unwrap();
                let b = Address::decode::<CashAddrCodec>(&s).unwrap();
                assert_eq!(a, b, "round trip failed for len {} {:?} {:?}", len, ht, nw);
            }
        }
    }
}

#[test]
fn cashaddr_unsupported_lengths_fail_to_encode() {
    for &len in &[0usize, 19, 21, 63, 65] {
        let body: Vec<u8> = vec![0; len];
        let r = CashAddrCodec::encode(&body, HashType::Key, Network::Main);
        match r {
            Err(e) => assert_eq!(e.0, len),
            Ok(s) => panic!("{}-byte body encoded as {}", len, s),
        }
    }
}

#[test]
fn cashaddr_uppercase_decodes_like_lowercase() {
    let lower = "bchtest:qr4zgpuznfg923ntyauyeh5v7333v72xhum2dsdgfh";
    let upper = lower.to_uppercase();
    let a = CashAddrCodec::decode(lower).unwrap();
    let b = CashAddrCodec::decode(&upper).unwrap();
    assert_eq!(a, b);
}

#[test]
fn cashaddr_mixed_case_rejected() {
    let mixed = "bchtest:Qr4zgpuznfg923ntyauyeh5v7333v72xhum2dsdgfh";
    assert!(matches!(
        CashAddrCodec::decode(mixed),
        Err(CashAddrDecodingError::MixedCase)
    ));
    // mixed case is rejected before the bad checksum is seen
    let mixed_bad = "bchtest:Qqqqqqqqqqqqqqqqqqqqqqqqqqqqqqqqqqqqqqqqqqq";
    assert!(matches!(
        CashAddrCodec::decode(mixed_bad),
        Err(CashAddrDecodingError::MixedCase)
    ));
}

#[test]
fn cashaddr_empty_input() {
    assert!(matches!(
        CashAddrCodec::decode(""),
        Err(CashAddrDecodingError::InvalidLength(0))
    ));
}

#[test]
fn cashaddr_separator_errors() {
    assert!(matches!(
        CashAddrCodec::decode("qr4zgpuznfg923ntyauyeh5v7333v72xhum2dsdgfh"),
        Err(CashAddrDecodingError::NoPrefix)
    ));
    assert!(matches!(
        CashAddrCodec::decode("bchtest:qqqq:qqqq"),
        Err(CashAddrDecodingError::NoPrefix)
    ));
}

#[test]
fn cashaddr_invalid_prefix() {
    match CashAddrCodec::decode("bch7est:qr4zgpuznfg923ntyauyeh5v7333v72xhum2dsdgfh") {
        Err(CashAddrDecodingError::InvalidPrefix(p)) => assert_eq!(p, "bch7est"),
        other => panic!("expected InvalidPrefix, got {:?}", other),
    }
}

#[test]
fn cashaddr_unknown_prefix_checked_after_checksum() {
    // a well-formed but unknown prefix fails the checksum first
    match CashAddrCodec::decode("bchfoo:qr4zgpuznfg923ntyauyeh5v7333v72xhum2dsdgfh") {
        Err(CashAddrDecodingError::ChecksumFailed(x)) => assert!(x != 0),
        other => panic!("expected ChecksumFailed, got {:?}", other),
    }
}

#[test]
fn cashaddr_invalid_char_identified() {
    match CashAddrCodec::decode("bchtest:br4zgpuznfg923ntyauyeh5v7333v72xhum2dsdgfh") {
        Err(CashAddrDecodingError::InvalidChar(c)) => assert_eq!(c, 'b'),
        other => panic!("expected InvalidChar, got {:?}", other),
    }
}

#[test]
fn cashaddr_invalid_digit_count() {
    match CashAddrCodec::decode("bchtest:qq") {
        Err(CashAddrDecodingError::InvalidLength(l)) => assert_eq!(l, 2),
        other => panic!("expected InvalidLength, got {:?}", other),
    }
}

#[test]
fn cashaddr_checksum_failure_carries_residue() {
    // last digit flipped from 'h' to 'q'
    match CashAddrCodec::decode("bchtest:qr4zgpuznfg923ntyauyeh5v7333v72xhum2dsdgfq") {
        Err(CashAddrDecodingError::ChecksumFailed(x)) => assert!(x != 0),
        other => panic!("expected ChecksumFailed, got {:?}", other),
    }
}

#[test]
fn cashaddr_single_char_flips_never_decode_silently() {
    let charset: Vec<char> = "qpzry9x8gf2tvdw0s3jn54khce6mua7l".chars().collect();
    let s = "bchtest:qr4zgpuznfg923ntyauyeh5v7333v72xhum2dsdgfh";
    let colon = s.find(':').unwrap();
    for i in (colon + 1)..s.len() {
        for &c in &charset {
            if s.as_bytes()[i] as char == c {
                continue;
            }
            let mut flipped: Vec<char> = s.chars().collect();
            flipped[i] = c;
            let flipped: String = flipped.into_iter().collect();
            assert!(
                CashAddrCodec::decode(&flipped).is_err(),
                "flip at {} to {} was accepted",
                i,
                c
            );
        }
    }
}

// a reference implementation of the checksum, independent of the library
fn reference_polymod(v: &[u8]) -> u64 {
    let mut c: u64 = 1;
    for &d in v {
        let c0 = (c >> 35) as u8;
        c = ((c & 0x0007_ffff_ffff) << 5) ^ u64::from(d);
        if c0 & 0x01 != 0 {
            c ^= 0x0098_f2bc_8e61;
        }
        if c0 & 0x02 != 0 {
            c ^= 0x0079_b76d_99e2;
        }
        if c0 & 0x04 != 0 {
            c ^= 0x00f3_3e5f_b3c4;
        }
        if c0 & 0x08 != 0 {
            c ^= 0x00ae_2eab_e2a8;
        }
        if c0 & 0x10 != 0 {
            c ^= 0x001e_4f43_e470;
        }
    }
    c ^ 1
}

fn reference_encode(prefix: &str, version_byte: u8, body: &[u8]) -> String {
    let charset: Vec<char> = "qpzry9x8gf2tvdw0s3jn54khce6mua7l".chars().collect();
    let mut bytes = vec![version_byte];
    bytes.extend_from_slice(body);
    // regroup 8-bit words into 5-bit digits
    let mut digits: Vec<u8> = Vec::new();
    let mut acc: u32 = 0;
    let mut nbits: u32 = 0;
    for &b in &bytes {
        acc = (acc << 8) | u32::from(b);
        nbits += 8;
        while nbits >= 5 {
            digits.push(((acc >> (nbits - 5)) & 0x1f) as u8);
            nbits -= 5;
        }
    }
    if nbits > 0 {
        digits.push(((acc << (5 - nbits)) & 0x1f) as u8);
    }
    let mut checksum_input: Vec<u8> = prefix.bytes().map(|b| b & 0x1f).collect();
    checksum_input.push(0);
    checksum_input.extend_from_slice(&digits);
    checksum_input.extend_from_slice(&[0; 8]);
    let cs = reference_polymod(&checksum_input);
    for i in 0..8 {
        digits.push(((cs >> (5 * (7 - i))) & 0x1f) as u8);
    }
    let mut out = String::from(prefix);
    out.push(':');
    for d in digits {
        out.push(charset[d as usize]);
    }
    out
}

#[test]
fn cashaddr_matches_reference_implementation() {
    for &len in &[20usize, 24, 32, 64] {
        let body: Vec<u8> = (0..len).map(|i| (i * 31 + 1) as u8).collect();
        let s = CashAddrCodec::encode(&body, HashType::Script, Network::Main).unwrap();
        let expected = reference_encode("bitcoincash", 8 | size_class(len), &body);
        assert_eq!(s, expected);
    }
}

fn size_class(len: usize) -> u8 {
    match len {
        20 => 0,
        24 => 1,
        28 => 2,
        32 => 3,
        40 => 4,
        48 => 5,
        56 => 6,
        64 => 7,
        _ => panic!("unsupported"),
    }
}

#[test]
fn cashaddr_invalid_version_bit7() {
    // a crafted string with a valid checksum whose version byte has bit 7 set
    let body: Vec<u8> = vec![0x11; 20];
    let s = reference_encode("bitcoincash", 0x80, &body);
    match CashAddrCodec::decode(&s) {
        Err(CashAddrDecodingError::InvalidVersion(v)) => assert_eq!(v, 0x80),
        other => panic!("expected InvalidVersion, got {:?}", other),
    }
}

#[test]
fn cashaddr_invalid_version_type_bits() {
    let body: Vec<u8> = vec![0x11; 20];
    let s = reference_encode("bitcoincash", 0x10, &body);
    match CashAddrCodec::decode(&s) {
        Err(CashAddrDecodingError::InvalidVersion(v)) => assert_eq!(v, 0x10),
        other => panic!("expected InvalidVersion, got {:?}", other),
    }
}

#[test]
fn cashaddr_invalid_version_size_mismatch() {
    // class 1 claims 24 bytes, but the body holds 20
    let body: Vec<u8> = vec![0x11; 20];
    let s = reference_encode("bitcoincash", 0x01, &body);
    match CashAddrCodec::decode(&s) {
        Err(CashAddrDecodingError::InvalidVersion(v)) => assert_eq!(v, 0x01),
        other => panic!("expected InvalidVersion, got {:?}", other),
    }
}
