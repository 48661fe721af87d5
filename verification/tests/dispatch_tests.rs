use bitcoincash_addr::{
    Address, AddressDecoder, AnyCodec, Base58Error, CashAddrDecodingError, HashType, Network,
};

#[test]
fn any_codec_decodes_legacy() {
    let a = Address::decode::<AnyCodec>("1NM2HFXin4cEQRBLjkNZAS98qLX9JKzjKn").unwrap();
    assert_eq!(hex::encode(a.as_body()), "ea2407829a5055466b27784cde8cf463167946bf");
    assert!(matches!(a.network, Network::Main));
    assert!(matches!(a.hash_type, HashType::Key));
}

#[test]
fn any_codec_decodes_cashaddr() {
    let a = Address::decode::<AnyCodec>("bchtest:qr4zgpuznfg923ntyauyeh5v7333v72xhum2dsdgfh")
        .unwrap();
    assert_eq!(hex::encode(a.as_body()), "ea2407829a5055466b27784cde8cf463167946bf");
    assert!(matches!(a.network, Network::Test));
}

#[test]
fn any_codec_reports_both_errors() {
    match Address::decode::<AnyCodec>("0") {
        Err((cash_err, base58_err)) => {
            assert!(matches!(cash_err, CashAddrDecodingError::NoPrefix));
            assert!(matches!(base58_err, Base58Error::InvalidChar('0')));
        }
        Ok(a) => panic!("decoded unexpectedly: {:?}", a),
    }
}

#[test]
fn address_accessors() {
    let body: Vec<u8> = (0u8..20).collect();
    let a = Address::new(body.clone(), HashType::Script, Network::Regtest);
    assert_eq!(a.as_body(), &body[..]);
    assert!(matches!(a.hash_type, HashType::Script));
    assert!(matches!(a.network, Network::Regtest));
    let d = Address::default();
    assert!(d.as_body().is_empty());
    assert!(matches!(d.hash_type, HashType::Key));
    assert!(matches!(d.network, Network::Main));
    assert_eq!(a.clone().into_body(), body);
}
