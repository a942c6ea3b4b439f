//! Keys and tunnel parameters.
use base64::Engine;
use corplink_tunnel::conf::{b64_32, key_of_bytes, parse_address, trim, ConfError, KeyError, TunnelParams, WgConf};
use corplink_tunnel::ipv4::Ipv4;

fn encode(bytes: &[u8]) -> String {
    base64::engine::general_purpose::STANDARD.encode(bytes)
}

fn conf() -> WgConf {
    WgConf {
        address: "10.0.0.2/24".to_string(),
        peer_address: "192.0.2.1:443".to_string(),
        mtu: 1400,
        private_key: encode(&[1; 32]),
        peer_key: encode(&[2; 32]),
        dns: "10.0.0.1".to_string(),
        protocol: 1,
        allowed_ips: Vec::new(),
    }
}

#[test]
fn key_is_read() {
    let bytes: Vec<u8> = (0..32).collect();
    let text = encode(&bytes);
    assert_eq!(text, "AAECAwQFBgcICQoLDA0ODxAREhMUFRYXGBkaGxwdHh8=");
    match b64_32(&text) {
        Ok(key) => assert_eq!(key.to_vec(), bytes),
        Err(_) => panic!("refused"),
    }
    let padded = format!(" \t{text}\r\n\u{3000}");
    match b64_32(&padded) {
        Ok(key) => assert_eq!(key.to_vec(), bytes),
        Err(_) => panic!("refused"),
    }
}

#[test]
fn bad_keys_are_refused() {
    assert!(matches!(b64_32("not base64!"), Err(KeyError::NotBase64(_))));
    assert!(matches!(b64_32("AAECAw=="), Err(KeyError::NotThirtyTwoBytes)));
    assert!(matches!(b64_32(""), Err(KeyError::NotThirtyTwoBytes)));
    // Padding is required.
    assert!(matches!(b64_32("AAECAwQFBgcICQoLDA0ODxAREhMUFRYXGBkaGxwdHh8"), Err(KeyError::NotBase64(_))));
    assert!(key_of_bytes(&vec![0; 31]).is_none());
    assert!(key_of_bytes(&vec![0; 33]).is_none());
    assert_eq!(key_of_bytes(&vec![9; 32]), Some([9; 32]));
}

#[test]
fn trimming_agrees_with_std() {
    for text in ["", " ", "a", " a b ", "\u{85}x\u{a0}", "\u{2028}\u{1680}y\u{205f}", "\u{200b}z", "\n\u{b}\u{c}q"] {
        assert_eq!(trim(text), text.trim());
    }
}

#[test]
fn address_and_prefix() {
    assert_eq!(parse_address("10.0.0.2/24"), Some((Ipv4::new(10, 0, 0, 2), 24)));
    assert_eq!(parse_address("10.0.0.2"), Some((Ipv4::new(10, 0, 0, 2), 32)));
    assert_eq!(parse_address("10.0.0.2/"), Some((Ipv4::new(10, 0, 0, 2), 32)));
    assert_eq!(parse_address("10.0.0.2/x"), Some((Ipv4::new(10, 0, 0, 2), 32)));
    assert_eq!(parse_address("10.0.0.2/300"), Some((Ipv4::new(10, 0, 0, 2), 32)));
    assert_eq!(parse_address("10.0.0.2/16/8"), Some((Ipv4::new(10, 0, 0, 2), 16)));
    assert_eq!(parse_address("10.0.0.2/99"), Some((Ipv4::new(10, 0, 0, 2), 99)));
    assert_eq!(parse_address("/24"), None);
    assert_eq!(parse_address("fe80::1/64"), None);
}

#[test]
fn parameters_of_a_configuration() {
    let p = match TunnelParams::from_conf(&conf()) {
        Ok(p) => p,
        Err(_) => panic!("refused"),
    };
    assert_eq!(p.private_key, [1; 32]);
    assert_eq!(p.peer_key, [2; 32]);
    assert_eq!((p.ip, p.prefix), (Ipv4::new(10, 0, 0, 2), 24));
    assert_eq!(p.gateway, Ipv4::new(10, 0, 0, 1));
    assert_eq!(p.dns, Ipv4::new(10, 0, 0, 1));
    assert_eq!(p.mtu, 1400);
    assert!(p.is_assignable());
}

#[test]
fn dns_falls_back() {
    for dns in ["", "dns.example", "10.0.0.1 "] {
        let c = WgConf { dns: dns.to_string(), ..conf() };
        match TunnelParams::from_conf(&c) {
            Ok(p) => assert_eq!(p.dns, Ipv4::new(1, 1, 1, 1)),
            Err(_) => panic!("refused"),
        }
    }
}

#[test]
fn errors_come_in_order() {
    let bad = "?".to_string();
    let c = WgConf { private_key: bad.clone(), peer_key: bad.clone(), address: bad.clone(), ..conf() };
    assert!(matches!(TunnelParams::from_conf(&c), Err(ConfError::PrivateKey(KeyError::NotBase64(_)))));
    let c = WgConf { peer_key: "AAAA".to_string(), address: bad.clone(), ..conf() };
    assert!(matches!(TunnelParams::from_conf(&c), Err(ConfError::PeerKey(KeyError::NotThirtyTwoBytes))));
    let c = WgConf { peer_key: bad.clone(), ..conf() };
    assert!(matches!(TunnelParams::from_conf(&c), Err(ConfError::PeerKey(KeyError::NotBase64(_)))));
    let c = WgConf { private_key: "AAAA".to_string(), peer_key: bad.clone(), ..conf() };
    assert!(matches!(TunnelParams::from_conf(&c), Err(ConfError::PrivateKey(KeyError::NotThirtyTwoBytes))));
    let c = WgConf { address: bad, ..conf() };
    assert!(matches!(TunnelParams::from_conf(&c), Err(ConfError::Address)));
}

#[test]
fn unassignable_addresses() {
    for address in ["10.0.0.2/33", "255.255.255.255/24", "239.1.1.1/24"] {
        let c = WgConf { address: address.to_string(), ..conf() };
        match TunnelParams::from_conf(&c) {
            Ok(p) => assert!(!p.is_assignable(), "{address}"),
            Err(_) => panic!("refused"),
        }
    }
}
