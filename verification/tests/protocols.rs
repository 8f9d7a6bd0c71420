use rustlab::dns::{
    build_query, encode_name, handle_query, name_ends, parse_name, parse_response, rcode_message,
    record_type_name, response_error_text, response_names_end, zone_names_unique, RData,
    ResponseError,
};
use rustlab::hpack::{
    decode, decode_integer, encode_indexed, encode_integer, encode_literal_new_name, static_entry,
    table_lookup,
};
use rustlab::toy_ca::{
    chain_error_text, gcd, issue_cert, make_rsa, modinv, toy_hash, verify_chain,
    verify_signature, ChainError,
};
use rustlab::toy_tls::{
    ca_sign, check_certificate, derive_session_key, frame, frame_header, mod_pow, next_rand,
    read_u64, rng_seed, seed_from_nanos, verify_cert, xor_cipher, CertCheck, DH_G, DH_P,
    SERVER_DH_PRIVATE, SERVER_NAME,
};

#[test]
fn dns_query_layout() {
    let q = build_query(0x1234, "example.com", 1);
    let mut expected = vec![0x12, 0x34, 0x01, 0x00, 0, 1, 0, 0, 0, 0, 0, 0, 7];
    expected.extend_from_slice(b"example");
    expected.push(3);
    expected.extend_from_slice(b"com");
    expected.extend_from_slice(&[0, 0, 1, 0, 1]);
    assert_eq!(q, expected);
    let mut buf = Vec::new();
    encode_name(&mut buf, ".a..b.");
    assert_eq!(buf, vec![1, b'a', 1, b'b', 0]);
}

#[test]
fn dns_name_round_trip() {
    let q = build_query(7, "www.example.local", 28);
    assert_eq!(parse_name(&q, 12), ("www.example.local".to_string(), 19));
    let mut with_pointer = q.clone();
    with_pointer.extend_from_slice(&[0xC0, 0x0C]);
    let at = with_pointer.len() - 2;
    assert_eq!(parse_name(&with_pointer, at), ("www.example.local".to_string(), 2));
    let mut buf = vec![9, 9, 9];
    encode_name(&mut buf, "日本語.例え.jp");
    let encoded_len = buf.len() - 3;
    buf.extend_from_slice(&[1, 2]);
    assert_eq!(parse_name(&buf, 3), ("日本語.例え.jp".to_string(), encoded_len));
}

#[test]
fn dns_pointer_loops_are_detected() {
    let q = build_query(7, "a.b", 1);
    assert!(name_ends(&q, 12));
    let mut looped = q.clone();
    let at = looped.len();
    looped.extend_from_slice(&[0xC0, at as u8]);
    assert!(!name_ends(&looped, at));
    let mut chain = q.clone();
    chain.extend_from_slice(&[0xC0, 12]);
    assert!(name_ends(&chain, at));
    let zone = vec![("a.b".to_string(), vec![[1, 2, 3, 4]])];
    let reply = handle_query(&q, &zone);
    assert!(response_names_end(&reply));
    let mut bad = reply.clone();
    bad[12] = 0xC0;
    bad[13] = 12;
    assert!(!response_names_end(&bad));
    assert!(response_names_end(&[0u8; 3]));
}

#[test]
fn dns_server_and_client() {
    let zone = vec![
        ("example.local".to_string(), vec![[10, 0, 0, 1]]),
        ("api.example.local".to_string(), vec![[10, 0, 0, 1], [10, 0, 0, 2]]),
    ];
    assert!(zone_names_unique(&zone));
    let twice = vec![("a".to_string(), vec![[1, 1, 1, 1]]), ("a".to_string(), vec![])];
    assert!(!zone_names_unique(&twice));
    let reply = handle_query(&build_query(0xBEEF, "api.example.local", 1), &zone);
    assert_eq!(&reply[..4], &[0xBE, 0xEF, 0x84, 0x00]);
    let answers = parse_response(&reply).ok().expect("answers");
    assert_eq!(answers.len(), 2);
    assert_eq!(answers[0].name, "api.example.local");
    assert_eq!(answers[0].rtype, 1);
    assert_eq!(answers[0].ttl, 60);
    assert!(matches!(answers[1].data, RData::A([10, 0, 0, 2])));
    let none = handle_query(&build_query(1, "nowhere.local", 1), &zone);
    assert!(matches!(parse_response(&none), Err(ResponseError::Rcode(3))));
    let aaaa = handle_query(&build_query(2, "example.local", 28), &zone);
    assert_eq!(parse_response(&aaaa).ok().expect("no error").len(), 0);
    assert!(matches!(parse_response(&[0u8; 5]), Err(ResponseError::ShortHeader)));
    assert_eq!(record_type_name(1), "A");
    assert_eq!(record_type_name(28), "AAAA");
    assert_eq!(rcode_message(3), "NXDOMAIN (名前が存在しない)");
    assert_eq!(rcode_message(0), "Unknown");
}

#[test]
fn hpack_integers() {
    assert_eq!(encode_indexed(2), vec![0x82]);
    assert_eq!(encode_indexed(62), vec![0xBE]);
    assert_eq!(encode_integer(10, 5, 0), vec![10]);
    assert_eq!(encode_integer(1337, 5, 0), vec![31, 154, 10]);
    assert_eq!(decode_integer(&[31, 154, 10], 5), (1337, 3));
    for v in [5usize, 62, 126, 127, 128, 1337, 1 << 20] {
        let enc = encode_indexed(v);
        assert_eq!(decode_integer(&enc, 7), (v, enc.len()));
    }
    assert_eq!(encode_indexed(127), vec![0xFF, 0x00]);
    assert_eq!(encode_indexed(1337), vec![0xFF, 0xBA, 0x09]);
}

#[test]
fn hpack_tables_and_amplification() {
    assert_eq!(static_entry(2), (":method", "GET"));
    assert_eq!(static_entry(61), ("www-authenticate", ""));
    let seed = encode_literal_new_name("cookie", "abcd");
    assert_eq!(seed, vec![0x40, 6, b'c', b'o', b'o', b'k', b'i', b'e', 4, b'a', b'b', b'c', b'd']);
    let mut wire = seed.clone();
    for _ in 0..3 {
        wire.extend(encode_indexed(62));
    }
    let mut dynamic: Vec<(String, String)> = Vec::new();
    let (headers, reconstructed) = decode(&wire, &mut dynamic);
    assert_eq!(headers.len(), 4);
    assert_eq!(headers[3], ("cookie".to_string(), "abcd".to_string()));
    assert_eq!(reconstructed, 40);
    assert_eq!(dynamic, vec![("cookie".to_string(), "abcd".to_string())]);
    assert_eq!(table_lookup(62, &dynamic), ("cookie".to_string(), "abcd".to_string()));
    assert_eq!(table_lookup(4, &dynamic), (":path".to_string(), "/".to_string()));
}

#[test]
fn modular_power_and_dh_agreement() {
    assert_eq!(mod_pow(4, 13, 497), 445);
    assert_eq!(mod_pow(7, 0, 13), 1);
    assert_eq!(mod_pow(7, 5, 1), 0);
    let client_secret = 123_456_789u64;
    let server_pub = mod_pow(DH_G, SERVER_DH_PRIVATE, DH_P);
    let client_pub = mod_pow(DH_G, client_secret, DH_P);
    assert_eq!(server_pub, 862_962_236_816_709_715);
    assert_eq!(
        mod_pow(server_pub, client_secret, DH_P),
        mod_pow(client_pub, SERVER_DH_PRIVATE, DH_P)
    );
}

#[test]
fn cipher_round_trip_and_keys() {
    let key = derive_session_key(42, 1, 2);
    assert_eq!(key, derive_session_key(42, 1, 2));
    assert_ne!(key, derive_session_key(42, 1, 3));
    let data = b"GET /secret HTTP/1.1";
    let sealed = xor_cipher(data, key);
    assert_ne!(sealed, data.to_vec());
    assert_eq!(xor_cipher(&sealed, key), data.to_vec());
    let mut state = 1u64;
    let r = next_rand(&mut state);
    assert_eq!(r, 1u64.wrapping_mul(6_364_136_223_846_793_005).wrapping_add(1_442_695_040_888_963_407));
    assert_eq!(state, r);
    assert_eq!(seed_from_nanos(Some(10)), 11);
    assert_eq!(seed_from_nanos(Some((1u128 << 64) | 10)), 11);
    assert_eq!(seed_from_nanos(Some(u128::MAX)), u64::MAX);
    assert_eq!(seed_from_nanos(None), 0x1234_5678_9abc_def1);
    assert_eq!(rng_seed() % 2, 1);
}

#[test]
fn handshake_channel() {
    let client_secret = 987_654_321u64;
    let (client_random, server_random) = (0x1111_2222_3333_4444u64, 0x5555_6666_7777_8888u64);
    let server_pub = mod_pow(DH_G, SERVER_DH_PRIVATE, DH_P);
    let client_pub = mod_pow(DH_G, client_secret, DH_P);
    let client_key =
        derive_session_key(mod_pow(server_pub, client_secret, DH_P), client_random, server_random);
    let server_key =
        derive_session_key(mod_pow(client_pub, SERVER_DH_PRIVATE, DH_P), client_random, server_random);
    assert_eq!(client_key, server_key);
    let request = b"GET / HTTP/1.1\r\nHost: toytls.local\r\n\r\n";
    let sealed = xor_cipher(request, client_key);
    assert_eq!(xor_cipher(&sealed, server_key), request.to_vec());
}

#[test]
fn certificate_checks() {
    let server_pub = mod_pow(DH_G, SERVER_DH_PRIVATE, DH_P);
    let sig = ca_sign(SERVER_NAME, server_pub);
    assert_eq!(sig, 112);
    assert!(verify_cert(SERVER_NAME, server_pub, sig));
    assert!(!verify_cert(SERVER_NAME, server_pub, sig + 1));
    assert!(check_certificate(SERVER_NAME, server_pub, sig) == CertCheck::Trusted);
    assert!(check_certificate(SERVER_NAME, server_pub, sig + 1) == CertCheck::BadSignature);
    let evil = ca_sign("evil.local", server_pub);
    assert!(check_certificate("evil.local", server_pub, evil) == CertCheck::WrongName);
}

#[test]
fn framing() {
    let f = frame(6, b"abc");
    assert_eq!(f, vec![6, 0, 0, 0, 3, b'a', b'b', b'c']);
    assert_eq!(frame_header([7, 0, 1, 0, 2]), (7, 65538));
    assert_eq!(read_u64(&[0, 0, 0, 0, 0, 0, 1, 2, 99]), 258);
}

#[test]
fn rsa_keys() {
    assert_eq!(gcd(48, 18), 6);
    assert_eq!(gcd(7, 0), 7);
    assert_eq!(modinv(3, 11), 4);
    assert_eq!(modinv(7, 3120), 1783);
    assert_eq!(modinv(4, 6), 5);
    assert_eq!(modinv(0, 5), 0);
    let k = make_rsa(61, 53);
    assert_eq!((k.e, k.d, k.n), (7, 1783, 3233));
    assert_eq!(k.public(), (7, 3233));
    let m = 65u64;
    assert_eq!(mod_pow(k.sign(m), k.e, k.n), m);
    assert_eq!(toy_hash(b""), 14_695_981_039_346_656_037);
}

#[test]
fn every_digest_round_trips() {
    let k = make_rsa(61, 53);
    for m in 0..k.n {
        assert_eq!(mod_pow(k.sign(m), k.e, k.n), m);
    }
    let k = make_rsa(107, 127);
    for m in (0..k.n).step_by(97) {
        assert_eq!(mod_pow(k.sign(m), k.e, k.n), m);
    }
    for name in ["toytls.local", "a", "", "evil.local"] {
        for key in [0u64, 1, 5, u64::MAX] {
            assert!(verify_cert(name, key, ca_sign(name, key)));
        }
    }
}

const TODAY: u64 = 20260609;
const HOST: &str = "toytls.local";

#[test]
fn chain_scenarios() {
    let root_key = make_rsa(101, 113);
    let inter_key = make_rsa(107, 127);
    let server_key = make_rsa(131, 139);
    let root_cert = issue_cert("Root CA", "Root CA", 20350101, root_key.public(), &root_key);
    assert!(verify_signature(&root_cert, root_key.public()));
    let inter_cert =
        issue_cert("Intermediate CA", "Root CA", 20300101, inter_key.public(), &root_key);
    let server_cert =
        issue_cert(HOST, "Intermediate CA", 20270609, server_key.public(), &inter_key);
    let anchor = ("Root CA", root_key.public());
    assert!(matches!(verify_chain(&server_cert, &inter_cert, anchor, TODAY, HOST), Ok(())));

    let mut tampered = server_cert.clone();
    tampered.not_after = 20990101;
    assert!(matches!(
        verify_chain(&tampered, &inter_cert, anchor, TODAY, HOST),
        Err(ChainError::ServerSignature)
    ));

    let expired = issue_cert(HOST, "Intermediate CA", 20250101, server_key.public(), &inter_key);
    assert!(matches!(
        verify_chain(&expired, &inter_cert, anchor, TODAY, HOST),
        Err(ChainError::ServerExpired)
    ));

    let evil_root = make_rsa(149, 151);
    let evil_inter_key = make_rsa(157, 163);
    let evil_server_key = make_rsa(167, 173);
    let evil_inter =
        issue_cert("Intermediate CA", "Root CA", 20300101, evil_inter_key.public(), &evil_root);
    let evil_server =
        issue_cert(HOST, "Intermediate CA", 20270609, evil_server_key.public(), &evil_inter_key);
    assert!(matches!(
        verify_chain(&evil_server, &evil_inter, anchor, TODAY, HOST),
        Err(ChainError::IntermediateSignature)
    ));

    assert!(matches!(
        verify_chain(&server_cert, &inter_cert, ("Other Root", root_key.public()), TODAY, HOST),
        Err(ChainError::IntermediateIssuer)
    ));
    assert!(matches!(
        verify_chain(&server_cert, &inter_cert, anchor, 20310101, HOST),
        Err(ChainError::IntermediateExpired)
    ));
    assert!(matches!(
        verify_chain(&server_cert, &root_cert, anchor, TODAY, HOST),
        Err(ChainError::ServerIssuer)
    ));
    assert!(matches!(
        verify_chain(&server_cert, &inter_cert, anchor, TODAY, "other.local"),
        Err(ChainError::HostnameMismatch)
    ));
}

#[test]
fn dns_texts() {
    assert_eq!(response_error_text(&ResponseError::ShortHeader), "DNSヘッダーが12バイト未満");
    assert_eq!(
        response_error_text(&ResponseError::Rcode(3)),
        "DNS RCODE=3 (NXDOMAIN (名前が存在しない))"
    );
    assert_eq!(response_error_text(&ResponseError::Rcode(9)), "DNS RCODE=9 (Unknown)");
    assert_eq!(RData::A([192, 168, 1, 100]).text().as_deref(), Some("192.168.1.100"));
    assert_eq!(RData::A([0, 0, 0, 0]).text().as_deref(), Some("0.0.0.0"));
    assert_eq!(RData::Cname("www.example.com".to_string()).text().as_deref(), Some("www.example.com"));
    assert_eq!(RData::Other { rtype: 15, len: 20 }.text().as_deref(), Some("(type=15, 20 bytes)"));
    assert!(RData::Aaaa([0; 16]).text().is_none());
}

#[test]
fn chain_error_texts() {
    let root_key = make_rsa(101, 113);
    let inter_key = make_rsa(107, 127);
    let server_key = make_rsa(131, 139);
    let inter = issue_cert("Intermediate CA", "Root CA", 20300101, inter_key.public(), &root_key);
    let server = issue_cert(HOST, "Intermediate CA", 20250101, server_key.public(), &inter_key);
    let err = verify_chain(&server, &inter, ("Root CA", root_key.public()), TODAY, HOST).err();
    assert!(matches!(err, Some(ChainError::ServerExpired)));
    assert_eq!(
        chain_error_text(ChainError::ServerExpired, &server, &inter, "Root CA", TODAY, HOST),
        "サーバー証明書が期限切れ (期限=20250101, 今日=20260609)"
    );
    assert_eq!(
        chain_error_text(ChainError::IntermediateIssuer, &server, &inter, "Other Root", TODAY, HOST),
        "中間CAの発行者 \"Root CA\" が、信頼するルート \"Other Root\" と一致しない"
    );
    assert_eq!(
        chain_error_text(ChainError::HostnameMismatch, &server, &inter, "Root CA", TODAY, "x.local"),
        "証明書の名前 \"toytls.local\" がアクセス先 \"x.local\" と一致しない"
    );
    assert_eq!(
        chain_error_text(ChainError::ServerSignature, &server, &inter, "Root CA", TODAY, HOST),
        "サーバー証明書の署名が中間CAの公開鍵で検証できない (改ざんの疑い)"
    );
}

#[test]
fn only_the_ca_signature_passes() {
    for (name, key) in [("toytls.local", 5u64), ("evil.local", 862_962_236_816_709_715), ("", 0)] {
        let genuine = ca_sign(name, key);
        for sig in 0..3233u64 {
            assert_eq!(verify_cert(name, key, sig), sig == genuine);
        }
        assert!(verify_cert(name, key, genuine + 3233));
        assert!(!verify_cert(name, key, genuine ^ 1));
    }
}
