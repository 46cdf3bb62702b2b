use sbox::base85::{decode85, encode85};
use sbox::error::SboxError;
use sbox::header::header_json;
use sbox::keyring::{keyid, load_keyring};
use sbox::protocol::{
    sbox, sbox_with_headers, sbox_with_headers_and_scope, sbox_with_headers_scope_and_nonce,
    sbox_with_scope, unsbox,
};
use sbox::spritz::{aead, aead_decrypt, hash, keystream};

const TEST_SCOPE_KEYS: &str = "aaaaaaaaaaaaaaaaaaaaaaaaaaaaaaaaaaaaaaaa\n";

const TOKEN_DATA: &str = "%Cl*awJGQB/!!!!!!!!!!!!!!!/NWuTFJnH>99c5b_L0-k7FzNB|2-6/`j3|\
     7XFwj^sll#C.G4>v%EJo!AQz;Vb5mmcIMkgBK&cLB@C>m=.w074[lVu#r?~";

const TOKEN_WOO: &str = "%Cl*awJGQB/!!!!!!!!!!!!!!!/NWuTFJnH>99c5b_L0-k7FzNB|2-6/agq~\
     IqSSb1h4a.H0_@<{&kjL!rR(ORtq4+uf~*%.qnofsHf7q";

fn check_sbox(expected_boxed: &str, expected_header: &str, expected_data: &str) {
    let actual_unboxed = unsbox(expected_boxed, TEST_SCOPE_KEYS).unwrap();
    assert_eq!(actual_unboxed.0, expected_header);
    assert_eq!(actual_unboxed.1, Ok(expected_data.as_bytes().to_vec()));

    let actual_boxed = sbox_with_headers_scope_and_nonce(
        expected_data.as_bytes(),
        &Vec::new(),
        "test_scope",
        TEST_SCOPE_KEYS,
        &[0u8; 12],
    );
    assert_eq!(actual_boxed, Ok(expected_boxed.to_string()));
}

#[test]
fn test_sbox() {
    check_sbox(TOKEN_DATA, "{\"scope\":\"test_scope\"}", "this is some data!");
    check_sbox(TOKEN_WOO, "{\"scope\":\"test_scope\"}", "woo hoo");
}

fn check_keyid(key: &str, expected_keyid: &str) {
    assert_eq!(keyid(key.as_bytes()), expected_keyid);
}

#[test]
fn test_keyid() {
    check_keyid("my_key_id", "mVU!c-nS?_");
    check_keyid("ABC", "isZ{2O{{&8");
    check_keyid("spam", "ZT+[pIT.OQ");
    check_keyid("arcfour", "V.|2:mM`g(");
}

#[test]
fn hash_prefixes_match_reference_digests() {
    for (msg, expected) in [("ABC", "!n{-gSr&iS"), ("spam", "`Rs3^;A9U3"), ("arcfour", "{2ESf%~&2j")] {
        let h = hash(msg.as_bytes(), 32);
        assert_eq!(h.len(), 32);
        assert_eq!(h[..8].to_vec(), decode85(expected).unwrap());
    }
}

#[test]
fn hash_of_abc_gives_its_keyid_digest() {
    assert_eq!(hash(b"ABC", 8), decode85("isZ{2O{{&8").unwrap());
}

#[test]
fn hash_length_is_the_requested_length() {
    assert_eq!(hash(b"", 5).len(), 5);
    assert_eq!(hash(b"", 5), vec![0x2c, 0xef, 0xdb, 0xe3, 0x78]);
    assert_eq!(hash(b"", 0).len(), 0);
    assert_eq!(hash(&[7u8; 300], 255).len(), 255);
}

#[test]
fn aead_matches_reference_vectors() {
    let cases = [
        ("ABC", "Rv0(1hs@aK7O^;R-I4^ss^SC6Q-pB*x!M4&kJm:PyQXV"),
        ("spam", "e%{bhFYJ__;BBc>d~{_eHnBAEU7*-{I<+wZYxIO7@j4d_"),
        ("arcfour", "_<L|Qat+pGNrAs+Xc!R|vi8v%4axmYPr~ac&We.wJ;9iiPjZ+"),
    ];
    for (msg, expected) in cases {
        let sealed = aead(b"key", b"nonce", b"header", msg.as_bytes(), 32);
        assert_eq!(sealed, decode85(expected).unwrap());
        let opened = aead_decrypt(b"key", b"nonce", b"header", &sealed, 32);
        assert_eq!(opened, Ok(msg.as_bytes().to_vec()));
    }
}

#[test]
fn aead_is_deterministic() {
    let a = aead(b"k", &[1u8; 12], b"h", b"payload", 32);
    let b = aead(b"k", &[1u8; 12], b"h", b"payload", 32);
    assert_eq!(a, b);
    assert_eq!(a.len(), 7 + 32);
}

#[test]
fn aead_long_message_round_trips() {
    let m: Vec<u8> = (0..200u32).map(|x| (x * 7) as u8).collect();
    let sealed = aead(b"key", &[9u8; 12], b"aad", &m, 16);
    assert_eq!(sealed.len(), 216);
    assert_eq!(aead_decrypt(b"key", &[9u8; 12], b"aad", &sealed, 16), Ok(m));
}

#[test]
fn aead_rejects_tampering() {
    let sealed = aead(b"key", &[0u8; 12], b"aad", b"secret", 32);
    for i in 0..sealed.len() {
        let mut bad = sealed.clone();
        bad[i] ^= 1;
        assert_eq!(
            aead_decrypt(b"key", &[0u8; 12], b"aad", &bad, 32),
            Err(SboxError::AuthenticationFailure)
        );
    }
    assert_eq!(
        aead_decrypt(b"key", &[0u8; 12], b"aae", &sealed, 32),
        Err(SboxError::AuthenticationFailure)
    );
    assert_eq!(
        aead_decrypt(b"kez", &[0u8; 12], b"aad", &sealed, 32),
        Err(SboxError::AuthenticationFailure)
    );
    assert_eq!(
        aead_decrypt(b"key", &[0u8; 12], b"aad", &sealed[..10], 32),
        Err(SboxError::AuthenticationFailure)
    );
}

#[test]
fn base85_known_encodings() {
    assert_eq!(encode85(b""), "");
    assert_eq!(encode85(&[0u8]), "!!");
    assert_eq!(encode85(&[0xff, 0xff, 0xff, 0xff]), "{>_3!");
    assert_eq!(encode85(b"hello world"), "HU~!zJer=HKjw=");
    assert_eq!(encode85(&[0u8; 12]), "!!!!!!!!!!!!!!!");
}

#[test]
fn base85_round_trips() {
    for n in 0..20usize {
        let b: Vec<u8> = (0..n).map(|x| (x * 37 + 200) as u8).collect();
        assert_eq!(decode85(&encode85(&b)), Ok(b));
    }
    assert_eq!(decode85(""), Ok(Vec::new()));
}

#[test]
fn base85_rejects_malformed_text() {
    assert_eq!(decode85("!"), Err(SboxError::InvalidEncoding));
    assert_eq!(decode85("!!!!!!"), Err(SboxError::InvalidEncoding));
    assert_eq!(decode85("ab/cd"), Err(SboxError::InvalidEncoding));
    assert_eq!(decode85("ab cd"), Err(SboxError::InvalidEncoding));
    assert_eq!(decode85("~~~~~"), Err(SboxError::InvalidEncoding));
}

#[test]
fn keyring_selects_last_key_and_keeps_older_ones() {
    let k1 = encode85(b"first key");
    let k2 = encode85(b"second key");
    let text = format!("{} comment\n\n{}\n", k1, k2);
    let kr = load_keyring(&text).unwrap();
    assert_eq!(kr.current_key(), &b"second key".to_vec());
    assert_eq!(kr.lookup(&keyid(b"first key")), Ok(&b"first key".to_vec()));
    assert_eq!(kr.lookup(&keyid(b"second key")), Ok(&b"second key".to_vec()));
    assert_eq!(kr.lookup(&keyid(b"third key")), Err(SboxError::UnknownKeyId));
}

#[test]
fn keyring_errors() {
    assert!(matches!(load_keyring(""), Err(SboxError::NoUsableKeys)));
    assert!(matches!(load_keyring("\n\n"), Err(SboxError::NoUsableKeys)));
    assert!(matches!(load_keyring("a/b\n"), Err(SboxError::InvalidEncoding)));
}

#[test]
fn key_rotation_keeps_old_messages_readable() {
    let k1 = encode85(b"old key material");
    let k2 = encode85(b"new key material");
    let before = format!("{}\n", k1);
    let after = format!("{}\n{}\n", k1, k2);
    let old_token =
        sbox_with_headers_scope_and_nonce(b"kept", &Vec::new(), "s", &before, &[3u8; 12]).unwrap();
    let opened = unsbox(&old_token, &after).unwrap();
    assert_eq!(opened.1, Ok(b"kept".to_vec()));
    let new_token =
        sbox_with_headers_scope_and_nonce(b"kept", &Vec::new(), "s", &after, &[3u8; 12]).unwrap();
    assert!(new_token.starts_with(&keyid(b"new key material")));
    assert_eq!(unsbox(&new_token, &before), Err(SboxError::UnknownKeyId));
}

#[test]
fn nonce_changes_the_token() {
    let a = sbox_with_headers_scope_and_nonce(b"same", &Vec::new(), "s", TEST_SCOPE_KEYS, &[0u8; 12]);
    let b = sbox_with_headers_scope_and_nonce(b"same", &Vec::new(), "s", TEST_SCOPE_KEYS, &[1u8; 12]);
    let (a, b) = (a.unwrap(), b.unwrap());
    assert_ne!(a.split('/').nth(3), b.split('/').nth(3));
}

#[test]
fn headers_are_authenticated_and_returned() {
    let headers = vec![
        ("from".to_string(), "me \"quoted\"".to_string()),
        ("scope".to_string(), "ignored".to_string()),
    ];
    assert_eq!(
        header_json(&headers, "real"),
        "{\"from\":\"me \\\"quoted\\\"\",\"scope\":\"real\"}"
    );
    let token = sbox_with_headers_and_scope(b"data", &headers, "real", TEST_SCOPE_KEYS).unwrap();
    let (h, res) = unsbox(&token, TEST_SCOPE_KEYS).unwrap();
    assert_eq!(h, "{\"from\":\"me \\\"quoted\\\"\",\"scope\":\"real\"}");
    assert_eq!(res, Ok(b"data".to_vec()));

    let fields: Vec<&str> = token.split('/').collect();
    let forged = encode85(b"{\"scope\":\"real\"}");
    let tampered = format!("{}/{}/{}/{}", fields[0], fields[1], forged, fields[3]);
    let (h2, res2) = unsbox(&tampered, TEST_SCOPE_KEYS).unwrap();
    assert_eq!(h2, "{\"scope\":\"real\"}");
    assert_eq!(res2, Err(SboxError::AuthenticationFailure));
}

#[test]
fn tampered_fields_never_open() {
    let token =
        sbox_with_headers_scope_and_nonce(b"payload", &Vec::new(), "t", TEST_SCOPE_KEYS, &[5u8; 12])
            .unwrap();
    let fields: Vec<&str> = token.split('/').collect();
    for f in 0..4 {
        let mut bytes = decode85(fields[f]).unwrap();
        bytes[0] ^= 0x80;
        let mut parts: Vec<String> = fields.iter().map(|s| s.to_string()).collect();
        parts[f] = encode85(&bytes);
        let bad = parts.join("/");
        match unsbox(&bad, TEST_SCOPE_KEYS) {
            Err(SboxError::UnknownKeyId) => assert_eq!(f, 0),
            Err(SboxError::MalformedMessage) => assert_eq!(f, 2),
            Ok((_, res)) => assert_eq!(res, Err(SboxError::AuthenticationFailure)),
            Err(e) => panic!("unexpected error {:?}", e),
        }
    }
}

#[test]
fn malformed_tokens_are_rejected() {
    assert_eq!(unsbox("a/b/c", TEST_SCOPE_KEYS), Err(SboxError::MalformedMessage));
    assert_eq!(unsbox("a/b/c/d/e", TEST_SCOPE_KEYS), Err(SboxError::MalformedMessage));
    let fields: Vec<&str> = TOKEN_DATA.split('/').collect();
    let bad = format!("{}/{}/{}/{}", fields[0], "!", fields[2], fields[3]);
    assert_eq!(unsbox(&bad, TEST_SCOPE_KEYS), Err(SboxError::InvalidEncoding));
    assert_eq!(unsbox(TOKEN_DATA, ""), Err(SboxError::NoUsableKeys));
}

#[test]
fn random_nonce_seals_open() {
    let t1 = sbox_with_scope(b"hello", "s", TEST_SCOPE_KEYS).unwrap();
    let t2 = sbox(b"hello", "user", TEST_SCOPE_KEYS).unwrap();
    let t3 = sbox_with_headers(b"hello", &Vec::new(), "user", TEST_SCOPE_KEYS).unwrap();
    for t in [&t1, &t2, &t3] {
        assert_eq!(unsbox(t, TEST_SCOPE_KEYS).unwrap().1, Ok(b"hello".to_vec()));
    }
    assert_eq!(unsbox(&t2, TEST_SCOPE_KEYS).unwrap().0, "{\"scope\":\"user\"}");
    assert_eq!(sbox_with_scope(b"x", "s", ""), Err(SboxError::NoUsableKeys));
}

#[test]
fn keystream_matches_reference_vectors() {
    for (msg, expected) in [("ABC", "MLLTuyBE.B"), ("spam", "v<pd0vU-[@"), ("arcfour", ".b%F~r%Dh;")] {
        assert_eq!(keystream(msg.as_bytes(), 8), decode85(expected).unwrap());
    }
    assert_eq!(keystream(b"ABC", 0), Vec::<u8>::new());
}

#[test]
fn keyring_takes_first_whitespace_delimited_token() {
    let k = encode85(b"tabbed key");
    let plain = load_keyring(&format!("{}\n", k)).unwrap();
    for text in [
        format!("  {}\n", k),
        format!("\t{}\tnote\n", k),
        format!("{}\r\n", k),
        format!("{} trailing words\n", k),
        format!(" \t\r\n{}\n   \n", k),
    ] {
        let kr = load_keyring(&text).unwrap();
        assert_eq!(kr.current_key(), plain.current_key());
        assert_eq!(kr.lookup(&keyid(b"tabbed key")), Ok(&b"tabbed key".to_vec()));
    }
}

#[test]
fn keyring_never_holds_an_empty_key() {
    assert!(matches!(load_keyring(" "), Err(SboxError::NoUsableKeys)));
    assert!(matches!(load_keyring(" \t\r\n  \n"), Err(SboxError::NoUsableKeys)));
    let k = encode85(b"only key");
    let kr = load_keyring(&format!(" x\n{}\n", k));
    assert!(matches!(kr, Err(SboxError::InvalidEncoding)));
    let kr = load_keyring(&format!("{}\n \n", k)).unwrap();
    assert_eq!(kr.current_key(), &b"only key".to_vec());
}

#[test]
fn repeated_header_keys_keep_the_last_value() {
    let headers = vec![
        ("a".to_string(), "1".to_string()),
        ("b".to_string(), "2".to_string()),
        ("a".to_string(), "3".to_string()),
    ];
    assert_eq!(header_json(&headers, "s"), "{\"a\":\"3\",\"b\":\"2\",\"scope\":\"s\"}");
}

#[test]
fn header_escapes_control_characters() {
    let headers = vec![("k".to_string(), "a\\b\t\u{1}\u{7f}é".to_string())];
    assert_eq!(
        header_json(&headers, "s"),
        "{\"k\":\"a\\\\b\\t\\u0001\u{7f}é\",\"scope\":\"s\"}"
    );
}
