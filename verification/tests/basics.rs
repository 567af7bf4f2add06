use bigpaw::addr::Ipv4Addr;
use bigpaw::digest::{blake3_of, Blake3};
use bigpaw::identity::{
    certificate_names, fp_of, peer_fingerprint, pin_matches, Identity, IdentityError,
};
use bigpaw::json::{write_object, write_pairs, JsonValue, Member};
use bigpaw::moment::Instant;
use bigpaw::numeral::decimal_of;
use bigpaw::text::{less_text, same_text, to_ascii_lowercase, trim};
use bigpaw::utf8::{char_width, truncated};

#[test]
fn an_identity_is_made_of_what_was_created() {
    assert_eq!(certificate_names(), vec!["bigpaw".to_string()]);
    let made = Identity::created(Ok((vec![1, 2, 3], vec![4]))).unwrap();
    assert_eq!((made.cert_der.as_slice(), made.key_der.as_slice()), (&[1, 2, 3][..], &[4][..]));
    assert_eq!(made.fingerprint, fp_of(&[1, 2, 3]));
    match Identity::created(Err("no entropy".to_string())) {
        Err(e) => assert_eq!(e, IdentityError::Rcgen("no entropy".to_string())),
        Ok(_) => panic!("made out of nothing"),
    }
}

#[test]
fn addresses_are_read_and_written() {
    assert_eq!(Ipv4Addr::parse("192.168.1.10"), Some(Ipv4Addr::new(192, 168, 1, 10)));
    for bad in ["", "1.2.3", "1.2.3.4.5", "1.2.3.256", "01.2.3.4", "1.2.3.a", " 1.2.3.4", "+1.2.3.4"] {
        assert_eq!(Ipv4Addr::parse(bad), None);
    }
    let ip = Ipv4Addr::new(0, 10, 255, 1);
    assert_eq!(ip.to_text(), "0.10.255.1");
    assert_eq!(Ipv4Addr::parse(&ip.to_text()), Some(ip));
    assert_eq!(ip.octets(), (0, 10, 255, 1));
}

#[test]
fn fingerprint_is_the_digest_in_hexadecimal() {
    let fp = fp_of(b"abc");
    assert_eq!(fp, "ba7816bf8f01cfea414140de5dae2223b00361a396177a9cb410ff61f20015ad");
    let id = Identity::from_parts(b"abc".to_vec(), vec![1]);
    assert_eq!(id.fingerprint, fp);
    assert!(pin_matches(b"abc", &fp));
    assert!(!pin_matches(b"abd", &fp));
}

#[test]
fn fingerprint_is_stable_across_reload() {
    let (first, fresh) = Identity::load_or_create(None).unwrap();
    assert!(fresh);
    let found = Some((first.cert_der.clone(), first.key_der.clone()));
    let (second, fresh) = Identity::load_or_create(found).unwrap();
    assert!(!fresh);
    assert_eq!(first.fingerprint, second.fingerprint);
    assert_eq!(first.fingerprint.len(), 64);
    assert!(first.fingerprint.chars().all(|c| c.is_ascii_hexdigit() && !c.is_ascii_uppercase()));
}

#[test]
fn distinct_dirs_get_distinct_identities() {
    let (a, _) = Identity::load_or_create(None).unwrap();
    let (b, _) = Identity::load_or_create(None).unwrap();
    assert_ne!(a.fingerprint, b.fingerprint);
    assert_ne!(a.key_der, b.key_der);
}

#[test]
fn errors_of_an_identity_are_told() {
    assert_eq!(IdentityError::Io("x".to_string()).to_text(), "io: x");
    assert_eq!(IdentityError::Rcgen("x".to_string()).to_text(), "证书生成失败: x");
}

#[test]
fn handshake_identifies_both_fingerprints() {
    assert_eq!(peer_fingerprint(&[b"abc".to_vec(), b"other".to_vec()]), Some(fp_of(b"abc")));
    assert_eq!(peer_fingerprint(&[]), None);
}

#[test]
fn wrong_pin_is_rejected() {
    assert!(!pin_matches(b"certificate", &"0".repeat(64)));
}

#[test]
fn a_digest_does_not_depend_on_the_pieces() {
    let mut h = Blake3::new();
    h.update(b"hello ");
    h.update(b"");
    h.update(b"world");
    assert_eq!(h.hex(), blake3_of(b"hello world"));
    assert_eq!(
        blake3_of(b""),
        "af1349b9f5f9a1a6a0404dea36dcc9499bcb25c9adc112b7cc9a93cae41f3262"
    );
}

#[test]
fn objects_are_written_as_json() {
    let members = vec![
        Member { key: "v".to_string(), value: JsonValue::Number(7) },
        Member { key: "t".to_string(), value: JsonValue::Text("a\"\\\n\u{8}\u{1f}é/".to_string()) },
    ];
    assert_eq!(
        write_object(&members),
        "{\"v\":7,\"t\":\"a\\\"\\\\\\n\\b\\u001fé/\"}".as_bytes().to_vec()
    );
    assert_eq!(write_object(&vec![]), b"{}".to_vec());
    let pairs = vec![
        ("a".to_string(), "b\"c".to_string()),
        ("d".to_string(), "".to_string()),
    ];
    assert_eq!(write_pairs(&pairs), "[[\"a\",\"b\\\"c\"],[\"d\",\"\"]]");
    assert_eq!(write_pairs(&vec![]), "[]");
}

#[test]
fn text_is_cut_between_characters() {
    assert_eq!(truncated("aé猫🐾", 10), "aé猫🐾");
    assert_eq!(truncated("aé猫🐾", 9), "aé猫");
    assert_eq!(truncated("aé猫🐾", 2), "a");
    assert_eq!(truncated("", 0), "");
    assert_eq!(
        ['a', 'é', '猫', '🐾'].iter().map(|c| char_width(*c)).collect::<Vec<_>>(),
        vec![1, 2, 3, 4]
    );
}

#[test]
fn text_is_compared_and_trimmed() {
    assert!(same_text("猫", "猫") && !same_text("猫", "狗"));
    assert!(less_text("abc", "abd") && less_text("ab", "abc") && !less_text("b", "abc"));
    assert_eq!(trim(" \t\u{3000}a b\u{a0}\n"), "a b");
    assert_eq!(to_ascii_lowercase("ÄbC-X"), "Äbc-x");
    assert_eq!(decimal_of(u64::MAX), "18446744073709551615");
}

#[test]
fn time_does_not_run_backwards() {
    let (a, b) = (Instant { nanos: 5 }, Instant { nanos: 9 });
    assert_eq!(b.since(a), 4);
    assert_eq!(a.since(b), 0);
}
