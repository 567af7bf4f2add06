use bigpaw::ipmsg::proto::{
    code_or_question_mark, decode, encode, gbk_decode, gbk_encode, Packet,
};

#[test]
fn gbk_roundtrip_chinese() {
    let s = "你好世界";
    let b = gbk_encode(s);
    assert_eq!(gbk_decode(&b), s);
    assert_eq!(b.len(), 8);
}

#[test]
fn gbk_unmappable_becomes_question_mark() {
    let s = "hi🐾";
    let b = gbk_encode(s);
    let back = gbk_decode(&b);
    assert!(back.starts_with("hi"));
    assert!(back.contains('?'));
}

#[test]
fn a_character_without_a_code_is_a_question_mark() {
    assert_eq!(code_or_question_mark(None), b"?".to_vec());
    assert_eq!(code_or_question_mark(Some(vec![0xc4, 0xe3])), vec![0xc4, 0xe3]);
}

#[test]
fn packet_roundtrip() {
    let p = Packet {
        version: "1".to_string(),
        packet_no: 12345,
        sender: "张三".to_string(),
        host: "PC-01".to_string(),
        command: 0x20,
        extra: "你好".to_string(),
    };
    let buf = encode(&p);
    let back = decode(&buf).unwrap();
    assert_eq!(back, p);
}

#[test]
fn decode_treats_version_as_opaque() {
    let raw = gbk_encode("1_lbt6_8#998#abc:100:feiq:HOST:32:hello");
    let p = decode(&raw).unwrap();
    assert_eq!(p.version, "1_lbt6_8#998#abc");
    assert_eq!(p.packet_no, 100);
    assert_eq!(p.command, 32);
    assert_eq!(p.extra, "hello");
}

#[test]
fn extra_may_contain_colons() {
    let raw = gbk_encode("1:5:me:HOST:32:a:b:c");
    let p = decode(&raw).unwrap();
    assert_eq!(p.extra, "a:b:c");
}

#[test]
fn decode_garbage_is_none() {
    assert!(decode(b"").is_none());
    assert!(decode(&gbk_encode("only:three:fields")).is_none());
}

#[test]
fn decode_strips_trailing_nul_from_c_implementations() {
    let raw = gbk_encode("1:100:feiq:HOST:96:abc:0:0\u{0}");
    let p = decode(&raw).unwrap();
    assert_eq!(p.extra, "abc:0:0");

    let raw2 = gbk_encode("1:5:me:HOST:32:hello\u{0}\u{0}\u{0}");
    assert_eq!(decode(&raw2).unwrap().extra, "hello");
}

#[test]
fn decode_keeps_interior_nul_intact() {
    let raw = gbk_encode("1:7:me:HOST:2097184:正文\u{0}0:a.txt:5:0:1:\u{0}");
    let p = decode(&raw).unwrap();
    assert_eq!(p.extra, "正文\u{0}0:a.txt:5:0:1:");
}

#[test]
fn encode_appends_trailing_nul() {
    let p = Packet {
        version: "1".to_string(),
        packet_no: 1,
        sender: "me".to_string(),
        host: "H".to_string(),
        command: 0x60,
        extra: "a:0:0".to_string(),
    };
    let buf = encode(&p);
    assert_eq!(buf.last(), Some(&0u8));
    assert_eq!(decode(&buf).unwrap(), p);
}

#[test]
fn a_number_that_does_not_fit_is_no_packet() {
    assert!(decode(&gbk_encode("1:4294967296:me:HOST:32:hello")).is_none());
    assert!(decode(&gbk_encode("1:5:me:HOST:-1:hello")).is_none());
    assert_eq!(decode(&gbk_encode("1:+5:me:HOST:32:hello")).unwrap().packet_no, 5);
}

#[test]
fn the_wire_form_is_text_with_colons_and_a_zero() {
    let p = Packet {
        version: "1".to_string(),
        packet_no: 5,
        sender: "me".to_string(),
        host: "H".to_string(),
        command: 32,
        extra: "hi".to_string(),
    };
    assert_eq!(encode(&p), b"1:5:me:H:32:hi\0".to_vec());
    assert_eq!(gbk_encode("中"), vec![0xd6, 0xd0]);
}
