//! Packets: `version:number:sender:host:command:extra` in GBK, with a zero
//! byte at the end. Packets are written strictly and read leniently: the
//! version is any text, and unknown commands are left to the caller.

use crate::numeral;
use crate::numeral::{push_numeral, read_number};
use crate::split;
use crate::split::splitn;
use crate::text;
use crate::text::chars_of;
use encoding_rs::GBK;
use vstd::prelude::*;
use vstd::string::StringExecFns;

verus! {

/// Stands in the extra field of our own packets; other programs ignore it.
pub const BIGPAW_TAG: &'static str = "\u{0}BIGPAW";

/// A packet.
#[derive(Debug, Clone, PartialEq, Eq)]
pub struct Packet {
    pub version: String,
    pub packet_no: u32,
    pub sender: String,
    pub host: String,
    pub command: u32,
    pub extra: String,
}

/// A packet by the values that it holds.
#[verifier::ext_equal]
pub struct PacketRow {
    pub version: Seq<char>,
    pub packet_no: u32,
    pub sender: Seq<char>,
    pub host: Seq<char>,
    pub command: u32,
    pub extra: Seq<char>,
}

impl View for Packet {
    type V = PacketRow;

    open spec fn view(&self) -> PacketRow {
        PacketRow {
            version: self.version@,
            packet_no: self.packet_no,
            sender: self.sender@,
            host: self.host@,
            command: self.command,
            extra: self.extra@,
        }
    }
}

// ---------------------------------------------------------------------------
// GBK
// ---------------------------------------------------------------------------

/// The GBK code of a character outside ASCII, if it has one: what
/// `encoding_rs` encodes the character to.
pub uninterp spec fn gbk_of_char(c: char) -> Option<Seq<u8>>;

/// The text that `encoding_rs` decodes the bytes to, bytes outside ASCII among them.
pub uninterp spec fn gbk_text(b: Seq<u8>) -> Seq<char>;

/// The GBK code of a character: its own number in ASCII.
pub open spec fn gbk_unit(c: char) -> Option<Seq<u8>> {
    if (c as int) < 0x80 {
        Some(seq![c as u8])
    } else {
        gbk_of_char(c)
    }
}

/// The bytes that stand for a character, given its code if it has one.
pub open spec fn or_question_mark(code: Option<Seq<u8>>) -> Seq<u8> {
    match code {
        Some(b) => b,
        None => seq![0x3Fu8],
    }
}

/// Text in GBK, a question mark standing for what has no code.
pub open spec fn gbk_bytes(s: Seq<char>) -> Seq<u8>
    decreases s.len(),
{
    if s.len() == 0 {
        Seq::empty()
    } else {
        gbk_bytes(s.drop_last()) + or_question_mark(gbk_unit(s.last()))
    }
}

/// Whether all bytes are ASCII.
pub open spec fn is_ascii(b: Seq<u8>) -> bool {
    forall|i: int| 0 <= i < b.len() ==> #[trigger] b[i] < 0x80
}

/// What bytes in GBK are read as; ASCII is read as it stands.
pub open spec fn gbk_decoded(b: Seq<u8>) -> Seq<char> {
    if is_ascii(b) {
        b.map_values(|x: u8| x as char)
    } else {
        gbk_text(b)
    }
}

/// Whether the bytes begin with a byte order mark, which makes the decoder
/// read another encoding.
pub open spec fn has_byte_order_mark(b: Seq<u8>) -> bool {
    ||| b.len() >= 3 && b[0] == 0xEF && b[1] == 0xBB && b[2] == 0xBF
    ||| b.len() >= 2 && b[0] == 0xFF && b[1] == 0xFE
    ||| b.len() >= 2 && b[0] == 0xFE && b[1] == 0xFF
}

/// Whether the character has a code that is read back as the character, and
/// that does not end in a zero byte unless it is the zero character.
pub open spec fn reads_back(c: char) -> bool {
    match gbk_unit(c) {
        Some(b) => gbk_decoded(b) == seq![c] && b.len() > 0 && (b.last() == 0 ==> c == '\u{0}'),
        None => false,
    }
}

/// Whether every character is read back.
pub open spec fn all_read_back(s: Seq<char>) -> bool {
    forall|i: int| 0 <= i < s.len() ==> reads_back(#[trigger] s[i])
}

/// The result of an encoding call by the values that it holds.
pub open spec fn bytes_of(r: Option<Vec<u8>>) -> Option<Seq<u8>> {
    match r {
        Some(v) => Some(v@),
        None => None,
    }
}

/// `encoding_rs::GBK.encode` on one character: the bytes, or nothing where it
/// reports that the character cannot be encoded. ASCII is encoded as itself.
#[verifier::external_body]
fn gbk_encode_char(c: char) -> (r: Option<Vec<u8>>)
    ensures
        (c as int) < 0x80 ==> bytes_of(r) == Some(seq![c as u8]),
        (c as int) >= 0x80 ==> bytes_of(r) == gbk_of_char(c),
{
    let mut buf = [0u8; 4];
    let (bytes, _, had_errors) = GBK.encode(c.encode_utf8(&mut buf));
    if had_errors {
        None
    } else {
        Some(bytes.into_owned())
    }
}

/// The bytes that stand for a character, given its code if it has one.
pub fn code_or_question_mark(code: Option<Vec<u8>>) -> (r: Vec<u8>)
    ensures
        r@ == or_question_mark(bytes_of(code)),
{
    match code {
        Some(b) => b,
        None => {
            let mut b: Vec<u8> = Vec::new();
            b.push(0x3F);
            assert(b@ =~= seq![0x3Fu8]);
            b
        },
    }
}

/// Text in GBK; what has no code becomes a question mark.
pub fn gbk_encode(s: &str) -> (r: Vec<u8>)
    ensures
        r@ == gbk_bytes(s@),
{
    let v: Vec<char> = chars_of(s);
    let mut r: Vec<u8> = Vec::new();
    let mut i: usize = 0;
    proof {
        assert(s@.take(0) =~= Seq::<char>::empty());
    }
    while i < v.len()
        invariant
            i <= v.len(),
            v@ == s@,
            r@ == gbk_bytes(s@.take(i as int)),
        decreases v.len() - i,
    {
        proof {
            assert(s@.take(i + 1).drop_last() =~= s@.take(i as int));
            assert(s@.take(i + 1).last() == v@[i as int]);
        }
        let mut b: Vec<u8> = code_or_question_mark(gbk_encode_char(v[i]));
        r.append(&mut b);
        i = i + 1;
    }
    proof {
        assert(s@.take(i as int) =~= s@);
    }
    r
}

/// `encoding_rs::GBK.decode`: the text that the bytes stand for. ASCII is read
/// as it stands. Codes are read one after the other, so a text whose
/// characters are each read back from their own codes is read back from the
/// codes in a row, except where these begin with a byte order mark. What is
/// read in place of bytes that are no code is not stated.
#[verifier::external_body]
pub fn gbk_decode(b: &[u8]) -> (r: String)
    ensures
        is_ascii(b@) ==> r@ == b@.map_values(|x: u8| x as char),
        !is_ascii(b@) ==> r@ == gbk_text(b@),
        forall|s: Seq<char>|
            b@ == #[trigger] gbk_bytes(s) && all_read_back(s) && !has_byte_order_mark(b@) ==> r@
                == s,
{
    let (text, _, _) = GBK.decode(b);
    text.into_owned()
}

// ---------------------------------------------------------------------------
// Packets
// ---------------------------------------------------------------------------

/// The text of a packet.
pub open spec fn packet_text(p: PacketRow) -> Seq<char> {
    p.version + seq![':'] + (numeral::decimal(p.packet_no as nat) + seq![':'] + (p.sender
        + seq![':'] + (p.host + seq![':'] + (numeral::decimal(p.command as nat) + seq![':']
        + p.extra))))
}

/// The bytes of a packet.
pub open spec fn packet_bytes(p: PacketRow) -> Seq<u8> {
    gbk_bytes(packet_text(p)).push(0)
}

/// The packet that a text stands for: the first five colons part the fields.
pub open spec fn packet_of_text(t: Seq<char>) -> Option<PacketRow> {
    let f = split::splitn_at_char(t, ':', 6);
    if f.len() < 6 {
        None
    } else {
        match (
            numeral::parse_number(f[1], 10, u32::MAX as nat),
            numeral::parse_number(f[4], 10, u32::MAX as nat),
        ) {
            (Some(packet_no), Some(command)) => Some(
                PacketRow {
                    version: f[0],
                    packet_no: packet_no as u32,
                    sender: f[2],
                    host: f[3],
                    command: command as u32,
                    extra: f[5],
                },
            ),
            _ => None,
        }
    }
}

/// The bytes without the zeros at their end.
pub open spec fn without_trailing_zeros(b: Seq<u8>) -> Seq<u8>
    decreases b.len(),
{
    if b.len() > 0 && b.last() == 0 {
        without_trailing_zeros(b.drop_last())
    } else {
        b
    }
}

/// The packet that bytes stand for.
pub open spec fn packet_of_bytes(b: Seq<u8>) -> Option<PacketRow> {
    let t = without_trailing_zeros(b);
    if t.len() == 0 {
        None
    } else {
        packet_of_text(gbk_decoded(t))
    }
}

/// Whether a packet survives being sent: no colon in the fields before the
/// last two, every character is read back, the text does not look like another
/// encoding, and it does not end in a zero.
pub open spec fn is_sendable(p: PacketRow) -> bool {
    &&& !p.version.contains(':')
    &&& !p.sender.contains(':')
    &&& !p.host.contains(':')
    &&& all_read_back(packet_text(p))
    &&& !has_byte_order_mark(gbk_bytes(packet_text(p)))
    &&& packet_text(p).last() != '\u{0}'
}

/// An optional packet by the values that it holds.
pub open spec fn packet_row(p: Option<Packet>) -> Option<PacketRow> {
    match p {
        Some(p) => Some(p@),
        None => None,
    }
}

/// The text of a packet is read as the packet.
pub proof fn law_packet_text_round_trip(p: PacketRow)
    requires
        !p.version.contains(':'),
        !p.sender.contains(':'),
        !p.host.contains(':'),
    ensures
        packet_of_text(packet_text(p)) == Some(p),
{
    let no = numeral::decimal(p.packet_no as nat);
    let cmd = numeral::decimal(p.command as nat);
    let t4 = cmd + seq![':'] + p.extra;
    let t3 = p.host + seq![':'] + t4;
    let t2 = p.sender + seq![':'] + t3;
    let t1 = no + seq![':'] + t2;
    numeral::lemma_numeral_value(p.packet_no as nat, 10);
    numeral::lemma_numeral_value(p.command as nat, 10);
    assert(!no.contains(':'));
    assert(!cmd.contains(':'));
    split::lemma_splitn_piece(cmd, ':', p.extra, 2);
    split::lemma_splitn_piece(p.host, ':', t4, 3);
    split::lemma_splitn_piece(p.sender, ':', t3, 4);
    split::lemma_splitn_piece(no, ':', t2, 5);
    split::lemma_splitn_piece(p.version, ':', t1, 6);
    numeral::lemma_parse_numeral(p.packet_no as nat, 10, u32::MAX as nat);
    numeral::lemma_parse_numeral(p.command as nat, 10, u32::MAX as nat);
    let f = split::splitn_at_char(packet_text(p), ':', 6);
    assert(f =~= seq![p.version, no, p.sender, p.host, cmd, p.extra]);
}

/// The code of a text whose last character is read back and is not zero does
/// not end in a zero byte.
proof fn lemma_last_byte(s: Seq<char>)
    requires
        s.len() > 0,
        all_read_back(s),
        s.last() != '\u{0}',
    ensures
        gbk_bytes(s).len() > 0,
        gbk_bytes(s).last() != 0,
{
    assert(reads_back(s[s.len() - 1]));
    let b = gbk_unit(s.last())->Some_0;
    assert(gbk_bytes(s).last() == b.last());
}

/// The text of a packet.
fn text_of_packet(p: &Packet) -> (s: String)
    ensures
        s@ == packet_text(p@),
{
    let mut s: String = p.version.clone();
    s.push(':');
    push_numeral(&mut s, p.packet_no as u128, 10);
    s.push(':');
    s.append(&p.sender);
    s.push(':');
    s.append(&p.host);
    s.push(':');
    push_numeral(&mut s, p.command as u128, 10);
    s.push(':');
    s.append(&p.extra);
    assert(s@ =~= packet_text(p@));
    s
}

/// The bytes of a packet. The zero at the end is what other programs expect.
pub fn encode(p: &Packet) -> (r: Vec<u8>)
    ensures
        r@ == packet_bytes(p@),
{
    let mut r: Vec<u8> = gbk_encode(&text_of_packet(p));
    r.push(0);
    r
}

/// The packet that a text stands for.
pub fn parse_packet(t: &str) -> (r: Option<Packet>)
    ensures
        packet_row(r) == packet_of_text(t@),
{
    let f: Vec<String> = splitn(t, ':', 6);
    let ghost fields = split::splitn_at_char(t@, ':', 6);
    proof {
        assert(f@.len() == fields.len());
        assert(forall|i: int| 0 <= i < fields.len() ==> fields[i] == (#[trigger] f@[i])@);
    }
    if f.len() < 6 {
        return None;
    }
    let packet_no: Option<u64> = read_number(&f[1], 10, u32::MAX as u64);
    let command: Option<u64> = read_number(&f[4], 10, u32::MAX as u64);
    match (packet_no, command) {
        (Some(packet_no), Some(command)) => {
            let p: Packet = Packet {
                version: f[0].clone(),
                packet_no: packet_no as u32,
                sender: f[2].clone(),
                host: f[3].clone(),
                command: command as u32,
                extra: f[5].clone(),
            };
            proof {
                assert(packet_of_text(t@) == Some(p@));
            }
            Some(p)
        },
        _ => None,
    }
}

/// The packet that bytes stand for. Zeros at the end are dropped, as some
/// programs fill up a buffer with them; zeros inside are kept. A packet that
/// survives being sent is read from its bytes as it was.
pub fn decode(buf: &[u8]) -> (r: Option<Packet>)
    ensures
        packet_row(r) == packet_of_bytes(buf@),
        forall|p: PacketRow|
            is_sendable(p) && buf@ == #[trigger] packet_bytes(p) ==> packet_row(r) == Some(p),
{
    let mut bytes: Vec<u8> = Vec::new();
    let mut end: usize = buf.len();
    proof {
        assert(buf@.take(end as int) =~= buf@);
    }
    while end > 0 && buf[end - 1] == 0
        invariant
            end <= buf.len(),
            without_trailing_zeros(buf@.take(end as int)) == without_trailing_zeros(buf@),
        decreases end,
    {
        proof {
            assert(buf@.take(end as int).drop_last() =~= buf@.take(end - 1));
        }
        end = end - 1;
    }
    let mut i: usize = 0;
    while i < end
        invariant
            i <= end <= buf.len(),
            bytes@ == buf@.take(i as int),
        decreases end - i,
    {
        bytes.push(buf[i]);
        i = i + 1;
    }
    let ghost kept = without_trailing_zeros(buf@);
    proof {
        assert(bytes@ == kept);
        assert forall|p: PacketRow| is_sendable(p) && buf@ == #[trigger] packet_bytes(p) implies kept
            == gbk_bytes(packet_text(p)) && kept.len() > 0 by {
            let g = gbk_bytes(packet_text(p));
            lemma_last_byte(packet_text(p));
            assert(buf@.drop_last() =~= g);
            assert(without_trailing_zeros(buf@) == without_trailing_zeros(g));
        }
    }
    if bytes.len() == 0 {
        return None;
    }
    let t: String = gbk_decode(&bytes);
    let r: Option<Packet> = parse_packet(&t);
    proof {
        assert forall|p: PacketRow| is_sendable(p) && buf@ == #[trigger] packet_bytes(p) implies packet_row(
            r,
        ) == Some(p) by {
            assert(t@ == packet_text(p));
            law_packet_text_round_trip(p);
        }
    }
    r
}

/// ASCII is read back, but for the zero, which a packet ends in.
pub proof fn lemma_ascii_reads_back(c: char)
    requires
        0 < c as int,
        (c as int) < 0x80,
    ensures
        reads_back(c),
{
    let b = seq![c as u8];
    assert(is_ascii(b));
    assert(b.map_values(|x: u8| x as char) =~= seq![c]);
}

proof fn lemma_char_number(c: char)
    ensures
        0 <= c as int,
{
}

proof fn lemma_first_byte(s: Seq<char>)
    requires
        s.len() > 0,
        0 <= s[0] as int,
        (s[0] as int) < 0x80,
    ensures
        gbk_bytes(s).len() > 0,
        gbk_bytes(s)[0] < 0x80,
    decreases s.len(),
{
    if s.len() == 1 {
        assert(s.drop_last() =~= Seq::<char>::empty());
        assert(gbk_bytes(s.drop_last()).len() == 0);
    } else {
        lemma_first_byte(s.drop_last());
    }
}

proof fn lemma_all_read_back_concat(a: Seq<char>, b: Seq<char>)
    requires
        all_read_back(a),
        all_read_back(b),
    ensures
        all_read_back(a + b),
{
    assert forall|i: int| 0 <= i < (a + b).len() implies reads_back(#[trigger] (a + b)[i]) by {
        if i < a.len() {
            assert(reads_back(a[i]));
        } else {
            assert(reads_back(b[i - a.len()]));
        }
    }
}

proof fn lemma_decimal_reads_back(n: nat)
    ensures
        all_read_back(numeral::decimal(n)),
{
    numeral::lemma_numeral_value(n, 10);
    let d = numeral::decimal(n);
    assert forall|i: int| 0 <= i < d.len() implies reads_back(#[trigger] d[i]) by {
        lemma_ascii_reads_back(d[i]);
    }
}

/// A packet survives being sent if its fields do: no colon stands in the version, the
/// name or the host, each of their characters and of the extra field is read back
/// from its own code, and the extra field does not end in a zero. The version has to
/// begin with a character of ASCII, so that the packet looks like no other encoding.
pub proof fn law_readable_packet_is_sendable(p: PacketRow)
    requires
        !p.version.contains(':'),
        !p.sender.contains(':'),
        !p.host.contains(':'),
        p.version.len() > 0,
        (p.version[0] as int) < 0x80,
        all_read_back(p.version),
        all_read_back(p.sender),
        all_read_back(p.host),
        all_read_back(p.extra),
        p.extra.len() > 0 ==> p.extra.last() != '\u{0}',
    ensures
        is_sendable(p),
{
    let colon = seq![':'];
    let no = numeral::decimal(p.packet_no as nat);
    let cmd = numeral::decimal(p.command as nat);
    let t = packet_text(p);
    lemma_ascii_reads_back(':');
    assert(all_read_back(colon));
    lemma_decimal_reads_back(p.packet_no as nat);
    lemma_decimal_reads_back(p.command as nat);
    lemma_all_read_back_concat(cmd, colon);
    lemma_all_read_back_concat(cmd + colon, p.extra);
    lemma_all_read_back_concat(p.host, colon);
    lemma_all_read_back_concat(p.host + colon, cmd + colon + p.extra);
    lemma_all_read_back_concat(p.sender, colon);
    lemma_all_read_back_concat(p.sender + colon, p.host + colon + (cmd + colon + p.extra));
    lemma_all_read_back_concat(no, colon);
    lemma_all_read_back_concat(
        no + colon,
        p.sender + colon + (p.host + colon + (cmd + colon + p.extra)),
    );
    lemma_all_read_back_concat(p.version, colon);
    lemma_all_read_back_concat(
        p.version + colon,
        no + colon + (p.sender + colon + (p.host + colon + (cmd + colon + p.extra))),
    );
    assert(t[0] == p.version[0]);
    lemma_char_number(t[0]);
    lemma_first_byte(t);
    assert(t.last() == if p.extra.len() > 0 {
        p.extra.last()
    } else {
        ':'
    });
}

/// What is written for a packet holds its fields, parted by colons, and is read as
/// text again up to the zero that ends it.
pub proof fn law_packet_ends_in_a_zero(p: PacketRow)
    ensures
        packet_bytes(p).len() == gbk_bytes(packet_text(p)).len() + 1,
        packet_bytes(p).last() == 0,
        packet_bytes(p).drop_last() == gbk_bytes(packet_text(p)),
{
    assert(packet_bytes(p).drop_last() =~= gbk_bytes(packet_text(p)));
}

/// Text is written in GBK character by character: a character of ASCII as its own number, any
/// other as its code, and one that has no code as a question mark.
pub proof fn law_text_is_written_char_by_char(a: Seq<char>, b: Seq<char>, c: char)
    ensures
        gbk_bytes(a + b) == gbk_bytes(a) + gbk_bytes(b),
        (c as int) < 0x80 ==> gbk_bytes(seq![c]) == seq![c as u8],
        (c as int) >= 0x80 ==> (gbk_of_char(c) matches Some(code) ==> gbk_bytes(seq![c]) == code),
        (c as int) >= 0x80 && gbk_of_char(c) is None ==> gbk_bytes(seq![c]) == seq!['?' as u8],
    decreases b.len(),
{
    let one = seq![c];
    assert(one.drop_last() =~= Seq::<char>::empty());
    assert(gbk_bytes(one.drop_last()) =~= Seq::<u8>::empty());
    assert(one.last() == c);
    assert(gbk_bytes(one) =~= or_question_mark(gbk_unit(c)));
    if b.len() == 0 {
        assert(a + b =~= a);
        assert(gbk_bytes(a) + gbk_bytes(b) =~= gbk_bytes(a));
    } else {
        law_text_is_written_char_by_char(a, b.drop_last(), c);
        assert((a + b).drop_last() =~= a + b.drop_last());
        assert((a + b).last() == b.last());
        assert(gbk_bytes(a + b) =~= gbk_bytes(a) + gbk_bytes(b));
    }
}

/// Zeros at the end of what was received do not count, however many there are, and nothing
/// else is dropped.
pub proof fn law_trailing_zeros_do_not_count(b: Seq<u8>)
    ensures
        packet_of_bytes(b.push(0)) == packet_of_bytes(b),
        without_trailing_zeros(b).len() <= b.len(),
        without_trailing_zeros(b) == b.take(without_trailing_zeros(b).len() as int),
        without_trailing_zeros(b).len() > 0 ==> without_trailing_zeros(b).last() != 0,
        forall|i: int| without_trailing_zeros(b).len() <= i < b.len() ==> #[trigger] b[i] == 0,
    decreases b.len(),
{
    assert(b.push(0).drop_last() =~= b);
    if b.len() > 0 && b.last() == 0 {
        let t = b.drop_last();
        law_trailing_zeros_do_not_count(t);
        assert(t.take(without_trailing_zeros(t).len() as int) =~= b.take(
            without_trailing_zeros(t).len() as int,
        ));
        assert forall|i: int| without_trailing_zeros(b).len() <= i < b.len() implies #[trigger] b[i]
            == 0 by {
            if i < t.len() {
                assert(t[i] == 0);
            }
        }
    } else {
        assert(b.take(b.len() as int) =~= b);
    }
}

/// Whatever is read as a packet consists of six fields with colons between them, of which only
/// the last may hold further colons: the fields of the packet are those, letter for letter,
/// and the two numbers are read from theirs.
pub proof fn law_packet_has_six_fields(t: Seq<char>, no: Seq<char>, cmd: Seq<char>)
    requires
        packet_of_text(t) is Some,
        no == split::splitn_at_char(t, ':', 6)[1],
        cmd == split::splitn_at_char(t, ':', 6)[4],
    ensures
        ({
            let p = packet_of_text(t)->0;
            &&& t == p.version + seq![':'] + (no + seq![':'] + (p.sender + seq![':'] + (p.host
                + seq![':'] + (cmd + seq![':'] + p.extra))))
            &&& !p.version.contains(':') && !no.contains(':') && !p.sender.contains(':')
                && !p.host.contains(':') && !cmd.contains(':')
            &&& numeral::parse_number(no, 10, u32::MAX as nat) == Some(p.packet_no as nat)
            &&& numeral::parse_number(cmd, 10, u32::MAX as nat) == Some(p.command as nat)
        }),
{
    let f = split::splitn_at_char(t, ':', 6);
    split::law_first_pieces_are_the_text(t, ':', 6);
    assert(f.len() == 6);
    let f1 = f.skip(1);
    let f2 = f1.skip(1);
    let f3 = f2.skip(1);
    let f4 = f3.skip(1);
    let f5 = f4.skip(1);
    assert(f5.len() == 1 && f5[0] == f[5]);
    assert(f4[0] == f[4] && f3[0] == f[3] && f2[0] == f[2] && f1[0] == f[1]);
    assert(split::joined_by(f5, ':') == f[5]);
    assert(split::joined_by(f4, ':') == f[4] + seq![':'] + f[5]);
    assert(split::joined_by(f3, ':') == f[3] + seq![':'] + split::joined_by(f4, ':'));
    assert(split::joined_by(f2, ':') == f[2] + seq![':'] + split::joined_by(f3, ':'));
    assert(split::joined_by(f1, ':') == f[1] + seq![':'] + split::joined_by(f2, ':'));
    assert(split::joined_by(f, ':') == f[0] + seq![':'] + split::joined_by(f1, ':'));
    numeral::law_number_is_read_back(0, 10, u32::MAX as nat, f[1]);
    numeral::law_number_is_read_back(0, 10, u32::MAX as nat, f[4]);
}

} // verus!
