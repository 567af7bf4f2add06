//! Announcements: small datagrams that say who is there, kept below the size
//! of one packet. They go to a multicast group and to the broadcast address of
//! each subnet, soon after the start and then from time to time; answers go to
//! the sender alone, and not too often.

use crate::addr::{IpAddr, Ipv4Addr, SocketAddr};
use crate::json;
use crate::json::{read_members, sole_text, sole_u16, write_object, JsonValue, Member};
use crate::moment::Instant;
use crate::net_ifaces;
use crate::net_ifaces::{addrs_without, multicast_diff, send_targets, IfaceEntry, SendTarget};
use crate::net_scope;
use crate::net_scope::{holds_addr, NetScope, ScopeEntry};
use crate::numeral;
use crate::reach;
use crate::reach::{Plan, Subnet};
use crate::roster;
use crate::roster::{copy_addrs, DiscoveryEvent, Protocol};
use crate::seqs;
use crate::text;
use crate::text::{owned, same_text};
use crate::utf8;
use crate::utf8::truncated;
use vstd::prelude::*;
use vstd::string::StringExecFns;

verus! {

/// The port that announcements go to.
pub const DEFAULT_ANNOUNCE_PORT: u16 = 24916;

/// The address of the multicast group, 239.255.77.88.
pub const MULTICAST_GROUP: u32 = 4_026_486_104;

/// The most bytes that a datagram may take.
pub const MAX_DATAGRAM: usize = 1400;

/// The most bytes that a nickname takes in an announcement.
pub const MAX_NICK_BYTES: usize = 64;

/// The most addresses that are remembered.
pub const MAX_HISTORY: usize = 50;

/// The least time between two answers to one address, in nanoseconds.
pub const REPLY_RATE_LIMIT: u64 = 5_000_000_000;

/// The time between two announcements once the start is over, in nanoseconds.
pub const PERIODIC_INTERVAL: u64 = 25_000_000_000;

/// The least time between two rounds of announcements, in nanoseconds.
pub const MIN_SEND_BATCH_INTERVAL: u64 = 1_000_000_000;

/// The longest sleep without a look around, in nanoseconds.
pub const SLEEP_STEP: u64 = 200_000_000;

/// Why announcing could not be started.
#[derive(Debug, Clone, PartialEq, Eq)]
pub enum AnnounceError {
    Io(String),
}

impl AnnounceError {
    /// The message for the user.
    pub open spec fn message(self) -> Seq<char> {
        match self {
            AnnounceError::Io(why) => "io: "@ + why@,
        }
    }

    /// The message for the user.
    pub fn to_text(&self) -> (r: String)
        ensures
            r@ == self.message(),
    {
        match self {
            AnnounceError::Io(why) => {
                let mut s = owned("io: ");
                s.append(why.as_str());
                s
            },
        }
    }
}

// ---------------------------------------------------------------------------
// The datagram
// ---------------------------------------------------------------------------

/// An announcement.
#[derive(Debug, Clone, PartialEq, Eq)]
pub struct Announcement {
    pub v: u16,
    /// The fingerprint.
    pub fp: String,
    pub nick: String,
    /// The port for connections.
    pub tport: u16,
    /// What the peer can do.
    pub caps: String,
}

/// An announcement by value.
#[verifier::ext_equal]
pub struct AnnouncementRow {
    pub v: u16,
    pub fp: Seq<char>,
    pub nick: Seq<char>,
    pub tport: u16,
    pub caps: Seq<char>,
}

impl View for Announcement {
    type V = AnnouncementRow;

    open spec fn view(&self) -> AnnouncementRow {
        AnnouncementRow {
            v: self.v,
            fp: self.fp@,
            nick: self.nick@,
            tport: self.tport,
            caps: self.caps@,
        }
    }
}

/// The beginning of a nickname that an announcement carries.
pub open spec fn carried_nick(nick: Seq<char>) -> Seq<char> {
    utf8::longest_prefix(nick, MAX_NICK_BYTES as nat)
}

/// The announcement with the beginning of the nickname that is carried.
pub open spec fn carried(a: AnnouncementRow) -> AnnouncementRow {
    AnnouncementRow { nick: carried_nick(a.nick), ..a }
}

/// The object that carries an announcement.
pub open spec fn announcement_members(a: AnnouncementRow) -> Seq<json::MemberRow> {
    seq![
        json::number_member("v"@, a.v as u64),
        json::text_member("fp"@, a.fp),
        json::text_member("nick"@, a.nick),
        json::number_member("tport"@, a.tport as u64),
        json::text_member("caps"@, a.caps),
    ]
}

/// The bytes of an announcement.
pub open spec fn announcement_bytes(a: AnnouncementRow) -> Seq<u8> {
    json::object_bytes(announcement_members(carried(a)))
}

/// Whether an announcement is one that is listened to: of the first version,
/// with a fingerprint of 64 bytes.
pub open spec fn is_accepted(a: AnnouncementRow) -> bool {
    utf8::byte_len(a.fp) == 64 && a.v == 1
}

/// An announcement if it is one that is listened to.
pub open spec fn listened(a: AnnouncementRow) -> Option<AnnouncementRow> {
    if is_accepted(a) {
        Some(a)
    } else {
        None
    }
}

/// The announcement that is listened to, from what an object holds under the
/// keys.
pub open spec fn announcement_in(
    v: Option<u16>,
    fp: Option<Seq<char>>,
    nick: Option<Seq<char>>,
    tport: Option<u16>,
    caps: Option<Seq<char>>,
) -> Option<AnnouncementRow> {
    match (v, fp, nick, tport, caps) {
        (Some(v), Some(fp), Some(nick), Some(tport), Some(caps)) => listened(
            AnnouncementRow { v, fp, nick, tport, caps },
        ),
        _ => None,
    }
}

/// The fields of an announcement, in their order.
pub type Fields = (u16, String, String, u16, String);

/// What `serde_json` reads as an array that holds the fields of an announcement
/// in their order, and nothing more.
pub uninterp spec fn json_fields(bytes: Seq<u8>) -> Option<AnnouncementRow>;

/// The fields of an announcement by value.
pub open spec fn fields_row(f: Option<Fields>) -> Option<AnnouncementRow> {
    match f {
        Some((v, fp, nick, tport, caps)) => Some(
            AnnouncementRow { v, fp: fp@, nick: nick@, tport, caps: caps@ },
        ),
        None => None,
    }
}

/// The announcement in a datagram, if there is one that is listened to. It is an
/// object that holds each of the fields exactly once, or an array of the fields
/// in their order. What else an object holds is passed over.
pub open spec fn announcement_of(b: Seq<u8>) -> Option<AnnouncementRow> {
    match json_fields(b) {
        Some(a) => listened(a),
        None => match json::object_members(b) {
            Some(m) => announcement_in(
                json::u16_under(m, "v"@),
                json::text_under(m, "fp"@),
                json::text_under(m, "nick"@),
                json::u16_under(m, "tport"@),
                json::text_under(m, "caps"@),
            ),
            None => None,
        },
    }
}

/// The result of reading a datagram by value.
pub open spec fn announcement_row(a: Option<Announcement>) -> Option<AnnouncementRow> {
    match a {
        Some(a) => Some(a@),
        None => None,
    }
}

proof fn lemma_announcement_members(a: AnnouncementRow)
    ensures
        json::well_keyed(announcement_members(a)),
{
    reveal_strlit("v");
    reveal_strlit("fp");
    reveal_strlit("nick");
    reveal_strlit("tport");
    reveal_strlit("caps");
    assert("v"@.len() == 1);
    assert("fp"@.len() == 2);
    assert("nick"@.len() == 4 && "nick"@[0] == 'n');
    assert("tport"@.len() == 5);
    assert("caps"@.len() == 4 && "caps"@[0] == 'c');
    let w = announcement_members(a);
    assert forall|i: int| 0 <= i < w.len() implies json::is_plain(#[trigger] w[i].key) by {
        let key = w[i].key;
        assert forall|j: int| 0 <= j < key.len() implies ('a' <= #[trigger] key[j] <= 'z' || '0'
            <= key[j] <= '9' || key[j] == '_') by {}
    }
}

proof fn lemma_escaped_char_len(c: char)
    ensures
        utf8::byte_len(json::escaped_char(c)) <= 6 * utf8::width(c),
{
    let e = json::escaped_char(c);
    if e.len() == 1 {
        assert(e =~= seq![c]);
        utf8::lemma_byte_len_one(c);
    } else if e.len() == 2 {
        assert(e =~= seq![e[0]].push(e[1]));
        utf8::lemma_byte_len_one(e[0]);
        utf8::lemma_byte_len_push(seq![e[0]], e[1]);
    } else {
        let s1 = seq![e[0]];
        let s2 = s1.push(e[1]);
        let s3 = s2.push(e[2]);
        let s4 = s3.push(e[3]);
        let s5 = s4.push(e[4]);
        utf8::lemma_byte_len_one(e[0]);
        utf8::lemma_byte_len_push(s1, e[1]);
        utf8::lemma_byte_len_push(s2, e[2]);
        utf8::lemma_byte_len_push(s3, e[3]);
        utf8::lemma_byte_len_push(s4, e[4]);
        utf8::lemma_byte_len_push(s5, e[5]);
        assert(e =~= s5.push(e[5]));
    }
}

proof fn lemma_escaped_len(s: Seq<char>)
    ensures
        utf8::byte_len(json::escaped(s)) <= 6 * utf8::byte_len(s),
    decreases s.len(),
{
    if s.len() == 0 {
        assert(s =~= Seq::<char>::empty());
        assert(utf8::byte_len(s) == 0);
    } else {
        let t = s.drop_last();
        lemma_escaped_len(t);
        lemma_escaped_char_len(s.last());
        utf8::lemma_byte_len_concat(json::escaped(t), json::escaped_char(s.last()));
        utf8::lemma_byte_len_push(t, s.last());
        assert(s =~= t.push(s.last()));
    }
}

proof fn lemma_quoted_len(s: Seq<char>)
    ensures
        utf8::byte_len(json::quoted(s)) <= 6 * utf8::byte_len(s) + 2,
{
    lemma_escaped_len(s);
    utf8::lemma_byte_len_one('"');
    utf8::lemma_byte_len_concat(seq!['"'], json::escaped(s));
    utf8::lemma_byte_len_concat(seq!['"'] + json::escaped(s), seq!['"']);
}

proof fn lemma_decimal_len(n: nat, digits: nat)
    requires
        1 <= digits <= 5,
        digits == 1 ==> n < 10,
        digits == 2 ==> n < 100,
        digits == 3 ==> n < 1_000,
        digits == 4 ==> n < 10_000,
        digits == 5 ==> n < 100_000,
    ensures
        utf8::byte_len(numeral::decimal(n)) <= digits,
    decreases digits,
{
    if n < 10 {
        utf8::lemma_byte_len_one(numeral::digit_char(n));
    } else {
        lemma_decimal_len(n / 10, (digits - 1) as nat);
        utf8::lemma_byte_len_push(numeral::decimal(n / 10), numeral::digit_char(n % 10));
        assert(numeral::decimal(n) =~= numeral::decimal(n / 10).push(numeral::digit_char(n % 10)));
    }
}

proof fn lemma_member_len(m: json::MemberRow)
    ensures
        utf8::byte_len(json::member_text(m)) == utf8::byte_len(m.key) + 3 + utf8::byte_len(
            json::value_text(m.value),
        ),
{
    let colon = seq!['"', ':'];
    assert(colon =~= seq!['"'].push(':'));
    utf8::lemma_byte_len_one('"');
    utf8::lemma_byte_len_push(seq!['"'], ':');
    utf8::lemma_byte_len_concat(seq!['"'], m.key);
    utf8::lemma_byte_len_concat(seq!['"'] + m.key, colon);
    utf8::lemma_byte_len_concat(seq!['"'] + m.key + colon, json::value_text(m.value));
}

proof fn lemma_members_len(v: Seq<json::MemberRow>)
    requires
        v.len() >= 2,
    ensures
        utf8::byte_len(json::members_text(v)) == utf8::byte_len(json::members_text(v.drop_last()))
            + 1 + utf8::byte_len(json::member_text(v.last())),
{
    utf8::lemma_byte_len_one(',');
    utf8::lemma_byte_len_concat(json::members_text(v.drop_last()), seq![',']);
    utf8::lemma_byte_len_concat(
        json::members_text(v.drop_last()) + seq![','],
        json::member_text(v.last()),
    );
}

/// An announcement fits into one packet, whatever the nickname is, if the
/// fingerprint and the capabilities are no longer than a fingerprint is.
pub proof fn law_announcement_fits_a_packet(a: AnnouncementRow)
    requires
        utf8::byte_len(a.fp) <= 64,
        utf8::byte_len(a.caps) <= 64,
    ensures
        announcement_bytes(a).len() <= MAX_DATAGRAM,
{
    let w = announcement_members(carried(a));
    utf8::law_longest_prefix(a.nick, MAX_NICK_BYTES as nat);
    lemma_quoted_len(a.fp);
    lemma_quoted_len(carried_nick(a.nick));
    lemma_quoted_len(a.caps);
    lemma_decimal_len(a.v as nat, 5);
    lemma_decimal_len(a.tport as nat, 5);
    reveal_strlit("v");
    reveal_strlit("fp");
    reveal_strlit("nick");
    reveal_strlit("tport");
    reveal_strlit("caps");
    vstd::utf8::is_ascii_chars_encode_utf8("v"@);
    vstd::utf8::is_ascii_chars_encode_utf8("fp"@);
    vstd::utf8::is_ascii_chars_encode_utf8("nick"@);
    vstd::utf8::is_ascii_chars_encode_utf8("tport"@);
    vstd::utf8::is_ascii_chars_encode_utf8("caps"@);
    lemma_member_len(w[0]);
    lemma_member_len(w[1]);
    lemma_member_len(w[2]);
    lemma_member_len(w[3]);
    lemma_member_len(w[4]);
    let w4 = w.drop_last();
    let w3 = w4.drop_last();
    let w2 = w3.drop_last();
    let w1 = w2.drop_last();
    lemma_members_len(w);
    lemma_members_len(w4);
    lemma_members_len(w3);
    lemma_members_len(w2);
    assert(w1.len() == 1 && w1[0] == w[0]);
    assert(json::members_text(w1) == json::member_text(w[0]));
    let inner = json::members_text(w);
    assert(utf8::byte_len(inner) <= 1300);
    utf8::lemma_byte_len_one('{');
    utf8::lemma_byte_len_one('}');
    utf8::lemma_byte_len_concat(seq!['{'], inner);
    utf8::lemma_byte_len_concat(seq!['{'] + inner, seq!['}']);
}

/// The beginning of a nickname that an announcement carries, cut between
/// characters.
pub fn truncate_nick(nick: &str) -> (r: String)
    ensures
        r@ == carried_nick(nick@),
{
    truncated(nick, MAX_NICK_BYTES)
}

/// The datagram of an announcement.
pub fn encode(a: &Announcement) -> (r: Vec<u8>)
    ensures
        r@ == announcement_bytes(a@),
        utf8::byte_len(a.fp@) <= 64 && utf8::byte_len(a.caps@) <= 64 ==> r@.len() <= MAX_DATAGRAM,
{
    let nick = truncate_nick(a.nick.as_str());
    let mut members: Vec<Member> = Vec::new();
    members.push(Member { key: owned("v"), value: JsonValue::Number(a.v as u64) });
    members.push(Member { key: owned("fp"), value: JsonValue::Text(owned(a.fp.as_str())) });
    members.push(Member { key: owned("nick"), value: JsonValue::Text(nick) });
    members.push(Member { key: owned("tport"), value: JsonValue::Number(a.tport as u64) });
    members.push(Member { key: owned("caps"), value: JsonValue::Text(owned(a.caps.as_str())) });
    proof {
        assert(json::member_rows(members@) =~= announcement_members(carried(a@)));
        if utf8::byte_len(a.fp@) <= 64 && utf8::byte_len(a.caps@) <= 64 {
            law_announcement_fits_a_packet(a@);
        }
    }
    write_object(&members)
}

/// `serde_json::from_slice` into a tuple of the fields. It reads an array of
/// exactly these; an object is no array.
#[verifier::external_body]
fn read_fields(bytes: &[u8]) -> (r: Option<Fields>)
    ensures
        fields_row(r) == json_fields(bytes@),
        forall|v: Seq<json::MemberRow>| bytes@ == #[trigger] json::object_bytes(v) ==> r is None,
{
    serde_json::from_slice::<(u16, String, String, u16, String)>(bytes).ok()
}

/// An announcement if it is one that is listened to.
pub fn listened_to(a: Announcement) -> (r: Option<Announcement>)
    ensures
        announcement_row(r) == listened(a@),
{
    if a.fp.as_str().as_bytes().len() == 64 && a.v == 1 {
        Some(a)
    } else {
        None
    }
}

/// The announcement that is listened to, from what an object holds under the
/// keys.
pub fn announcement_from(
    v: Option<u16>,
    fp: Option<String>,
    nick: Option<String>,
    tport: Option<u16>,
    caps: Option<String>,
) -> (r: Option<Announcement>)
    ensures
        announcement_row(r) == announcement_in(
            v,
            text::opt_text(fp),
            text::opt_text(nick),
            tport,
            text::opt_text(caps),
        ),
{
    match (v, fp, nick, tport, caps) {
        (Some(v), Some(fp), Some(nick), Some(tport), Some(caps)) => listened_to(
            Announcement { v, fp, nick, tport, caps },
        ),
        _ => None,
    }
}

/// The announcement in a datagram. An announcement that is listened to is read
/// back from what `encode` made of it, with what is carried of its nickname.
pub fn decode(buf: &[u8]) -> (r: Option<Announcement>)
    ensures
        announcement_row(r) == announcement_of(buf@),
        forall|a: AnnouncementRow|
            is_accepted(a) && buf@ == #[trigger] announcement_bytes(a) ==> announcement_row(r)
                == Some(carried(a)),
{
    let fields = read_fields(buf);
    let members = read_members(buf);
    proof {
        assert forall|a: AnnouncementRow|
            is_accepted(a) && buf@ == #[trigger] announcement_bytes(a) implies fields is None
            && json::opt_raw_rows(members) == Some(
            json::written_rows(announcement_members(carried(a))),
        ) by {
            lemma_announcement_members(carried(a));
            assert(buf@ == json::object_bytes(announcement_members(carried(a))));
        }
    }
    if let Some((v, fp, nick, tport, caps)) = fields {
        return listened_to(Announcement { v, fp, nick, tport, caps });
    }
    let m = match members {
        Some(m) => m,
        None => {
            return None;
        },
    };
    let v = sole_u16(&m, "v");
    let fp = sole_text(&m, "fp");
    let nick = sole_text(&m, "nick");
    let tport = sole_u16(&m, "tport");
    let caps = sole_text(&m, "caps");
    proof {
        assert forall|a: AnnouncementRow|
            is_accepted(a) && buf@ == #[trigger] announcement_bytes(a) implies announcement_of(buf@)
            == Some(carried(a)) by {
            let c = carried(a);
            let w = announcement_members(c);
            lemma_announcement_members(c);
            assert(json::raw_rows(m@) == json::written_rows(w));
            assert(w[0] == json::number_member("v"@, c.v as u64));
            assert(w[1] == json::text_member("fp"@, c.fp));
            assert(w[2] == json::text_member("nick"@, c.nick));
            assert(w[3] == json::number_member("tport"@, c.tport as u64));
            assert(w[4] == json::text_member("caps"@, c.caps));
        }
    }
    announcement_from(v, fp, nick, tport, caps)
}

// ---------------------------------------------------------------------------
// Remembered addresses
// ---------------------------------------------------------------------------

/// The addresses of peers that were seen, the latest first.
#[derive(Debug)]
pub struct HistoryStore {
    ips: Vec<IpAddr>,
}

/// Tells the addresses other than one.
pub open spec fn other_than(ip: IpAddr) -> spec_fn(IpAddr) -> bool {
    |x: IpAddr| x != ip
}

/// The addresses other than one, in their order.
pub open spec fn others(s: Seq<IpAddr>, ip: IpAddr) -> Seq<IpAddr> {
    s.filter(other_than(ip))
}

/// The addresses once one was seen: it comes first, and the oldest are dropped
/// if there are too many.
pub open spec fn recorded(s: Seq<IpAddr>, ip: IpAddr) -> Seq<IpAddr> {
    let t = seq![ip] + others(s, ip);
    if t.len() > MAX_HISTORY {
        t.take(MAX_HISTORY as int)
    } else {
        t
    }
}

impl View for HistoryStore {
    type V = Seq<IpAddr>;

    closed spec fn view(&self) -> Seq<IpAddr> {
        self.ips@
    }
}

impl HistoryStore {
    /// The addresses as they were kept.
    pub fn load(ips: Vec<IpAddr>) -> (r: Self)
        ensures
            r@ == ips@,
    {
        HistoryStore { ips }
    }

    /// Notes that an address was seen.
    pub fn record(&mut self, ip: IpAddr)
        ensures
            final(self)@ == recorded(old(self)@, ip),
    {
        let ghost given = self.ips@;
        let ghost p = other_than(ip);
        let mut out: Vec<IpAddr> = Vec::new();
        out.push(ip);
        let mut i: usize = 0;
        proof {
            reveal(Seq::filter);
            assert(given.take(0).filter(p) =~= Seq::<IpAddr>::empty());
            assert(out@ =~= seq![ip] + given.take(0).filter(p));
        }
        while i < self.ips.len()
            invariant
                i <= self.ips.len(),
                self.ips@ == given,
                p == other_than(ip),
                out@ == seq![ip] + given.take(i as int).filter(p),
            decreases self.ips.len() - i,
        {
            let x: IpAddr = self.ips[i];
            proof {
                reveal(Seq::filter);
                assert(given.take(i + 1).drop_last() =~= given.take(i as int));
                assert(given.take(i + 1).last() == x);
                assert(seq![ip] + given.take(i as int).filter(p).push(x) =~= (seq![ip] + given.take(
                    i as int,
                ).filter(p)).push(x));
            }
            if x != ip {
                out.push(x);
            }
            i = i + 1;
        }
        assert(given.take(i as int) =~= given);
        if out.len() > MAX_HISTORY {
            out.truncate(MAX_HISTORY);
            assert(out@ =~= recorded(given, ip));
        }
        self.ips = out;
    }

    /// The addresses, the latest first.
    pub fn ips(&self) -> (r: Vec<IpAddr>)
        ensures
            r@ == self@,
    {
        copy_addrs(&self.ips)
    }
}

/// An address that was just seen comes first. There are never more than are
/// remembered at most, nothing is remembered twice if it was not before, and
/// the others keep their order.
pub proof fn law_recorded(s: Seq<IpAddr>, ip: IpAddr)
    ensures
        recorded(s, ip)[0] == ip,
        1 <= recorded(s, ip).len() <= MAX_HISTORY,
        recorded(s, ip).drop_first().is_prefix_of(others(s, ip)),
        s.no_duplicates() ==> recorded(s, ip).no_duplicates(),
        recorded(recorded(s, ip), ip) == recorded(s, ip),
{
    let p = other_than(ip);
    let t = seq![ip] + others(s, ip);
    let r = recorded(s, ip);
    assert(r.drop_first() =~= others(s, ip).take(r.len() - 1));
    if s.no_duplicates() {
        s.filter_lemma(p);
        lemma_filter_keeps_apart(s, p);
        assert forall|i: int, j: int| 0 <= i < r.len() && 0 <= j < r.len() && i != j implies r[i]
            != r[j] by {
            if i > 0 {
                seqs::lemma_filter_contains(s, p, r[i]);
                assert(others(s, ip).contains(others(s, ip)[i - 1]));
            }
            if j > 0 {
                seqs::lemma_filter_contains(s, p, r[j]);
                assert(others(s, ip).contains(others(s, ip)[j - 1]));
            }
            if i > 0 && j > 0 {
                assert(others(s, ip)[i - 1] != others(s, ip)[j - 1]);
            }
        }
    }
    assert(others(r, ip) =~= r.drop_first()) by {
        lemma_filter_of_kept(s, p, (r.len() - 1) as nat);
        let u = r.drop_first();
        assert(u =~= others(s, ip).take(r.len() - 1));
        assert(r =~= seq![ip] + u);
        lemma_filter_concat(seq![ip], u, p);
        reveal(Seq::filter);
        assert(seq![ip].drop_last() =~= Seq::<IpAddr>::empty());
        assert(seq![ip].drop_last().filter(p) =~= Seq::<IpAddr>::empty());
        assert(seq![ip].filter(p) =~= Seq::<IpAddr>::empty());
    }
    assert(seq![ip] + others(r, ip) =~= r);
}

proof fn lemma_filter_keeps_apart(s: Seq<IpAddr>, p: spec_fn(IpAddr) -> bool)
    requires
        s.no_duplicates(),
    ensures
        s.filter(p).no_duplicates(),
    decreases s.len(),
{
    reveal(Seq::filter);
    if s.len() > 0 {
        let t = s.drop_last();
        assert(t.no_duplicates());
        lemma_filter_keeps_apart(t, p);
        seqs::lemma_filter_contains(t, p, s.last());
        if t.filter(p).contains(s.last()) {
            let k = choose|k: int| 0 <= k < t.len() && t[k] == s.last();
            assert(s[k] == s[s.len() - 1]);
        }
        let f = s.filter(p);
        if p(s.last()) {
            assert(f =~= t.filter(p).push(s.last()));
            assert forall|i: int, j: int| 0 <= i < f.len() && 0 <= j < f.len() && i != j implies f[i]
                != f[j] by {
                if i < t.filter(p).len() {
                    assert(t.filter(p).contains(f[i]));
                }
                if j < t.filter(p).len() {
                    assert(t.filter(p).contains(f[j]));
                }
            }
        }
    }
}

proof fn lemma_filter_concat(a: Seq<IpAddr>, b: Seq<IpAddr>, p: spec_fn(IpAddr) -> bool)
    ensures
        (a + b).filter(p) == a.filter(p) + b.filter(p),
    decreases b.len(),
{
    reveal(Seq::filter);
    if b.len() == 0 {
        assert(a + b =~= a);
        assert(b.filter(p) =~= Seq::<IpAddr>::empty());
    } else {
        assert((a + b).drop_last() =~= a + b.drop_last());
        lemma_filter_concat(a, b.drop_last(), p);
        assert((a + b).last() == b.last());
        assert((a + b).filter(p) =~= a.filter(p) + b.filter(p));
    }
}

proof fn lemma_filter_of_kept(s: Seq<IpAddr>, p: spec_fn(IpAddr) -> bool, n: nat)
    requires
        n <= s.filter(p).len(),
    ensures
        s.filter(p).take(n as int).filter(p) == s.filter(p).take(n as int),
    decreases n,
{
    reveal(Seq::filter);
    let u = s.filter(p).take(n as int);
    if n > 0 {
        lemma_filter_of_kept(s, p, (n - 1) as nat);
        assert(u.drop_last() =~= s.filter(p).take(n - 1));
        seqs::lemma_filter_contains(s, p, u.last());
        assert(s.filter(p).contains(s.filter(p)[n - 1]));
        assert(u =~= u.drop_last().push(u.last()));
    } else {
        assert(u =~= Seq::<IpAddr>::empty());
        assert(u.filter(p) =~= Seq::<IpAddr>::empty());
    }
}

// ---------------------------------------------------------------------------
// The multicast group
// ---------------------------------------------------------------------------

/// The addresses of interfaces on which the multicast group is left and joined.
#[derive(Debug, Clone, PartialEq, Eq)]
pub struct SyncPlan {
    pub leave: Vec<Ipv4Addr>,
    pub join: Vec<Ipv4Addr>,
}

/// Where the group is left: on what is joined and no longer listed.
pub open spec fn to_leave(joined: Seq<Ipv4Addr>, listed: Seq<Ipv4Addr>) -> Seq<Ipv4Addr> {
    net_ifaces::without(joined, listed)
}

/// Where the group is joined: on what is listed and not joined.
pub open spec fn to_join(joined: Seq<Ipv4Addr>, listed: Seq<Ipv4Addr>) -> Seq<Ipv4Addr> {
    net_ifaces::without(listed, joined)
}

/// What is joined once the group was left.
pub open spec fn after_leaving(joined: Seq<Ipv4Addr>, listed: Seq<Ipv4Addr>) -> Seq<Ipv4Addr> {
    net_ifaces::without(joined, to_leave(joined, listed))
}

/// Tells the addresses that can be joined.
pub open spec fn in_list(able: Seq<Ipv4Addr>) -> spec_fn(Ipv4Addr) -> bool {
    |ip: Ipv4Addr| able.contains(ip)
}

/// What is joined after all, where joining succeeds on some addresses only.
pub open spec fn after_sync(
    joined: Seq<Ipv4Addr>,
    listed: Seq<Ipv4Addr>,
    able: Seq<Ipv4Addr>,
) -> Seq<Ipv4Addr> {
    after_leaving(joined, listed) + to_join(joined, listed).filter(in_list(able))
}

/// What to leave and what to join. What is left counts as left, whether or not
/// leaving succeeds.
pub fn begin_sync(joined: &mut Vec<Ipv4Addr>, entries: &[IfaceEntry]) -> (r: SyncPlan)
    ensures
        r.leave@ == to_leave(old(joined)@, net_ifaces::ips_of(net_ifaces::rows(entries@))),
        r.join@ == to_join(old(joined)@, net_ifaces::ips_of(net_ifaces::rows(entries@))),
        final(joined)@ == after_leaving(
            old(joined)@,
            net_ifaces::ips_of(net_ifaces::rows(entries@)),
        ),
{
    let (join, leave) = multicast_diff(joined.as_slice(), entries);
    let kept = addrs_without(joined.as_slice(), leave.as_slice());
    *joined = kept;
    SyncPlan { leave, join }
}

/// Takes note of a join: it counts if it succeeded.
pub fn note_join(joined: &mut Vec<Ipv4Addr>, ip: Ipv4Addr, ok: bool)
    ensures
        final(joined)@ == (if ok {
            old(joined)@.push(ip)
        } else {
            old(joined)@
        }),
{
    if ok {
        joined.push(ip);
    }
}

/// Follows the interfaces: the group is left where it is no longer wanted, then
/// joined where it is wanted. `able` are the addresses on which joining
/// succeeds; a failure on one does not touch the others.
pub fn sync_multicast(
    joined: &mut Vec<Ipv4Addr>,
    entries: &[IfaceEntry],
    able: &[Ipv4Addr],
) -> (r: SyncPlan)
    ensures
        r.leave@ == to_leave(old(joined)@, net_ifaces::ips_of(net_ifaces::rows(entries@))),
        r.join@ == to_join(old(joined)@, net_ifaces::ips_of(net_ifaces::rows(entries@))),
        final(joined)@ == after_sync(
            old(joined)@,
            net_ifaces::ips_of(net_ifaces::rows(entries@)),
            able@,
        ),
{
    let plan = begin_sync(joined, entries);
    let ghost left = joined@;
    let ghost p = in_list(able@);
    let mut i: usize = 0;
    proof {
        reveal(Seq::filter);
        assert(plan.join@.take(0).filter(p) =~= Seq::<Ipv4Addr>::empty());
        assert(joined@ =~= left + plan.join@.take(0).filter(p));
    }
    while i < plan.join.len()
        invariant
            i <= plan.join.len(),
            p == in_list(able@),
            joined@ == left + plan.join@.take(i as int).filter(p),
        decreases plan.join.len() - i,
    {
        let ip: Ipv4Addr = plan.join[i];
        proof {
            reveal(Seq::filter);
            assert(plan.join@.take(i + 1).drop_last() =~= plan.join@.take(i as int));
            assert(plan.join@.take(i + 1).last() == ip);
            assert(left + plan.join@.take(i as int).filter(p).push(ip) =~= (left + plan.join@.take(
                i as int,
            ).filter(p)).push(ip));
        }
        let ok = holds_addr(able, ip);
        note_join(joined, ip, ok);
        i = i + 1;
    }
    assert(plan.join@.take(i as int) =~= plan.join@);
    plan
}

/// Once every wanted join has succeeded, following the same interfaces again
/// does nothing.
pub proof fn law_sync_settles(joined: Seq<Ipv4Addr>, listed: Seq<Ipv4Addr>)
    ensures
        to_leave(after_sync(joined, listed, listed), listed).len() == 0,
        to_join(after_sync(joined, listed, listed), listed).len() == 0,
{
    let p = in_list(listed);
    let new = to_join(joined, listed);
    assert(new.filter(p) =~= new) by {
        assert forall|x: Ipv4Addr| new.contains(x) implies #[trigger] p(x) by {
            net_ifaces::lemma_without_contains(listed, joined, x);
        }
        lemma_filter_all(new, p);
    }
    net_ifaces::law_multicast_diff_reaches_entries(joined, listed);
    let after = after_sync(joined, listed, listed);
    assert(forall|x: Ipv4Addr| after.contains(x) == #[trigger] listed.contains(x));
    let l = to_leave(after, listed);
    let j = to_join(after, listed);
    if l.len() > 0 {
        net_ifaces::lemma_without_contains(after, listed, l[0]);
        assert(l.contains(l[0]));
        assert(listed.contains(l[0]));
    }
    if j.len() > 0 {
        net_ifaces::lemma_without_contains(listed, after, j[0]);
        assert(j.contains(j[0]));
        assert(listed.contains(j[0]));
    }
}

/// A join that failed is tried again the next time.
pub proof fn law_failed_join_is_tried_again(
    joined: Seq<Ipv4Addr>,
    listed: Seq<Ipv4Addr>,
    able: Seq<Ipv4Addr>,
    ip: Ipv4Addr,
)
    requires
        to_join(joined, listed).contains(ip),
        !able.contains(ip),
    ensures
        !after_sync(joined, listed, able).contains(ip),
        to_join(after_sync(joined, listed, able), listed).contains(ip),
{
    let p = in_list(able);
    let after = after_sync(joined, listed, able);
    let left = after_leaving(joined, listed);
    let new = to_join(joined, listed).filter(p);
    net_ifaces::lemma_without_contains(listed, joined, ip);
    net_ifaces::lemma_without_contains(joined, to_leave(joined, listed), ip);
    seqs::lemma_filter_contains(to_join(joined, listed), p, ip);
    assert(!after.contains(ip)) by {
        if after.contains(ip) {
            let k = choose|k: int| 0 <= k < after.len() && after[k] == ip;
            if k < left.len() {
                assert(left[k] == ip);
                assert(left.contains(ip));
            } else {
                assert(new[k - left.len()] == ip);
                assert(new.contains(ip));
            }
        }
    }
    net_ifaces::lemma_without_contains(listed, after, ip);
}

proof fn lemma_filter_all(s: Seq<Ipv4Addr>, p: spec_fn(Ipv4Addr) -> bool)
    requires
        forall|x: Ipv4Addr| s.contains(x) ==> #[trigger] p(x),
    ensures
        s.filter(p) == s,
    decreases s.len(),
{
    reveal(Seq::filter);
    if s.len() > 0 {
        let t = s.drop_last();
        assert forall|x: Ipv4Addr| t.contains(x) implies #[trigger] p(x) by {
            let k = choose|k: int| 0 <= k < t.len() && t[k] == x;
            assert(s[k] == x);
        }
        lemma_filter_all(t, p);
        assert(s.contains(s.last()));
        assert(p(s.last()));
        assert(s =~= t.push(s.last()));
    } else {
        assert(s.filter(p) =~= s);
    }
}

// ---------------------------------------------------------------------------
// Sending
// ---------------------------------------------------------------------------

/// The multicast group on a port.
pub open spec fn group_at(port: u16) -> SocketAddr {
    SocketAddr { ip: Ipv4Addr { bits: MULTICAST_GROUP }, port }
}

/// Where a datagram goes for one subnet: to the multicast group if its interface
/// could be chosen for that, and to the subnet's broadcast address in any case.
pub open spec fn sends_to(t: SendTarget, port: u16, switched: bool) -> Seq<SocketAddr> {
    let broadcast = SocketAddr { ip: t.broadcast, port };
    if switched {
        seq![group_at(port), broadcast]
    } else {
        seq![broadcast]
    }
}

/// Where a datagram goes for all subnets.
pub open spec fn all_sends(
    targets: Seq<SendTarget>,
    port: u16,
    able: Seq<Ipv4Addr>,
) -> Seq<SocketAddr>
    decreases targets.len(),
{
    if targets.len() == 0 {
        Seq::empty()
    } else {
        all_sends(targets.drop_last(), port, able) + sends_to(
            targets.last(),
            port,
            able.contains(targets.last().iface_ip),
        )
    }
}

/// Where a datagram goes for one subnet.
pub fn target_sends(t: SendTarget, port: u16, switched: bool) -> (r: Vec<SocketAddr>)
    ensures
        r@ == sends_to(t, port, switched),
{
    let mut v: Vec<SocketAddr> = Vec::new();
    if switched {
        v.push(SocketAddr { ip: Ipv4Addr { bits: MULTICAST_GROUP }, port });
    }
    v.push(SocketAddr { ip: t.broadcast, port });
    assert(v@ =~= sends_to(t, port, switched));
    v
}

/// Where a datagram goes for all subnets. `able` are the addresses of the
/// interfaces that can be chosen for multicast.
pub fn sends_over(targets: &[SendTarget], port: u16, able: &[Ipv4Addr]) -> (r: Vec<SocketAddr>)
    ensures
        r@ == all_sends(targets@, port, able@),
{
    let mut out: Vec<SocketAddr> = Vec::new();
    let mut i: usize = 0;
    assert(targets@.take(0) =~= Seq::<SendTarget>::empty());
    assert(out@ =~= all_sends(targets@.take(0), port, able@));
    while i < targets.len()
        invariant
            i <= targets.len(),
            out@ == all_sends(targets@.take(i as int), port, able@),
        decreases targets.len() - i,
    {
        let t: SendTarget = targets[i];
        let switched = holds_addr(able, t.iface_ip);
        let mut sends = target_sends(t, port, switched);
        proof {
            assert(targets@.take(i + 1).drop_last() =~= targets@.take(i as int));
            assert(targets@.take(i + 1).last() == t);
        }
        out.append(&mut sends);
        i = i + 1;
    }
    assert(targets@.take(i as int) =~= targets@);
    out
}

/// Where a datagram goes: for each subnet to the multicast group and to the
/// broadcast address, and nowhere if no interface is in use.
pub fn send_dual(port: u16, entries: &[IfaceEntry], able: &[Ipv4Addr]) -> (r: Vec<SocketAddr>)
    ensures
        r@ == all_sends(net_ifaces::targets_of(net_ifaces::rows(entries@)), port, able@),
        entries@.len() == 0 ==> r@.len() == 0,
{
    let targets = send_targets(entries);
    sends_over(targets.as_slice(), port, able)
}

/// With no interface in use nothing is sent: the peer does not show itself.
pub proof fn law_no_interface_no_announcement(port: u16, able: Seq<Ipv4Addr>)
    ensures
        all_sends(
            net_ifaces::targets_of(Seq::<net_ifaces::IfaceRow>::empty()),
            port,
            able,
        ).len() == 0,
{
    assert(net_ifaces::targets_of(Seq::<net_ifaces::IfaceRow>::empty()) =~= Seq::<
        SendTarget,
    >::empty());
}

/// Every subnet gets the broadcast, whether or not its interface can be chosen
/// for multicast.
pub proof fn law_broadcast_is_always_sent(
    targets: Seq<SendTarget>,
    port: u16,
    able: Seq<Ipv4Addr>,
    i: int,
)
    requires
        0 <= i < targets.len(),
    ensures
        all_sends(targets, port, able).contains(SocketAddr { ip: targets[i].broadcast, port }),
    decreases targets.len(),
{
    let rest = all_sends(targets.drop_last(), port, able);
    let last = sends_to(targets.last(), port, able.contains(targets.last().iface_ip));
    let all = all_sends(targets, port, able);
    let wanted = SocketAddr { ip: targets[i].broadcast, port };
    if i == targets.len() - 1 {
        assert(last.last() == wanted);
        assert(all[all.len() - 1] == wanted);
    } else {
        law_broadcast_is_always_sent(targets.drop_last(), port, able, i);
        let k = choose|k: int| 0 <= k < rest.len() && rest[k] == wanted;
        assert(all[k] == wanted);
    }
}

/// Where a datagram goes for a subnet that is told by a plan. `switched` tells
/// whether multicast goes out through the subnet's interface.
pub open spec fn planned_sends(s: Subnet, p: Plan, port: u16, switched: bool) -> Seq<SocketAddr> {
    match p {
        Plan::Broadcast => sends_to(s.target(), port, switched),
        Plan::Unicast(hosts) => hosts@.map_values(|ip: Ipv4Addr| SocketAddr { ip, port }),
        Plan::Silent => Seq::empty(),
    }
}

/// Where a datagram goes for hosts that are told one by one.
pub fn host_sends(hosts: &Vec<Ipv4Addr>, port: u16) -> (r: Vec<SocketAddr>)
    ensures
        r@ == hosts@.map_values(|ip: Ipv4Addr| SocketAddr { ip, port }),
{
    let mut r: Vec<SocketAddr> = Vec::new();
    let mut i: usize = 0;
    let ghost f = |ip: Ipv4Addr| SocketAddr { ip, port };
    while i < hosts.len()
        invariant
            i <= hosts.len(),
            f == (|ip: Ipv4Addr| SocketAddr { ip, port }),
            r@ =~= hosts@.map_values(f).take(i as int),
        decreases hosts.len() - i,
    {
        r.push(SocketAddr { ip: hosts[i], port });
        i = i + 1;
    }
    assert(hosts@.map_values(f).take(i as int) =~= hosts@.map_values(f));
    r
}

/// Where a datagram goes for a subnet that is told by a plan.
pub fn plan_sends(s: Subnet, p: &Plan, port: u16, switched: bool) -> (r: Vec<SocketAddr>)
    ensures
        r@ == planned_sends(s, *p, port, switched),
{
    match p {
        Plan::Broadcast => target_sends(
            SendTarget { iface_ip: s.iface_ip, broadcast: s.broadcast },
            port,
            switched,
        ),
        Plan::Unicast(hosts) => host_sends(hosts, port),
        Plan::Silent => {
            let r: Vec<SocketAddr> = Vec::new();
            assert(r@ =~= Seq::<SocketAddr>::empty());
            r
        },
    }
}

/// Nothing goes to the multicast group or to the broadcast address of a subnet
/// that is not in scope as a whole.
pub proof fn law_hidden_subnet_is_not_broadcast_to(
    s: Subnet,
    p: Plan,
    entries: Seq<ScopeEntry>,
    own: Seq<Ipv4Addr>,
    port: u16,
    switched: bool,
    to: SocketAddr,
)
    requires
        reach::is_plan(p, entries, s, own),
        !net_scope::subnet_covered(entries, s.iface_ip, s.netmask),
        planned_sends(s, p, port, switched).contains(to),
    ensures
        p is Unicast,
        net_scope::scope_allows(entries, to.ip.bits),
        !own.contains(to.ip),
        to.port == port,
{
    if let Plan::Unicast(hosts) = p {
        let f = |ip: Ipv4Addr| SocketAddr { ip, port };
        let sent = hosts@.map_values(f);
        let k = choose|k: int| 0 <= k < sent.len() && sent[k] == to;
        assert(to == f(hosts@[k]));
        let wanted = net_scope::wanted_within(entries, s.iface_ip, s.netmask, own);
        assert(wanted(hosts@[k].bits));
        assert(Ipv4Addr { bits: to.ip.bits } == to.ip);
    }
}

/// Whether a round may be sent: the last one is long enough ago.
pub open spec fn round_allowed(last_send: Instant, now: Instant) -> bool {
    now.elapsed_since(last_send) >= MIN_SEND_BATCH_INTERVAL
}

/// Whether a round may be sent: the last one is long enough ago.
pub fn send_allowed(last_send: Instant, now: Instant) -> (r: bool)
    ensures
        r == round_allowed(last_send, now),
{
    now.since(last_send) >= MIN_SEND_BATCH_INTERVAL
}

/// When announcements are sent: after two, four and eight seconds, and from then
/// on from time to time. In between, a change of the interfaces is followed at
/// once, with a round of its own as soon as one may be sent.
#[derive(Debug, Clone, Copy, PartialEq, Eq, Structural)]
pub struct SendLoop {
    /// Which of the waits this is; those from the fourth on are alike.
    pub stage: u8,
    /// What is left of the wait, in nanoseconds.
    pub remaining: u64,
    /// Whether a change has not been announced yet.
    pub pending_send: bool,
    /// When the last round was sent.
    pub last_send: Instant,
}

/// What is done at one look around.
#[derive(Debug, Clone, Copy, PartialEq, Eq, Structural)]
pub struct Round {
    /// The multicast group follows the interfaces.
    pub sync: bool,
    /// A round of announcements is sent.
    pub send: bool,
    /// How long to sleep after that, in nanoseconds.
    pub sleep: u64,
}

/// How long a wait is, in nanoseconds.
pub open spec fn wait_of(stage: u8) -> u64 {
    if stage == 0 {
        2_000_000_000
    } else if stage == 1 {
        4_000_000_000
    } else if stage == 2 {
        8_000_000_000
    } else {
        PERIODIC_INTERVAL
    }
}

/// The wait after a wait.
pub open spec fn stage_after(stage: u8) -> u8 {
    if stage < 3 {
        (stage + 1) as u8
    } else {
        stage
    }
}

/// The state at the start. The first round is not held back.
pub open spec fn first_wait(now: Instant) -> SendLoop {
    SendLoop {
        stage: 0,
        remaining: wait_of(0),
        pending_send: false,
        last_send: if now.nanos >= MIN_SEND_BATCH_INTERVAL {
            Instant { nanos: (now.nanos - MIN_SEND_BATCH_INTERVAL) as u64 }
        } else {
            now
        },
    }
}

/// What is done at one look around, and the state after it. At the end of a
/// wait the group follows the interfaces in any case.
pub open spec fn after_look(s: SendLoop, changed: bool, now: Instant) -> (SendLoop, Round) {
    let allowed = round_allowed(s.last_send, now);
    if s.remaining == 0 {
        (
            SendLoop {
                stage: stage_after(s.stage),
                remaining: wait_of(stage_after(s.stage)),
                pending_send: false,
                last_send: s.last_send,
            },
            Round { sync: true, send: allowed, sleep: 0 },
        )
    } else {
        let send = allowed && (changed || s.pending_send);
        let step = if s.remaining < SLEEP_STEP {
            s.remaining
        } else {
            SLEEP_STEP
        };
        (
            SendLoop {
                remaining: (s.remaining - step) as u64,
                pending_send: !send && (changed || s.pending_send),
                ..s
            },
            Round { sync: changed, send, sleep: step },
        )
    }
}

fn wait_nanos(stage: u8) -> (r: u64)
    ensures
        r == wait_of(stage),
{
    if stage == 0 {
        2_000_000_000
    } else if stage == 1 {
        4_000_000_000
    } else if stage == 2 {
        8_000_000_000
    } else {
        PERIODIC_INTERVAL
    }
}

impl SendLoop {
    /// Starts to wait for the first round.
    pub fn start(now: Instant) -> (r: Self)
        ensures
            r == first_wait(now),
    {
        let last_send = if now.nanos >= MIN_SEND_BATCH_INTERVAL {
            Instant { nanos: now.nanos - MIN_SEND_BATCH_INTERVAL }
        } else {
            now
        };
        SendLoop { stage: 0, remaining: wait_nanos(0), pending_send: false, last_send }
    }

    /// Looks around once: whether the interfaces have changed, and what time it
    /// is. Nothing is to be done any more if stopping is asked for during a wait.
    pub fn look(&mut self, stop: bool, changed: bool, now: Instant) -> (r: Option<Round>)
        ensures
            r is None <==> stop && old(self).remaining > 0,
            r is None ==> *final(self) == *old(self),
            r matches Some(round) ==> (*final(self), round) == after_look(
                *old(self),
                changed,
                now,
            ),
    {
        if self.remaining == 0 {
            let send = send_allowed(self.last_send, now);
            if self.stage < 3 {
                self.stage = self.stage + 1;
            }
            self.remaining = wait_nanos(self.stage);
            self.pending_send = false;
            return Some(Round { sync: true, send, sleep: 0 });
        }
        if stop {
            return None;
        }
        let wanted = changed || self.pending_send;
        let send = wanted && send_allowed(self.last_send, now);
        self.pending_send = wanted && !send;
        let step: u64 = if self.remaining < SLEEP_STEP {
            self.remaining
        } else {
            SLEEP_STEP
        };
        self.remaining = self.remaining - step;
        Some(Round { sync: changed, send, sleep: step })
    }

    /// Notes when a round was sent.
    pub fn sent(&mut self, now: Instant)
        ensures
            *final(self) == (SendLoop { last_send: now, ..*old(self) }),
    {
        self.last_send = now;
    }
}

/// Two rounds are never closer together than they may be.
pub proof fn law_rounds_keep_their_distance(s: SendLoop, changed: bool, now: Instant)
    ensures
        after_look(s, changed, now).1.send ==> now.nanos - s.last_send.nanos
            >= MIN_SEND_BATCH_INTERVAL,
{
}

/// A change that came too soon after a round is not lost: during the wait it
/// stays due, and the first look at which a round may be sent sends one.
pub proof fn law_held_back_round_is_made_up(s: SendLoop, changed: bool, now: Instant)
    requires
        s.remaining > 0,
        changed || s.pending_send,
    ensures
        after_look(s, changed, now).1.send == round_allowed(s.last_send, now),
        after_look(s, changed, now).1.send != after_look(s, changed, now).0.pending_send,
        after_look(s, changed, now).1.sleep <= SLEEP_STEP,
{
}

/// Every wait ends, with the group following the interfaces, and is followed by
/// a wait that is long enough for another round.
pub proof fn law_wait_ends_with_a_sync(s: SendLoop, changed: bool, now: Instant)
    ensures
        s.remaining == 0 ==> after_look(s, changed, now).1.sync && after_look(
            s,
            changed,
            now,
        ).0.remaining >= MIN_SEND_BATCH_INTERVAL,
        s.remaining > 0 ==> after_look(s, changed, now).0.remaining < s.remaining && after_look(
            s,
            changed,
            now,
        ).1.sleep == s.remaining - after_look(s, changed, now).0.remaining,
{
}

/// At the end of every wait, the periodic ones as well as the first ones, a round
/// is sent exactly if the last one is at least a second ago. During a wait one is
/// sent exactly if a change asks for it as well.
pub proof fn law_every_wait_ends_with_a_round(s: SendLoop, changed: bool, now: Instant)
    ensures
        s.remaining == 0 ==> (after_look(s, changed, now).1.send <==> now.nanos
            >= s.last_send.nanos + 1_000_000_000),
        s.remaining > 0 ==> (after_look(s, changed, now).1.send <==> (changed || s.pending_send)
            && now.nanos >= s.last_send.nanos + 1_000_000_000),
{
}

/// The first wait is two seconds long, each of the next two is twice as long as
/// the one before, and every later one takes twenty-five seconds. A wait that is
/// not over is not cut short or made longer, and a look takes nothing else from
/// the state.
pub proof fn law_waits_grow(s: SendLoop, changed: bool, now: Instant)
    ensures
        first_wait(now).stage == 0,
        first_wait(now).remaining == 2_000_000_000,
        s.remaining == 0 && s.stage < 2 ==> {
            &&& after_look(s, changed, now).0.stage == s.stage + 1
            &&& after_look(s, changed, now).0.remaining == 2 * wait_of(s.stage)
        },
        s.remaining == 0 && s.stage >= 2 ==> {
            &&& after_look(s, changed, now).0.stage >= 3
            &&& after_look(s, changed, now).0.remaining == 25_000_000_000
        },
        s.remaining > 0 ==> {
            &&& after_look(s, changed, now).0.stage == s.stage
            &&& after_look(s, changed, now).0.remaining + after_look(s, changed, now).1.sleep
                == s.remaining
            &&& 0 < after_look(s, changed, now).1.sleep <= 200_000_000
        },
        after_look(s, changed, now).0.last_send == s.last_send,
{
}

/// The group follows the interfaces at the end of every wait and at every change,
/// and at no other time.
pub proof fn law_group_follows_changes(s: SendLoop, changed: bool, now: Instant)
    ensures
        after_look(s, changed, now).1.sync <==> changed || s.remaining == 0,
{
}

/// Whether one look leads to the next: a round that was sent is noted, and the
/// sleep that was asked for passes.
pub open spec fn next_look(
    s: SendLoop,
    changed: bool,
    now: u64,
    next: SendLoop,
    later: u64,
) -> bool {
    let (t, round) = after_look(s, changed, Instant { nanos: now });
    &&& next == if round.send {
        SendLoop { last_send: Instant { nanos: now }, ..t }
    } else {
        t
    }
    &&& later == now + round.sleep
}

/// Whether these are the looks of one run from its start, with the time of each
/// and whether the interfaces had changed by it.
pub open spec fn is_run(states: Seq<SendLoop>, changes: Seq<bool>, times: Seq<u64>) -> bool {
    &&& states.len() == times.len() && states.len() == changes.len() && states.len() > 0
    &&& states[0] == first_wait(Instant { nanos: times[0] })
    &&& forall|i: int, j: int|
        #![trigger states[i], states[j]]
        0 <= i && j == i + 1 && j < states.len() ==> next_look(
            states[i],
            changes[i],
            times[i],
            states[j],
            times[j],
        )
}

/// Whether a round is sent at a look.
pub open spec fn sends_at(
    states: Seq<SendLoop>,
    changes: Seq<bool>,
    times: Seq<u64>,
    i: int,
) -> bool {
    after_look(states[i], changes[i], Instant { nanos: times[i] }).1.send
}

proof fn lemma_run_is_kept_up(
    states: Seq<SendLoop>,
    changes: Seq<bool>,
    times: Seq<u64>,
    i: int,
)
    requires
        is_run(states, changes, times),
        0 <= i < states.len(),
    ensures
        states[i].remaining <= 25_000_000_000,
        states[i].last_send.nanos <= times[i],
        times[i] + states[i].remaining <= states[i].last_send.nanos + 26_000_000_000,
    decreases i,
{
    if i > 0 {
        lemma_run_is_kept_up(states, changes, times, i - 1);
        assert(next_look(states[i - 1], changes[i - 1], times[i - 1], states[i], times[i]));
    }
}

proof fn lemma_quiet_run(
    states: Seq<SendLoop>,
    changes: Seq<bool>,
    times: Seq<u64>,
    i: int,
    j: int,
)
    requires
        is_run(states, changes, times),
        0 <= i <= j < states.len(),
        forall|k: int| i <= k < j ==> !#[trigger] sends_at(states, changes, times, k),
    ensures
        states[j].last_send == states[i].last_send,
        times[i] <= times[j],
    decreases j - i,
{
    if i < j {
        lemma_quiet_run(states, changes, times, i, j - 1);
        assert(!sends_at(states, changes, times, j - 1));
        assert(next_look(states[j - 1], changes[j - 1], times[j - 1], states[j], times[j]));
    }
}

/// A peer that runs is never silent for longer than a periodic wait and the least
/// distance of two rounds: between any two looks that are further apart, whatever
/// changes in between, a round is sent.
pub proof fn law_rounds_go_on(
    states: Seq<SendLoop>,
    changes: Seq<bool>,
    times: Seq<u64>,
    i: int,
    j: int,
)
    requires
        is_run(states, changes, times),
        0 <= i <= j < states.len(),
        times[j] - times[i] > 26_000_000_000,
    ensures
        exists|k: int| i <= k < j && #[trigger] sends_at(states, changes, times, k),
{
    if forall|k: int| i <= k < j ==> !#[trigger] sends_at(states, changes, times, k) {
        lemma_quiet_run(states, changes, times, i, j);
        lemma_run_is_kept_up(states, changes, times, i);
        lemma_run_is_kept_up(states, changes, times, j);
    }
}

/// Of two rounds in one run, the later one comes at least a second after the
/// earlier one.
pub proof fn law_rounds_of_a_run_keep_their_distance(
    states: Seq<SendLoop>,
    changes: Seq<bool>,
    times: Seq<u64>,
    i: int,
    j: int,
)
    requires
        is_run(states, changes, times),
        0 <= i < j < states.len(),
        sends_at(states, changes, times, i),
        sends_at(states, changes, times, j),
    ensures
        times[j] - times[i] >= 1_000_000_000,
{
    lemma_last_round_is_noted(states, changes, times, i, j);
}

proof fn lemma_last_round_is_noted(
    states: Seq<SendLoop>,
    changes: Seq<bool>,
    times: Seq<u64>,
    i: int,
    j: int,
)
    requires
        is_run(states, changes, times),
        0 <= i < j < states.len(),
        sends_at(states, changes, times, i),
    ensures
        states[j].last_send.nanos >= times[i],
        times[j] >= times[i],
    decreases j - i,
{
    if i + 1 < j {
        lemma_last_round_is_noted(states, changes, times, i, j - 1);
    }
    assert(next_look(states[j - 1], changes[j - 1], times[j - 1], states[j], times[j]));
}

/// Where an address known from earlier is told that we are here.
pub fn poke_target(ip: IpAddr) -> (r: (IpAddr, u16))
    ensures
        r == (ip, DEFAULT_ANNOUNCE_PORT),
{
    (ip, DEFAULT_ANNOUNCE_PORT)
}

/// Our own announcement.
pub open spec fn own_announcement(fp: Seq<char>, nick: Seq<char>, tport: u16) -> AnnouncementRow {
    AnnouncementRow { v: 1, fp, nick, tport, caps: "native"@ }
}

/// The datagram of our own announcement.
pub fn own_datagram(fingerprint: &str, nick: &str, tport: u16) -> (r: Vec<u8>)
    ensures
        r@ == announcement_bytes(own_announcement(fingerprint@, nick@, tport)),
        utf8::byte_len(fingerprint@) <= 64 ==> r@.len() <= MAX_DATAGRAM,
{
    let a = Announcement {
        v: 1,
        fp: owned(fingerprint),
        nick: owned(nick),
        tport,
        caps: owned("native"),
    };
    proof {
        reveal_strlit("native");
        vstd::utf8::is_ascii_chars_encode_utf8("native"@);
    }
    encode(&a)
}

// ---------------------------------------------------------------------------
// Receiving
// ---------------------------------------------------------------------------

/// When the addresses were last answered.
pub open spec fn last_in(v: Seq<(IpAddr, Instant)>, ip: IpAddr) -> Option<Instant>
    decreases v.len(),
{
    if v.len() == 0 {
        None
    } else if v.last().0 == ip {
        Some(v.last().1)
    } else {
        last_in(v.drop_last(), ip)
    }
}

/// Listens to announcements and answers them.
#[derive(Debug)]
pub struct Listener {
    self_fp: String,
    last_reply: Vec<(IpAddr, Instant)>,
}

/// What comes of a datagram.
#[derive(Debug, Clone, PartialEq)]
pub enum Heard {
    /// It is passed over.
    Nothing,
    /// A peer is there; it is answered or not.
    Seen { event: DiscoveryEvent, reply: bool },
}

/// What comes of a datagram, by value.
#[verifier::ext_equal]
pub enum HeardRow {
    Nothing,
    Seen { event: roster::EventRow, reply: bool },
}

impl View for Heard {
    type V = HeardRow;

    open spec fn view(&self) -> HeardRow {
        match *self {
            Heard::Nothing => HeardRow::Nothing,
            Heard::Seen { event, reply } => HeardRow::Seen { event: event@, reply },
        }
    }
}

/// Whether an address is answered: some interface is in use, and the last answer
/// is long enough ago.
pub open spec fn answers(last: Option<Instant>, now: Instant, visible: bool) -> bool {
    visible && match last {
        Some(t) => now.elapsed_since(t) >= REPLY_RATE_LIMIT,
        None => true,
    }
}

/// What comes of an announcement.
pub open spec fn heard(
    me: Seq<char>,
    last: Option<Instant>,
    a: Option<AnnouncementRow>,
    src: IpAddr,
    now: Instant,
    visible: bool,
) -> HeardRow {
    match a {
        None => HeardRow::Nothing,
        Some(a) => if a.fp == me {
            HeardRow::Nothing
        } else {
            HeardRow::Seen {
                event: roster::EventRow::Seen {
                    fingerprint: a.fp,
                    nickname: a.nick,
                    addrs: seq![src],
                    port: a.tport,
                    protocol: Protocol::Native,
                },
                reply: answers(last, now, visible),
            }
        },
    }
}

impl Listener {
    /// The own fingerprint.
    pub closed spec fn me(&self) -> Seq<char> {
        self.self_fp@
    }

    /// When an address was last answered.
    pub closed spec fn answered(&self, ip: IpAddr) -> Option<Instant> {
        last_in(self.last_reply@, ip)
    }

    /// Starts to listen.
    pub fn new(self_fp: String) -> (r: Self)
        ensures
            r.me() == self_fp@,
            forall|ip: IpAddr| #[trigger] r.answered(ip) is None,
    {
        Listener { self_fp, last_reply: Vec::new() }
    }

    fn last_answer(&self, ip: IpAddr) -> (r: Option<Instant>)
        ensures
            r == self.answered(ip),
    {
        let mut i: usize = self.last_reply.len();
        assert(self.last_reply@.take(i as int) =~= self.last_reply@);
        while i > 0
            invariant
                i <= self.last_reply.len(),
                last_in(self.last_reply@, ip) == last_in(self.last_reply@.take(i as int), ip),
            decreases i,
        {
            let (k, t) = self.last_reply[i - 1];
            let ghost s = self.last_reply@.take(i as int);
            assert(s.last() == self.last_reply@[i - 1]);
            if k == ip {
                return Some(t);
            }
            assert(s.drop_last() =~= self.last_reply@.take(i - 1));
            i = i - 1;
        }
        None
    }

    fn note_answer(&mut self, ip: IpAddr, now: Instant)
        ensures
            final(self).me() == old(self).me(),
            final(self).answered(ip) == Some(now),
            forall|x: IpAddr| x != ip ==> #[trigger] final(self).answered(x) == old(self).answered(x),
    {
        let mut out: Vec<(IpAddr, Instant)> = Vec::new();
        let mut i: usize = 0;
        let ghost given = self.last_reply@;
        assert(given.take(0) =~= Seq::<(IpAddr, Instant)>::empty());
        while i < self.last_reply.len()
            invariant
                i <= self.last_reply.len(),
                given == self.last_reply@,
                forall|x: IpAddr|
                    x != ip ==> #[trigger] last_in(out@, x) == last_in(given.take(i as int), x),
            decreases self.last_reply.len() - i,
        {
            let (k, t) = self.last_reply[i];
            let ghost before = out@;
            assert(given.take(i + 1).drop_last() =~= given.take(i as int));
            assert(given.take(i + 1).last() == given[i as int]);
            if k != ip {
                out.push((k, t));
                assert(out@.drop_last() =~= before);
            }
            assert forall|x: IpAddr| x != ip implies #[trigger] last_in(out@, x) == last_in(
                given.take(i + 1),
                x,
            ) by {
                assert(last_in(before, x) == last_in(given.take(i as int), x));
            }
            i = i + 1;
        }
        let ghost before = out@;
        out.push((ip, now));
        assert(out@.drop_last() =~= before);
        assert(given.take(i as int) =~= given);
        self.last_reply = out;
        assert forall|x: IpAddr| x != ip implies #[trigger] self.answered(x) == last_in(given, x) by {
            assert(last_in(before, x) == last_in(given.take(i as int), x));
        }
    }

    /// Takes in what a datagram from an address announces, if it announces
    /// anything. `visible` tells whether any interface is in use.
    pub fn hear_announcement(
        &mut self,
        announced: Option<Announcement>,
        src: IpAddr,
        now: Instant,
        visible: bool,
    ) -> (r: Heard)
        ensures
            r@ == heard(
                old(self).me(),
                old(self).answered(src),
                announcement_row(announced),
                src,
                now,
                visible,
            ),
            final(self).me() == old(self).me(),
            final(self).answered(src) == (if r is Seen && r->reply {
                Some(now)
            } else {
                old(self).answered(src)
            }),
            forall|x: IpAddr|
                x != src ==> #[trigger] final(self).answered(x) == old(self).answered(x),
    {
        let a = match announced {
            Some(a) => a,
            None => {
                return Heard::Nothing;
            },
        };
        if same_text(a.fp.as_str(), self.self_fp.as_str()) {
            return Heard::Nothing;
        }
        let mut addrs: Vec<IpAddr> = Vec::new();
        addrs.push(src);
        assert(addrs@ =~= seq![src]);
        let event = DiscoveryEvent::Seen {
            fingerprint: a.fp,
            nickname: a.nick,
            addrs,
            port: a.tport,
            protocol: Protocol::Native,
        };
        let due = match self.last_answer(src) {
            Some(t) => now.since(t) >= REPLY_RATE_LIMIT,
            None => true,
        };
        let reply = due && visible;
        if reply {
            self.note_answer(src, now);
        }
        Heard::Seen { event, reply }
    }

    /// Takes in a datagram from an address, which is ignored unless the address
    /// is in scope.
    pub fn hear_in_scope(
        &mut self,
        datagram: &[u8],
        src: IpAddr,
        now: Instant,
        visible: bool,
        scope: &NetScope,
    ) -> (r: Heard)
        ensures
            r@ == (if net_scope::ip_allowed(scope@, src) {
                heard(
                    old(self).me(),
                    old(self).answered(src),
                    announcement_of(datagram@),
                    src,
                    now,
                    visible,
                )
            } else {
                HeardRow::Nothing
            }),
            final(self).me() == old(self).me(),
            final(self).answered(src) == (if r is Seen && r->reply {
                Some(now)
            } else {
                old(self).answered(src)
            }),
            forall|x: IpAddr|
                x != src ==> #[trigger] final(self).answered(x) == old(self).answered(x),
    {
        if scope.allows(src) {
            self.hear(datagram, src, now, visible)
        } else {
            Heard::Nothing
        }
    }

    /// Takes in a datagram from an address. `visible` tells whether any
    /// interface is in use. The datagram with which another peer announces itself
    /// is reported as that peer, at the address from which it came.
    pub fn hear(&mut self, datagram: &[u8], src: IpAddr, now: Instant, visible: bool) -> (r: Heard)
        ensures
            forall|fp: Seq<char>, nick: Seq<char>, tport: u16|
                #![trigger own_announcement(fp, nick, tport)]
                utf8::byte_len(fp) == 64 && fp != old(self).me() && datagram@ == announcement_bytes(
                    own_announcement(fp, nick, tport),
                ) ==> (r@ matches HeardRow::Seen {
                    event: roster::EventRow::Seen {
                        fingerprint,
                        nickname,
                        addrs,
                        port,
                        protocol,
                    },
                    ..
                } && fingerprint == fp && nickname == carried_nick(nick) && addrs == seq![src]
                    && port == tport && protocol == Protocol::Native),
            r@ == heard(
                old(self).me(),
                old(self).answered(src),
                announcement_of(datagram@),
                src,
                now,
                visible,
            ),
            final(self).me() == old(self).me(),
            final(self).answered(src) == (if r is Seen && r->reply {
                Some(now)
            } else {
                old(self).answered(src)
            }),
            forall|x: IpAddr|
                x != src ==> #[trigger] final(self).answered(x) == old(self).answered(x),
    {
        let announced = decode(datagram);
        self.hear_announcement(announced, src, now, visible)
    }
}

/// Our own announcements, come back to us, are passed over.
pub proof fn law_own_announcement_is_passed_over(
    me: Seq<char>,
    nick: Seq<char>,
    tport: u16,
    last: Option<Instant>,
    src: IpAddr,
    now: Instant,
    visible: bool,
)
    ensures
        heard(me, last, Some(carried(own_announcement(me, nick, tport))), src, now, visible)
            is Nothing,
{
}

/// An address is answered at most once in the time of the limit, and not at all
/// while no interface is in use.
pub proof fn law_answers_are_limited(last: Option<Instant>, now: Instant, visible: bool)
    ensures
        answers(last, now, visible) ==> visible,
        answers(last, now, visible) && last is Some ==> now.nanos - last->0.nanos
            >= REPLY_RATE_LIMIT,
{
}

/// An announcement of any other peer is reported as that peer, with its fingerprint, the
/// nickname and the port that it announces, at the address from which it came, as one of
/// the native protocol. It is answered exactly if some interface is in use and the address
/// was not answered in the last five seconds.
pub proof fn law_announcement_is_heard(
    me: Seq<char>,
    fp: Seq<char>,
    nick: Seq<char>,
    tport: u16,
    last: Option<Instant>,
    src: IpAddr,
    now: Instant,
    visible: bool,
)
    requires
        fp != me,
    ensures
        heard(me, last, Some(carried(own_announcement(fp, nick, tport))), src, now, visible) matches
            HeardRow::Seen {
            event: roster::EventRow::Seen { fingerprint, nickname, addrs, port, protocol },
            reply,
        } && fingerprint == fp && nickname == carried_nick(nick) && addrs.len() == 1 && addrs[0]
            == src && port == tport && protocol == Protocol::Native && (reply <==> visible && (last
            is None || now.nanos - last->0.nanos >= 5_000_000_000)),
{
}

/// Our own announcement is one that is listened to, where the fingerprint has the length of
/// one.
pub proof fn law_own_announcement_is_listened_to(fp: Seq<char>, nick: Seq<char>, tport: u16)
    requires
        utf8::byte_len(fp) == 64,
    ensures
        is_accepted(own_announcement(fp, nick, tport)),
        listened(carried(own_announcement(fp, nick, tport))) is Some,
        own_announcement(fp, nick, tport).caps == "native"@,
{
}

/// A nickname of at most sixty-four bytes is carried as it is. Of a longer one its beginning
/// is carried, and as much of it as fits.
pub proof fn law_nickname_is_carried(nick: Seq<char>)
    ensures
        utf8::byte_len(nick) <= 64 ==> carried_nick(nick) == nick,
        utf8::byte_len(carried_nick(nick)) <= 64,
        carried_nick(nick).len() <= nick.len(),
        carried_nick(nick) == nick.take(carried_nick(nick).len() as int),
        carried_nick(nick).len() < nick.len() ==> utf8::byte_len(
            nick.take(carried_nick(nick).len() as int + 1),
        ) > 64,
{
    utf8::law_longest_prefix(nick, 64);
}

/// An address is answered exactly if some interface is in use and it was not answered
/// before, or at least five seconds ago.
pub proof fn law_answers_are_given(last: Option<Instant>, now: Instant, visible: bool)
    ensures
        answers(last, now, visible) <==> visible && (last is None || now.nanos - last->0.nanos
            >= 5_000_000_000),
{
}

/// Only the oldest addresses are forgotten, and only where there are fifty: the others stay,
/// in their order.
pub proof fn law_only_the_oldest_is_forgotten(s: Seq<IpAddr>, ip: IpAddr, x: IpAddr)
    ensures
        recorded(s, ip).len() == (if others(s, ip).len() + 1 < 50 {
            others(s, ip).len() + 1
        } else {
            50
        }),
        s.contains(x) ==> recorded(s, ip).contains(x) || recorded(s, ip).len() == 50,
        recorded(s, ip).contains(x) ==> x == ip || s.contains(x),
        others(s, ip).contains(x) <==> s.contains(x) && x != ip,
        !s.contains(ip) ==> others(s, ip) == s,
{
    let p = other_than(ip);
    let o = others(s, ip);
    let r = recorded(s, ip);
    seqs::lemma_filter_contains(s, p, x);
    if s.contains(x) && r.len() < 50 {
        if x == ip {
            assert(r[0] == x);
        } else {
            let k = choose|k: int| 0 <= k < o.len() && o[k] == x;
            assert(r[k + 1] == x);
        }
    }
    if r.contains(x) && x != ip {
        let k = choose|k: int| 0 <= k < r.len() && r[k] == x;
        assert(o[k - 1] == x);
    }
    if !s.contains(ip) {
        assert forall|i: int| 0 <= i < s.len() implies p(#[trigger] s[i]) by {
            assert(s.contains(s[i]));
        }
        seqs::lemma_filter_all(s, p);
    }
}

/// After following the interfaces the group is joined exactly where an interface is listed
/// and the group was joined before or could be joined.
pub proof fn law_sync_follows_the_interfaces(
    joined: Seq<Ipv4Addr>,
    listed: Seq<Ipv4Addr>,
    able: Seq<Ipv4Addr>,
    x: Ipv4Addr,
)
    ensures
        after_sync(joined, listed, able).contains(x) <==> listed.contains(x) && (joined.contains(x)
            || able.contains(x)),
        to_leave(joined, listed).contains(x) <==> joined.contains(x) && !listed.contains(x),
        to_join(joined, listed).contains(x) <==> listed.contains(x) && !joined.contains(x),
{
    let p = in_list(able);
    let after = after_sync(joined, listed, able);
    let left = after_leaving(joined, listed);
    let new = to_join(joined, listed).filter(p);
    net_ifaces::lemma_without_contains(joined, listed, x);
    net_ifaces::lemma_without_contains(listed, joined, x);
    net_ifaces::lemma_without_contains(joined, to_leave(joined, listed), x);
    seqs::lemma_filter_contains(to_join(joined, listed), p, x);
    if after.contains(x) {
        let k = choose|k: int| 0 <= k < after.len() && after[k] == x;
        if k < left.len() {
            assert(left[k] == x);
        } else {
            assert(new[k - left.len()] == x);
        }
    }
    if left.contains(x) {
        let k = choose|k: int| 0 <= k < left.len() && left[k] == x;
        assert(after[k] == x);
    }
    if new.contains(x) {
        let k = choose|k: int| 0 <= k < new.len() && new[k] == x;
        assert(after[left.len() + k] == x);
    }
}

/// Announcements go to the broadcast address of every subnet, and to the multicast group
/// exactly if it can be reached through some interface, always at the given port, and
/// nowhere else.
pub proof fn law_sends_reach_every_subnet(
    targets: Seq<SendTarget>,
    port: u16,
    able: Seq<Ipv4Addr>,
    to: SocketAddr,
)
    ensures
        all_sends(targets, port, able).contains(to) <==> to.port == port && exists|i: int|
            0 <= i < targets.len() && ((#[trigger] targets[i]).broadcast == to.ip || (able.contains(
                targets[i].iface_ip,
            ) && to.ip == Ipv4Addr { bits: MULTICAST_GROUP })),
    decreases targets.len(),
{
    let all = all_sends(targets, port, able);
    if targets.len() > 0 {
        let t = targets.last();
        let front = all_sends(targets.drop_last(), port, able);
        let back = sends_to(t, port, able.contains(t.iface_ip));
        law_sends_reach_every_subnet(targets.drop_last(), port, able, to);
        assert(forall|i: int|
            0 <= i < targets.len() - 1 ==> #[trigger] targets.drop_last()[i] == targets[i]);
        assert(targets[targets.len() - 1] == t);
        if all.contains(to) {
            let k = choose|k: int| 0 <= k < all.len() && all[k] == to;
            if k < front.len() {
                assert(front[k] == to);
                assert(front.contains(to));
                let i = choose|i: int|
                    0 <= i < targets.drop_last().len() && ((
                    #[trigger] targets.drop_last()[i]).broadcast == to.ip || (able.contains(
                        targets.drop_last()[i].iface_ip,
                    ) && to.ip == Ipv4Addr { bits: MULTICAST_GROUP }));
                assert(targets[i] == targets.drop_last()[i]);
            } else {
                assert(back[k - front.len()] == to);
            }
        }
        if to.port == port && exists|i: int|
            0 <= i < targets.len() && ((#[trigger] targets[i]).broadcast == to.ip || (able.contains(
                targets[i].iface_ip,
            ) && to.ip == Ipv4Addr { bits: MULTICAST_GROUP })) {
            let i = choose|i: int|
                0 <= i < targets.len() && ((#[trigger] targets[i]).broadcast == to.ip || (
                able.contains(targets[i].iface_ip) && to.ip == Ipv4Addr { bits: MULTICAST_GROUP }));
            if i < targets.len() - 1 {
                assert(targets.drop_last()[i] == targets[i]);
                assert(front.contains(to));
                let k = choose|k: int| 0 <= k < front.len() && front[k] == to;
                assert(all[k] == to);
            } else if t.broadcast == to.ip {
                assert(back[back.len() - 1] == to);
                assert(all[all.len() - 1] == to);
            } else {
                assert(back[0] == to);
                assert(all[front.len() as int] == to);
            }
        }
    }
}

/// A plan that tells single hosts sends to each of them, once and in order, at the port, and
/// nowhere else; one that is silent sends nothing; one that broadcasts sends as for a
/// subnet that is open as a whole.
pub proof fn law_plan_is_carried_out(s: Subnet, p: Plan, port: u16, switched: bool, i: int)
    ensures
        p is Silent ==> planned_sends(s, p, port, switched).len() == 0,
        p matches Plan::Unicast(hosts) ==> planned_sends(s, p, port, switched).len() == hosts@.len()
            && (0 <= i < hosts@.len() ==> planned_sends(s, p, port, switched)[i].ip == hosts@[i]
            && planned_sends(s, p, port, switched)[i].port == port),
        p is Broadcast ==> planned_sends(s, p, port, switched).contains(
            SocketAddr { ip: s.broadcast, port },
        ),
        p is Broadcast && switched ==> planned_sends(s, p, port, switched).contains(
            SocketAddr { ip: Ipv4Addr { bits: MULTICAST_GROUP }, port },
        ),
        p is Broadcast ==> planned_sends(s, p, port, switched).len() == (if switched {
            2nat
        } else {
            1nat
        }),
{
    let v = planned_sends(s, p, port, switched);
    if p is Broadcast {
        assert(v[v.len() - 1] == SocketAddr { ip: s.broadcast, port });
        if switched {
            assert(v[0] == SocketAddr { ip: Ipv4Addr { bits: MULTICAST_GROUP }, port });
        }
    }
}

/// The very first round is not held back: a change at the start is announced at once.
pub proof fn law_first_round_is_not_held_back(now: Instant)
    requires
        now.nanos >= 1_000_000_000,
    ensures
        after_look(first_wait(now), true, now).1.send,
        !first_wait(now).pending_send,
{
}

/// An announcement is read from what stands under its five keys exactly if each is there, the
/// version is the first and the fingerprint has sixty-four bytes, and then it is what
/// stands there.
pub proof fn law_announcement_is_read_from_its_keys(
    v: Option<u16>,
    fp: Option<Seq<char>>,
    nick: Option<Seq<char>>,
    tport: Option<u16>,
    caps: Option<Seq<char>>,
)
    ensures
        announcement_in(v, fp, nick, tport, caps) is Some <==> v == Some(1u16) && fp is Some && nick
            is Some && tport is Some && caps is Some && utf8::byte_len(fp->0) == 64,
        announcement_in(v, fp, nick, tport, caps) matches Some(a) ==> v == Some(a.v) && fp == Some(
            a.fp,
        ) && nick == Some(a.nick) && tport == Some(a.tport) && caps == Some(a.caps),
{
}

/// An announcement is read from a datagram in either form in which it may come: an array of its
/// fields in order, or an object that holds each of them exactly once. What is neither
/// announces nothing.
pub proof fn law_announcement_comes_in_two_forms(
    b: Seq<u8>,
    a: AnnouncementRow,
    m: Seq<json::RawRow>,
)
    ensures
        json_fields(b) == Some(a) ==> announcement_of(b) == listened(a),
        json_fields(b) is None && json::object_members(b) == Some(m) ==> (announcement_of(b)
            is Some <==> json::u16_under(m, "v"@) == Some(1u16) && json::text_under(m, "fp"@) is Some
            && utf8::byte_len(json::text_under(m, "fp"@)->0) == 64 && json::text_under(m, "nick"@)
            is Some && json::u16_under(m, "tport"@) is Some && json::text_under(m, "caps"@)
            is Some),
        json_fields(b) is None && json::object_members(b) == Some(m) && announcement_of(b) is Some
            ==> {
            let read = announcement_of(b)->0;
            &&& Some(read.fp) == json::text_under(m, "fp"@)
            &&& Some(read.nick) == json::text_under(m, "nick"@)
            &&& Some(read.tport) == json::u16_under(m, "tport"@)
            &&& Some(read.caps) == json::text_under(m, "caps"@)
        },
        json_fields(b) is None && json::object_members(b) is None ==> announcement_of(b) is None,
{
}

} // verus!
