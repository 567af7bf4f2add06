//! JSON objects of texts and numbers, as they stand in frames and announcements.

use crate::numeral;
use crate::numeral::decimal_of;
use crate::text;
use crate::text::same_text;
use crate::utf8;
use serde::de::IgnoredAny;
use serde_json::Deserializer;
use vstd::prelude::*;
use vstd::slice::{slice_subrange, slice_to_vec};
use vstd::string::StringExecFns;

verus! {

/// What a member of an object holds.
#[derive(Debug, Clone, PartialEq, Eq)]
pub enum JsonValue {
    Text(String),
    Number(u64),
}

/// A member of an object.
#[derive(Debug, Clone, PartialEq, Eq)]
pub struct Member {
    pub key: String,
    pub value: JsonValue,
}

/// What a member holds, by value.
#[verifier::ext_equal]
pub enum JsonRow {
    Text(Seq<char>),
    Number(u64),
}

/// A member by the values that it holds.
#[verifier::ext_equal]
pub struct MemberRow {
    pub key: Seq<char>,
    pub value: JsonRow,
}

impl View for JsonValue {
    type V = JsonRow;

    open spec fn view(&self) -> JsonRow {
        match *self {
            JsonValue::Text(s) => JsonRow::Text(s@),
            JsonValue::Number(n) => JsonRow::Number(n),
        }
    }
}

impl View for Member {
    type V = MemberRow;

    open spec fn view(&self) -> MemberRow {
        MemberRow { key: self.key@, value: self.value@ }
    }
}

/// Members by the values that they hold.
pub open spec fn member_rows(v: Seq<Member>) -> Seq<MemberRow> {
    v.map_values(|m: Member| m@)
}

/// A member that holds text.
pub open spec fn text_member(key: Seq<char>, s: Seq<char>) -> MemberRow {
    MemberRow { key, value: JsonRow::Text(s) }
}

/// A member that holds a number.
pub open spec fn number_member(key: Seq<char>, n: u64) -> MemberRow {
    MemberRow { key, value: JsonRow::Number(n) }
}

// ---------------------------------------------------------------------------
// Writing
// ---------------------------------------------------------------------------

/// How a character stands inside a JSON text.
pub open spec fn escaped_char(c: char) -> Seq<char> {
    if c == '"' || c == '\\' {
        seq!['\\', c]
    } else if c == '\u{8}' {
        seq!['\\', 'b']
    } else if c == '\t' {
        seq!['\\', 't']
    } else if c == '\n' {
        seq!['\\', 'n']
    } else if c == '\u{c}' {
        seq!['\\', 'f']
    } else if c == '\r' {
        seq!['\\', 'r']
    } else if (c as int) < 0x20 {
        seq![
            '\\',
            'u',
            '0',
            '0',
            numeral::digit_char((c as nat) / 16),
            numeral::digit_char((c as nat) % 16),
        ]
    } else {
        seq![c]
    }
}

/// How text stands inside a JSON text, without the quotes.
pub open spec fn escaped(s: Seq<char>) -> Seq<char>
    decreases s.len(),
{
    if s.len() == 0 {
        Seq::empty()
    } else {
        escaped(s.drop_last()) + escaped_char(s.last())
    }
}

/// Text in JSON.
pub open spec fn quoted(s: Seq<char>) -> Seq<char> {
    seq!['"'] + escaped(s) + seq!['"']
}

/// What a member holds, in JSON.
pub open spec fn value_text(v: JsonRow) -> Seq<char> {
    match v {
        JsonRow::Text(s) => quoted(s),
        JsonRow::Number(n) => numeral::decimal(n as nat),
    }
}

/// A member in JSON.
pub open spec fn member_text(m: MemberRow) -> Seq<char> {
    seq!['"'] + m.key + seq!['"', ':'] + value_text(m.value)
}

/// Members in JSON, with commas between them.
pub open spec fn members_text(v: Seq<MemberRow>) -> Seq<char>
    decreases v.len(),
{
    if v.len() == 0 {
        Seq::empty()
    } else if v.len() == 1 {
        member_text(v[0])
    } else {
        members_text(v.drop_last()) + seq![','] + member_text(v.last())
    }
}

/// An object in JSON.
pub open spec fn object_text(v: Seq<MemberRow>) -> Seq<char> {
    seq!['{'] + members_text(v) + seq!['}']
}

/// An object in JSON, in UTF-8.
pub open spec fn object_bytes(v: Seq<MemberRow>) -> Seq<u8> {
    vstd::utf8::encode_utf8(object_text(v))
}

/// Whether a key is made of small letters, digits and underscores, so that it
/// stands in JSON as it is.
pub open spec fn is_plain(key: Seq<char>) -> bool {
    forall|i: int|
        0 <= i < key.len() ==> ('a' <= #[trigger] key[i] <= 'z' || '0' <= key[i] <= '9' || key[i]
            == '_')
}

/// Whether all keys are plain and no two are the same.
pub open spec fn well_keyed(v: Seq<MemberRow>) -> bool {
    &&& forall|i: int| 0 <= i < v.len() ==> is_plain(#[trigger] v[i].key)
    &&& forall|i: int, j: int|
        0 <= i < j < v.len() ==> (#[trigger] v[i]).key != (#[trigger] v[j]).key
}

/// `serde_json::to_string` on text: the text between quotes, with quotes,
/// backslashes and control characters escaped.
#[verifier::external_body]
pub(crate) fn json_string(s: &str) -> (r: String)
    ensures
        r@ == quoted(s@),
{
    serde_json::to_string(s).unwrap()
}

/// An object with these members, in UTF-8.
pub fn write_object(members: &Vec<Member>) -> (r: Vec<u8>)
    ensures
        r@ == object_bytes(member_rows(members@)),
{
    let mut out: String = String::new();
    out.push('{');
    let ghost rows = member_rows(members@);
    let mut i: usize = 0;
    assert(rows.take(0) =~= Seq::<MemberRow>::empty());
    assert(out@ =~= seq!['{'] + members_text(rows.take(0)));
    while i < members.len()
        invariant
            i <= members.len(),
            rows == member_rows(members@),
            out@ == seq!['{'] + members_text(rows.take(i as int)),
        decreases members.len() - i,
    {
        let ghost before = out@;
        let ghost m = rows[i as int];
        if i > 0 {
            out.push(',');
        }
        out.push('"');
        out.append(members[i].key.as_str());
        out.push('"');
        out.push(':');
        match &members[i].value {
            JsonValue::Text(s) => {
                let t = json_string(s.as_str());
                out.append(t.as_str());
            },
            JsonValue::Number(n) => {
                let t = decimal_of(*n);
                out.append(t.as_str());
            },
        }
        proof {
            let next = rows.take(i + 1);
            assert(next.last() == m);
            assert(next.drop_last() =~= rows.take(i as int));
            assert(m == members@[i as int]@);
            if i == 0 {
                assert(next[0] == m);
                assert(before =~= seq!['{']);
                assert(out@ =~= seq!['{'] + member_text(m));
            } else {
                assert(out@ =~= seq!['{'] + (members_text(rows.take(i as int)) + seq![',']
                    + member_text(m)));
            }
        }
        i += 1;
    }
    out.push('}');
    assert(rows.take(rows.len() as int) =~= rows);
    assert(out@ =~= object_text(rows));
    out.as_str().as_bytes_vec()
}

// ---------------------------------------------------------------------------
// Reading
// ---------------------------------------------------------------------------

/// What is found under a key.
#[derive(Debug, Clone, PartialEq, Eq)]
pub enum JsonPart {
    /// The bytes are not JSON.
    Bad,
    /// The JSON is no object, or has no such key.
    Missing,
    Text(String),
    /// A number without sign or fraction that fits into 64 bits.
    Number(u64),
    /// Anything else.
    Other,
}

/// What is found under a key, by value.
#[verifier::ext_equal]
pub enum PartRow {
    Bad,
    Missing,
    Text(Seq<char>),
    Number(u64),
    Other,
}

impl View for JsonPart {
    type V = PartRow;

    open spec fn view(&self) -> PartRow {
        match *self {
            JsonPart::Bad => PartRow::Bad,
            JsonPart::Missing => PartRow::Missing,
            JsonPart::Text(s) => PartRow::Text(s@),
            JsonPart::Number(n) => PartRow::Number(n),
            JsonPart::Other => PartRow::Other,
        }
    }
}

/// What `serde_json` finds under a key of the object in the bytes; of a key
/// that occurs more than once, the last.
pub uninterp spec fn json_member(bytes: Seq<u8>, key: Seq<char>) -> PartRow;

/// Whether the bytes are JSON.
pub open spec fn is_json(bytes: Seq<u8>) -> bool {
    !(json_member(bytes, Seq::empty()) is Bad)
}

/// What a member's value is read as.
pub open spec fn part_of(v: JsonRow) -> PartRow {
    match v {
        JsonRow::Text(s) => PartRow::Text(s),
        JsonRow::Number(n) => PartRow::Number(n),
    }
}

/// `serde_json::from_slice` into a `serde_json::Value`, and `Value::get` on it.
/// Whether the bytes are JSON does not depend on the key. An object that
/// `write_object` writes is read back: each member under its key, and no other.
#[verifier::external_body]
pub(crate) fn read_member(bytes: &[u8], key: &str) -> (r: JsonPart)
    ensures
        r@ == json_member(bytes@, key@),
        forall|k: Seq<char>| (#[trigger] json_member(bytes@, k) is Bad) == (r@ is Bad),
        forall|v: Seq<MemberRow>, i: int|
            #![trigger object_bytes(v), v[i]]
            bytes@ == object_bytes(v) && well_keyed(v) && 0 <= i < v.len() && v[i].key == key@
                ==> r@ == part_of(v[i].value),
        forall|v: Seq<MemberRow>|
            bytes@ == #[trigger] object_bytes(v) && well_keyed(v) && (forall|i: int|
                0 <= i < v.len() ==> (#[trigger] v[i]).key != key@) ==> r@ is Missing,
{
    match serde_json::from_slice::<serde_json::Value>(bytes) {
        Err(_) => JsonPart::Bad,
        Ok(v) => match v.get(key) {
            None => JsonPart::Missing,
            Some(serde_json::Value::String(s)) => JsonPart::Text(s.clone()),
            Some(x) => match x.as_u64() {
                Some(n) => JsonPart::Number(n),
                None => JsonPart::Other,
            },
        },
    }
}

// ---------------------------------------------------------------------------
// Reading members one by one
// ---------------------------------------------------------------------------

/// A member of an object that was read: its key, and its value as it stands.
#[derive(Debug, Clone, PartialEq, Eq)]
pub struct RawMember {
    pub key: String,
    pub value: Vec<u8>,
}

/// A member that was read, by value.
#[verifier::ext_equal]
pub struct RawRow {
    pub key: Seq<char>,
    pub value: Seq<u8>,
}

impl View for RawMember {
    type V = RawRow;

    open spec fn view(&self) -> RawRow {
        RawRow { key: self.key@, value: self.value@ }
    }
}

/// Members that were read, by value.
pub open spec fn raw_rows(v: Seq<RawMember>) -> Seq<RawRow> {
    v.map_values(|m: RawMember| m@)
}

/// The same, if they could be read.
pub open spec fn opt_raw_rows(r: Option<Vec<RawMember>>) -> Option<Seq<RawRow>> {
    match r {
        Some(v) => Some(raw_rows(v@)),
        None => None,
    }
}

/// Where the first JSON value in the bytes ends, as `serde_json` passes over it.
pub uninterp spec fn json_end(bytes: Seq<u8>) -> Option<nat>;

/// What `serde_json` reads as a text.
pub uninterp spec fn json_text(bytes: Seq<u8>) -> Option<Seq<char>>;

/// What `serde_json` reads as a number of sixteen bits.
pub uninterp spec fn json_u16(bytes: Seq<u8>) -> Option<u16>;

/// A text in JSON, in UTF-8.
pub open spec fn text_bytes(s: Seq<char>) -> Seq<u8> {
    vstd::utf8::encode_utf8(quoted(s))
}

/// A number in JSON, in UTF-8.
pub open spec fn number_bytes(n: u64) -> Seq<u8> {
    vstd::utf8::encode_utf8(numeral::decimal(n as nat))
}

/// A text in JSON with something behind it.
pub open spec fn text_then(s: Seq<char>, rest: Seq<u8>) -> Seq<u8> {
    text_bytes(s) + rest
}

/// A number in JSON with something behind it.
pub open spec fn number_then(n: u64, rest: Seq<u8>) -> Seq<u8> {
    number_bytes(n) + rest
}

/// `serde_json::Deserializer::from_slice`, `into_iter` over `IgnoredAny`, and the
/// `byte_offset` behind the first value: where that ends. A text ends at its
/// closing quote, a number before a comma or a brace.
#[verifier::external_body]
fn value_end(bytes: &[u8]) -> (r: Option<usize>)
    ensures
        match r {
            Some(n) => json_end(bytes@) == Some(n as nat) && n <= bytes@.len(),
            None => json_end(bytes@) is None,
        },
        forall|s: Seq<char>, rest: Seq<u8>|
            bytes@ == #[trigger] text_then(s, rest) ==> r == Some(text_bytes(s).len() as usize),
        forall|n: u64, rest: Seq<u8>|
            bytes@ == #[trigger] number_then(n, rest) && rest.len() > 0 && (rest[0] == 44
                || rest[0] == 125) ==> r == Some(number_bytes(n).len() as usize),
{
    let mut values = Deserializer::from_slice(bytes).into_iter::<IgnoredAny>();
    match values.next() {
        Some(Ok(_)) => Some(values.byte_offset()),
        _ => None,
    }
}

/// `serde_json::from_slice` into a text. What `json_string` writes is read back.
#[verifier::external_body]
pub(crate) fn read_text(bytes: &[u8]) -> (r: Option<String>)
    ensures
        text::opt_text(r) == json_text(bytes@),
        forall|s: Seq<char>| bytes@ == #[trigger] text_bytes(s) ==> text::opt_text(r) == Some(s),
{
    serde_json::from_slice::<String>(bytes).ok()
}

/// `serde_json::from_slice` into a `u16`. A number that fits is read from its
/// decimal digits.
#[verifier::external_body]
pub(crate) fn read_u16(bytes: &[u8]) -> (r: Option<u16>)
    ensures
        r == json_u16(bytes@),
        forall|n: u64|
            bytes@ == #[trigger] number_bytes(n) && n <= 65_535 ==> r == Some(n as u16),
{
    serde_json::from_slice::<u16>(bytes).ok()
}

/// Whether a byte is blank between the parts of an object.
pub open spec fn is_blank(b: u8) -> bool {
    b == 0x20 || b == 0x0A || b == 0x09 || b == 0x0D
}

/// The first position from `at` on that holds no blank.
pub open spec fn past_blanks(b: Seq<u8>, at: int) -> int
    decreases b.len() - at,
{
    if 0 <= at < b.len() && is_blank(b[at]) {
        past_blanks(b, at + 1)
    } else {
        at
    }
}

/// Blanks are passed over forwards.
pub proof fn lemma_past_blanks(b: Seq<u8>, at: int)
    ensures
        past_blanks(b, at) >= at,
        0 <= at <= b.len() ==> past_blanks(b, at) <= b.len(),
    decreases b.len() - at,
{
    if 0 <= at < b.len() && is_blank(b[at]) {
        lemma_past_blanks(b, at + 1);
    }
}

/// Where the value that stands at `at` ends.
pub open spec fn end_from(b: Seq<u8>, at: int) -> Option<int> {
    match json_end(b.skip(at)) {
        Some(n) => if at + n <= b.len() {
            Some(at + n)
        } else {
            None
        },
        None => None,
    }
}

/// The members from `at` on: a key, a colon and a value, and behind a comma the
/// next; behind the brace that closes the object there is nothing more.
pub open spec fn members_from(b: Seq<u8>, at: int) -> Option<Seq<RawRow>>
    decreases b.len() - at,
{
    match end_from(b, at) {
        Some(key_end) => {
            let colon = past_blanks(b, key_end);
            match (json_text(b.subrange(at, key_end)), end_from(b, colon + 1)) {
                (Some(key), Some(end)) => {
                    let m = RawRow { key, value: b.subrange(colon + 1, end) };
                    let next = past_blanks(b, end);
                    proof {
                        lemma_past_blanks(b, key_end);
                        lemma_past_blanks(b, end);
                    }
                    if !(0 <= at && colon < b.len() && b[colon] == 58 && next < b.len()) {
                        None
                    } else if b[next] == 125 {
                        if past_blanks(b, next + 1) == b.len() {
                            Some(seq![m])
                        } else {
                            None
                        }
                    } else if b[next] == 44 {
                        behind(seq![m], members_from(b, next + 1))
                    } else {
                        None
                    }
                },
                _ => None,
            }
        },
        None => None,
    }
}

/// Members and those that follow, if these could be read.
pub open spec fn behind(first: Seq<RawRow>, rest: Option<Seq<RawRow>>) -> Option<Seq<RawRow>> {
    match rest {
        Some(r) => Some(first + r),
        None => None,
    }
}

/// The members of the object that the bytes are, each as often as it occurs.
pub open spec fn object_members(b: Seq<u8>) -> Option<Seq<RawRow>> {
    let open = past_blanks(b, 0);
    let first = past_blanks(b, open + 1);
    if !(open < b.len() && b[open] == 123) {
        None
    } else if first < b.len() && b[first] == 125 {
        if past_blanks(b, first + 1) == b.len() {
            Some(Seq::empty())
        } else {
            None
        }
    } else {
        members_from(b, open + 1)
    }
}

fn skip_blanks(b: &[u8], at: usize) -> (r: usize)
    requires
        at <= b.len(),
    ensures
        r == past_blanks(b@, at as int),
        at <= r <= b@.len(),
{
    let mut i: usize = at;
    while i < b.len() && (b[i] == 0x20 || b[i] == 0x0A || b[i] == 0x09 || b[i] == 0x0D)
        invariant
            at <= i <= b.len(),
            past_blanks(b@, i as int) == past_blanks(b@, at as int),
        decreases b.len() - i,
    {
        i = i + 1;
    }
    i
}

/// What the members are read as that were written.
pub open spec fn written_rows(v: Seq<MemberRow>) -> Seq<RawRow> {
    v.map_values(|m: MemberRow| RawRow {
        key: m.key,
        value: vstd::utf8::encode_utf8(value_text(m.value)),
    })
}

/// The members of an object from the first on, and then `end`.
spec fn tail_text(v: Seq<MemberRow>, end: Seq<char>) -> Seq<char>
    decreases v.len(),
{
    if v.len() == 0 {
        end
    } else if v.len() == 1 {
        member_text(v[0]) + end
    } else {
        member_text(v[0]) + (seq![','] + tail_text(v.skip(1), end))
    }
}

proof fn lemma_tail_push(v: Seq<MemberRow>, m: MemberRow, end: Seq<char>)
    requires
        v.len() > 0,
    ensures
        tail_text(v.push(m), end) == tail_text(v, seq![','] + (member_text(m) + end)),
    decreases v.len(),
{
    let w = v.push(m);
    let t = w.skip(1);
    assert(w[0] == v[0]);
    if v.len() == 1 {
        assert(t =~= seq![m]);
        assert(t[0] == m);
        assert(tail_text(t, end) == member_text(m) + end);
    } else {
        assert(t =~= v.skip(1).push(m));
        lemma_tail_push(v.skip(1), m, end);
    }
}

proof fn lemma_tail_text(v: Seq<MemberRow>, end: Seq<char>)
    requires
        v.len() > 0,
    ensures
        members_text(v) + end == tail_text(v, end),
    decreases v.len(),
{
    if v.len() > 1 {
        let w = v.drop_last();
        let m = v.last();
        let more = seq![','] + (member_text(m) + end);
        lemma_tail_text(w, more);
        lemma_tail_push(w, m, end);
        assert(w.push(m) =~= v);
        assert(members_text(v) + end =~= members_text(w) + more);
    }
}

proof fn lemma_plain_is_itself(key: Seq<char>)
    requires
        is_plain(key),
    ensures
        escaped(key) == key,
    decreases key.len(),
{
    if key.len() > 0 {
        let t = key.drop_last();
        assert(is_plain(t)) by {
            assert forall|i: int| 0 <= i < t.len() implies ('a' <= #[trigger] t[i] <= 'z' || '0'
                <= t[i] <= '9' || t[i] == '_') by {
                assert(t[i] == key[i]);
            }
        }
        lemma_plain_is_itself(t);
        let c = key[key.len() - 1];
        assert(escaped_char(c) =~= seq![c]);
        assert(escaped(key) =~= key);
    } else {
        assert(escaped(key) =~= key);
    }
}

/// What stands behind the first member.
spec fn after_first(v: Seq<MemberRow>) -> Seq<u8> {
    if v.len() == 1 {
        seq![125u8]
    } else {
        seq![44u8] + vstd::utf8::encode_utf8(tail_text(v.skip(1), seq!['}']))
    }
}

proof fn lemma_first_member(v: Seq<MemberRow>)
    requires
        v.len() > 0,
        is_plain(v[0].key),
    ensures
        vstd::utf8::encode_utf8(tail_text(v, seq!['}'])) == text_bytes(v[0].key) + (seq![58u8] + (
        vstd::utf8::encode_utf8(value_text(v[0].value)) + after_first(v))),
{
    let m = v[0];
    let rest = if v.len() == 1 {
        seq!['}']
    } else {
        seq![','] + tail_text(v.skip(1), seq!['}'])
    };
    lemma_plain_is_itself(m.key);
    assert(member_text(m) + rest =~= quoted(m.key) + (seq![':'] + (value_text(m.value) + rest)));
    utf8::lemma_encode_concat(quoted(m.key), seq![':'] + (value_text(m.value) + rest));
    utf8::lemma_encode_concat(seq![':'], value_text(m.value) + rest);
    utf8::lemma_encode_concat(value_text(m.value), rest);
    utf8::lemma_encode_ascii(':');
    utf8::lemma_encode_ascii('}');
    utf8::lemma_encode_ascii(',');
    if v.len() > 1 {
        utf8::lemma_encode_concat(seq![','], tail_text(v.skip(1), seq!['}']));
    }
}

proof fn lemma_object_bytes(v: Seq<MemberRow>)
    ensures
        v.len() == 0 ==> object_bytes(v) == seq![123u8, 125u8],
        v.len() > 0 ==> object_bytes(v) == seq![123u8] + vstd::utf8::encode_utf8(
            tail_text(v, seq!['}']),
        ),
{
    utf8::lemma_encode_ascii('{');
    utf8::lemma_encode_ascii('}');
    if v.len() == 0 {
        assert(object_text(v) =~= seq!['{'] + seq!['}']);
        utf8::lemma_encode_concat(seq!['{'], seq!['}']);
        assert(object_bytes(v) =~= seq![123u8, 125u8]);
    } else {
        lemma_tail_text(v, seq!['}']);
        assert(object_text(v) =~= seq!['{'] + tail_text(v, seq!['}']));
        utf8::lemma_encode_concat(seq!['{'], tail_text(v, seq!['}']));
    }
}

proof fn lemma_member_at(b: Seq<u8>, at: int, v: Seq<MemberRow>, n: int)
    requires
        0 <= at <= b.len(),
        0 <= n < v.len(),
        well_keyed(v),
        b.skip(at) == vstd::utf8::encode_utf8(tail_text(v.skip(n), seq!['}'])),
    ensures
        ({
            let m = v[n];
            let value = vstd::utf8::encode_utf8(value_text(m.value));
            let key_end = at + text_bytes(m.key).len();
            let end = key_end + 1 + value.len();
            &&& b.skip(at) == text_then(m.key, b.skip(key_end))
            &&& end < b.len()
            &&& b[key_end] == 58
            &&& b.subrange(at, key_end) == text_bytes(m.key)
            &&& b.subrange(key_end + 1, end) == value
            &&& match m.value {
                JsonRow::Text(s) => b.skip(key_end + 1) == text_then(s, b.skip(end)),
                JsonRow::Number(x) => b.skip(key_end + 1) == number_then(x, b.skip(end)),
            }
            &&& b.skip(end)[0] == b[end]
            &&& v.len() == n + 1 ==> b[end] == 125 && end + 1 == b.len()
            &&& v.len() > n + 1 ==> b[end] == 44 && b.skip(end + 1) == vstd::utf8::encode_utf8(
                tail_text(v.skip(n + 1), seq!['}']),
            )
        }),
{
    let w = v.skip(n);
    let m = v[n];
    assert(w[0] == m);
    lemma_first_member(w);
    let key = text_bytes(m.key);
    let value = vstd::utf8::encode_utf8(value_text(m.value));
    let rest = after_first(w);
    let tail = key + (seq![58u8] + (value + rest));
    let key_end = at + key.len();
    let end = key_end + 1 + value.len();
    assert(b.skip(at) == tail);
    assert(b.skip(at).len() == b.len() - at);
    assert forall|i: int| 0 <= i < tail.len() implies b[at + i] == #[trigger] tail[i] by {
        assert(b.skip(at)[i] == b[at + i]);
    }
    assert(tail[key.len() as int] == 58);
    assert(b.skip(key_end) =~= seq![58u8] + (value + rest)) by {
        assert forall|i: int| 0 <= i < b.len() - key_end implies b.skip(key_end)[i] == (seq![58u8] + (
        value + rest))[i] by {
            assert(b[at + (key.len() + i)] == tail[key.len() + i]);
        }
    }
    assert(b.skip(key_end + 1) =~= value + rest) by {
        assert(b.skip(key_end + 1) =~= b.skip(key_end).skip(1));
    }
    assert(b.skip(end) =~= rest) by {
        assert(b.skip(end) =~= b.skip(key_end + 1).skip(value.len() as int));
    }
    assert(b.subrange(at, key_end) =~= key) by {
        assert(b.subrange(at, key_end) =~= b.skip(at).take(key.len() as int));
    }
    assert(b.subrange(key_end + 1, end) =~= value) by {
        assert(b.subrange(key_end + 1, end) =~= b.skip(key_end + 1).take(value.len() as int));
    }
    assert(rest[0] == b[end]);
    if v.len() > n + 1 {
        assert(w.skip(1) =~= v.skip(n + 1));
        assert(b.skip(end + 1) =~= b.skip(end).skip(1));
        assert(rest.skip(1) =~= vstd::utf8::encode_utf8(tail_text(w.skip(1), seq!['}'])));
    }
}

/// Whether reading has come to the member after the first `n` of an object that
/// was written.
spec fn on_track(b: Seq<u8>, at: int, read: Seq<RawRow>, v: Seq<MemberRow>) -> bool {
    &&& read.len() < v.len()
    &&& read == written_rows(v).take(read.len() as int)
    &&& b.skip(at) == vstd::utf8::encode_utf8(tail_text(v.skip(read.len() as int), seq!['}']))
}

/// The members of the object that the bytes are, each as often as it occurs. An
/// object that `write_object` writes is read back.
pub fn read_members(b: &[u8]) -> (r: Option<Vec<RawMember>>)
    ensures
        opt_raw_rows(r) == object_members(b@),
        forall|v: Seq<MemberRow>|
            b@ == #[trigger] object_bytes(v) && well_keyed(v) ==> opt_raw_rows(r) == Some(
                written_rows(v),
            ),
{
    proof {
        assert forall|v: Seq<MemberRow>| b@ == #[trigger] object_bytes(v) implies b@.len() >= 2
            && b@[0] == 123 && past_blanks(b@, 0) == 0 && (if v.len() == 0 {
            b@ == seq![123u8, 125u8]
        } else {
            b@.skip(1) == vstd::utf8::encode_utf8(tail_text(v, seq!['}']))
        }) by {
            lemma_object_bytes(v);
            if v.len() > 0 {
                assert(b@.skip(1) =~= vstd::utf8::encode_utf8(tail_text(v, seq!['}'])));
                utf8::lemma_encode_ascii('}');
                lemma_tail_text(v, seq!['}']);
                utf8::lemma_encode_concat(members_text(v), seq!['}']);
            }
        }
    }
    let open = skip_blanks(b, 0);
    if open >= b.len() || b[open] != 123 {
        return None;
    }
    let first = skip_blanks(b, open + 1);
    proof {
        assert forall|v: Seq<MemberRow>|
            b@ == #[trigger] object_bytes(v) && well_keyed(v) implies if v.len() == 0 {
            first == 1 && b@[1] == 125 && past_blanks(b@, 2) == b@.len()
        } else {
            &&& first == 1
            &&& b@[1] == 34
            &&& on_track(b@, 1, Seq::empty(), v)
        } by {
            if v.len() > 0 {
                assert(v.skip(0) =~= v);
                lemma_member_at(b@, 1, v, 0);
                lemma_plain_is_itself(v[0].key);
                utf8::lemma_encode_ascii('"');
                utf8::lemma_encode_concat(seq!['"'], escaped(v[0].key) + seq!['"']);
                assert(quoted(v[0].key) =~= seq!['"'] + (escaped(v[0].key) + seq!['"']));
                assert(text_bytes(v[0].key)[0] == 34);
                assert(b@.subrange(1, (1 + text_bytes(v[0].key).len()) as int)[0] == b@[1]);
                assert(written_rows(v).take(0) =~= Seq::<RawRow>::empty());
            }
        }
    }
    let mut out: Vec<RawMember> = Vec::new();
    assert(raw_rows(out@) =~= Seq::<RawRow>::empty());
    if first < b.len() && b[first] == 125 {
        let end = skip_blanks(b, first + 1);
        if end == b.len() {
            proof {
                assert forall|v: Seq<MemberRow>|
                    b@ == #[trigger] object_bytes(v) && well_keyed(v) implies written_rows(v)
                    =~= Seq::<RawRow>::empty() by {}
            }
            return Some(out);
        }
        return None;
    }
    let mut at: usize = open + 1;
    assert(behind(raw_rows(out@), members_from(b@, at as int)) == object_members(b@)) by {
        if let Some(m) = members_from(b@, at as int) {
            assert(raw_rows(out@) + m =~= m);
        }
    }
    loop
        invariant
            at <= b.len(),
            behind(raw_rows(out@), members_from(b@, at as int)) == object_members(b@),
            forall|v: Seq<MemberRow>|
                b@ == #[trigger] object_bytes(v) && well_keyed(v) ==> on_track(
                    b@,
                    at as int,
                    raw_rows(out@),
                    v,
                ),
        decreases b.len() - at,
    {
        let ghost n = out@.len() as int;
        let ghost read = raw_rows(out@);
        proof {
            assert forall|v: Seq<MemberRow>|
                b@ == #[trigger] object_bytes(v) && well_keyed(v) implies on_track(
                b@,
                at as int,
                read,
                v,
            ) && b@.skip(at as int) == text_then(
                v[n].key,
                b@.skip(at + text_bytes(v[n].key).len()),
            ) by {
                lemma_member_at(b@, at as int, v, n);
            }
        }
        let rest = slice_subrange(b, at, b.len());
        assert(rest@ =~= b@.skip(at as int));
        let key_end: usize = match value_end(rest) {
            Some(len) => at + len,
            None => {
                return None;
            },
        };
        assert(end_from(b@, at as int) == Some(key_end as int));
        let key = match read_text(slice_subrange(b, at, key_end)) {
            Some(key) => key,
            None => {
                proof {
                    assert forall|v: Seq<MemberRow>|
                        b@ == #[trigger] object_bytes(v) && well_keyed(v) implies false by {
                        lemma_member_at(b@, at as int, v, n);
                    }
                }
                return None;
            },
        };
        let colon = skip_blanks(b, key_end);
        proof {
            assert forall|v: Seq<MemberRow>|
                b@ == #[trigger] object_bytes(v) && well_keyed(v) implies key@ == v[n].key
                && colon == key_end && colon < b@.len() && b@[colon as int] == 58 by {
                lemma_member_at(b@, at as int, v, n);
            }
        }
        if colon >= b.len() || b[colon] != 58 {
            return None;
        }
        let rest = slice_subrange(b, colon + 1, b.len());
        assert(rest@ =~= b@.skip(colon + 1));
        proof {
            assert forall|v: Seq<MemberRow>|
                b@ == #[trigger] object_bytes(v) && well_keyed(v) implies match v[n].value {
                JsonRow::Text(s) => rest@ == text_then(s, b@.skip(colon + 1 + text_bytes(s).len())),
                JsonRow::Number(x) => {
                    let more = b@.skip(colon + 1 + number_bytes(x).len());
                    rest@ == number_then(x, more) && more.len() > 0 && (more[0] == 44 || more[0]
                        == 125)
                },
            } by {
                lemma_member_at(b@, at as int, v, n);
            }
        }
        let end: usize = match value_end(rest) {
            Some(len) => colon + 1 + len,
            None => {
                return None;
            },
        };
        assert(end_from(b@, colon + 1) == Some(end as int));
        let value_slice = slice_subrange(b, colon + 1, end);
        let m = RawMember { key, value: slice_to_vec(value_slice) };
        let ghost row = RawRow { key: m.key@, value: b@.subrange(colon + 1, end as int) };
        assert(m@ =~= row);
        let next = skip_blanks(b, end);
        proof {
            assert forall|v: Seq<MemberRow>|
                b@ == #[trigger] object_bytes(v) && well_keyed(v) implies {
                &&& row == written_rows(v)[n]
                &&& next == end
                &&& next < b@.len()
                &&& v.len() == n + 1 ==> b@[next as int] == 125 && next + 1 == b@.len()
                &&& v.len() > n + 1 ==> b@[next as int] == 44 && b@.skip(next + 1)
                    == vstd::utf8::encode_utf8(tail_text(v.skip(n + 1), seq!['}']))
            } by {
                lemma_member_at(b@, at as int, v, n);
            }
        }
        if next >= b.len() {
            return None;
        }
        out.push(m);
        assert(raw_rows(out@) =~= read.push(row));
        if b[next] == 125 {
            let close = skip_blanks(b, next + 1);
            if close == b.len() {
                proof {
                    assert(members_from(b@, at as int) == Some(seq![row]));
                    assert(read + seq![row] =~= read.push(row));
                    assert forall|v: Seq<MemberRow>|
                        b@ == #[trigger] object_bytes(v) && well_keyed(v) implies raw_rows(out@)
                        =~= written_rows(v) by {
                        assert(v.len() == n + 1);
                    }
                }
                return Some(out);
            }
            return None;
        }
        if b[next] != 44 {
            return None;
        }
        proof {
            let more = members_from(b@, next + 1);
            assert(members_from(b@, at as int) == behind(seq![row], more));
            if let Some(m) = more {
                assert(read + (seq![row] + m) =~= read.push(row) + m);
            }
            assert forall|v: Seq<MemberRow>|
                b@ == #[trigger] object_bytes(v) && well_keyed(v) implies on_track(
                b@,
                next + 1,
                raw_rows(out@),
                v,
            ) by {
                assert(v.len() > n + 1);
                assert(read.push(row) =~= written_rows(v).take(n + 1));
            }
        }
        at = next + 1;
    }
}

/// Whether a member is the only one with the key.
pub open spec fn is_sole(v: Seq<RawRow>, key: Seq<char>, i: int) -> bool {
    &&& 0 <= i < v.len()
    &&& v[i].key == key
    &&& forall|j: int| 0 <= j < v.len() && (#[trigger] v[j]).key == key ==> j == i
}

/// What stands under a key that occurs exactly once.
pub open spec fn sole_value(v: Seq<RawRow>, key: Seq<char>) -> Option<Seq<u8>> {
    if exists|i: int| #[trigger] is_sole(v, key, i) {
        Some(v[choose|i: int| #[trigger] is_sole(v, key, i)].value)
    } else {
        None
    }
}

/// The text under a key that occurs exactly once.
pub open spec fn text_under(v: Seq<RawRow>, key: Seq<char>) -> Option<Seq<char>> {
    match sole_value(v, key) {
        Some(b) => json_text(b),
        None => None,
    }
}

/// The number under a key that occurs exactly once.
pub open spec fn u16_under(v: Seq<RawRow>, key: Seq<char>) -> Option<u16> {
    match sole_value(v, key) {
        Some(b) => json_u16(b),
        None => None,
    }
}

/// What stands under a key that occurs exactly once.
pub fn find_sole<'a>(v: &'a Vec<RawMember>, key: &str) -> (r: Option<&'a Vec<u8>>)
    ensures
        match r {
            Some(b) => sole_value(raw_rows(v@), key@) == Some(b@),
            None => sole_value(raw_rows(v@), key@) is None,
        },
{
    let ghost rows = raw_rows(v@);
    let mut found: Option<usize> = None;
    let mut i: usize = 0;
    while i < v.len()
        invariant
            i <= v.len(),
            rows == raw_rows(v@),
            match found {
                Some(k) => k < i && rows[k as int].key == key@ && forall|j: int|
                    0 <= j < i && (#[trigger] rows[j]).key == key@ ==> j == k,
                None => forall|j: int| 0 <= j < i ==> (#[trigger] rows[j]).key != key@,
            },
        decreases v.len() - i,
    {
        assert(rows[i as int] == v@[i as int]@);
        if same_text(v[i].key.as_str(), key) {
            if found.is_some() {
                proof {
                    let k = found->0 as int;
                    assert forall|m: int| !is_sole(rows, key@, m) by {
                        assert(rows[k].key == key@ && rows[i as int].key == key@);
                    }
                }
                return None;
            }
            found = Some(i);
        }
        i = i + 1;
    }
    match found {
        Some(k) => {
            proof {
                assert(is_sole(rows, key@, k as int));
                let m = choose|m: int| #[trigger] is_sole(rows, key@, m);
                assert(rows[k as int].key == key@);
                assert(m == k);
                assert(rows[k as int] == v@[k as int]@);
            }
            Some(&v[k].value)
        },
        None => None,
    }
}

/// The text under a key that occurs exactly once.
pub(crate) fn sole_text(v: &Vec<RawMember>, key: &str) -> (r: Option<String>)
    ensures
        text::opt_text(r) == text_under(raw_rows(v@), key@),
        forall|w: Seq<MemberRow>, i: int, s: Seq<char>|
            #![trigger w[i], text_member(key@, s)]
            raw_rows(v@) == written_rows(w) && well_keyed(w) && 0 <= i < w.len() && w[i]
                == text_member(key@, s) ==> text::opt_text(r) == Some(s),
{
    proof {
        lemma_written_is_sole(raw_rows(v@), key@);
    }
    let r = match find_sole(v, key) {
        Some(b) => read_text(b.as_slice()),
        None => None,
    };
    proof {
        assert forall|w: Seq<MemberRow>, i: int, s: Seq<char>|
            #![trigger w[i], text_member(key@, s)]
            raw_rows(v@) == written_rows(w) && well_keyed(w) && 0 <= i < w.len() && w[i]
                == text_member(key@, s) implies text::opt_text(r) == Some(s) by {
            assert(w[i].key == key@);
            assert(sole_value(raw_rows(v@), key@) == Some(text_bytes(s)));
        }
    }
    r
}

/// The number under a key that occurs exactly once.
pub(crate) fn sole_u16(v: &Vec<RawMember>, key: &str) -> (r: Option<u16>)
    ensures
        r == u16_under(raw_rows(v@), key@),
        forall|w: Seq<MemberRow>, i: int, n: u64|
            #![trigger w[i], number_member(key@, n)]
            raw_rows(v@) == written_rows(w) && well_keyed(w) && 0 <= i < w.len() && w[i]
                == number_member(key@, n) && n <= 65_535 ==> r == Some(n as u16),
{
    proof {
        lemma_written_is_sole(raw_rows(v@), key@);
    }
    let r = match find_sole(v, key) {
        Some(b) => read_u16(b.as_slice()),
        None => None,
    };
    proof {
        assert forall|w: Seq<MemberRow>, i: int, n: u64|
            #![trigger w[i], number_member(key@, n)]
            raw_rows(v@) == written_rows(w) && well_keyed(w) && 0 <= i < w.len() && w[i]
                == number_member(key@, n) && n <= 65_535 implies r == Some(n as u16) by {
            assert(w[i].key == key@);
            assert(sole_value(raw_rows(v@), key@) == Some(number_bytes(n)));
        }
    }
    r
}

proof fn lemma_written_is_sole(v: Seq<RawRow>, key: Seq<char>)
    ensures
        forall|w: Seq<MemberRow>, i: int|
            v == #[trigger] written_rows(w) && well_keyed(w) && 0 <= i < w.len() && (
            #[trigger] w[i]).key == key ==> sole_value(v, key) == Some(
                vstd::utf8::encode_utf8(value_text(w[i].value)),
            ),
{
    assert forall|w: Seq<MemberRow>, i: int|
        v == #[trigger] written_rows(w) && well_keyed(w) && 0 <= i < w.len() && (
        #[trigger] w[i]).key == key implies sole_value(v, key) == Some(
        vstd::utf8::encode_utf8(value_text(w[i].value)),
    ) by {
        assert(v[i].key == key);
        assert forall|j: int| 0 <= j < v.len() && (#[trigger] v[j]).key == key implies j == i by {
            assert(v[j].key == w[j].key);
        }
        assert(is_sole(v, key, i));
        let k = choose|k: int| #[trigger] is_sole(v, key, k);
        assert(k == i);
    }
}

// ---------------------------------------------------------------------------
// Pairs of texts
// ---------------------------------------------------------------------------

/// A pair of texts in JSON.
pub open spec fn pair_text(p: (Seq<char>, Seq<char>)) -> Seq<char> {
    seq!['['] + quoted(p.0) + seq![','] + quoted(p.1) + seq![']']
}

/// Pairs in JSON, with commas between them.
pub open spec fn pairs_inside(v: Seq<(Seq<char>, Seq<char>)>) -> Seq<char>
    decreases v.len(),
{
    if v.len() == 0 {
        Seq::empty()
    } else if v.len() == 1 {
        pair_text(v[0])
    } else {
        pairs_inside(v.drop_last()) + seq![','] + pair_text(v.last())
    }
}

/// A list of pairs in JSON.
pub open spec fn pairs_text(v: Seq<(Seq<char>, Seq<char>)>) -> Seq<char> {
    seq!['['] + pairs_inside(v) + seq![']']
}

/// Pairs of texts by value.
pub open spec fn pair_rows(v: Seq<(String, String)>) -> Seq<(Seq<char>, Seq<char>)> {
    v.map_values(|p: (String, String)| (p.0@, p.1@))
}

/// A list of pairs in JSON.
pub fn write_pairs(pairs: &Vec<(String, String)>) -> (r: String)
    ensures
        r@ == pairs_text(pair_rows(pairs@)),
{
    let mut out: String = String::new();
    out.push('[');
    let ghost rows = pair_rows(pairs@);
    let mut i: usize = 0;
    assert(rows.take(0) =~= Seq::<(Seq<char>, Seq<char>)>::empty());
    assert(out@ =~= seq!['['] + pairs_inside(rows.take(0)));
    while i < pairs.len()
        invariant
            i <= pairs.len(),
            rows == pair_rows(pairs@),
            out@ == seq!['['] + pairs_inside(rows.take(i as int)),
        decreases pairs.len() - i,
    {
        let ghost before = out@;
        let ghost p = rows[i as int];
        if i > 0 {
            out.push(',');
        }
        let a = json_string(pairs[i].0.as_str());
        let b = json_string(pairs[i].1.as_str());
        out.push('[');
        out.append(a.as_str());
        out.push(',');
        out.append(b.as_str());
        out.push(']');
        proof {
            let next = rows.take(i + 1);
            assert(next.last() == p);
            assert(next.drop_last() =~= rows.take(i as int));
            if i == 0 {
                assert(next[0] == p);
                assert(before =~= seq!['[']);
                assert(out@ =~= seq!['['] + pair_text(p));
            } else {
                assert(out@ =~= seq!['['] + (pairs_inside(rows.take(i as int)) + seq![',']
                    + pair_text(p)));
            }
        }
        i += 1;
    }
    out.push(']');
    assert(rows.take(rows.len() as int) =~= rows);
    assert(out@ =~= pairs_text(rows));
    out
}

/// What `serde_json` reads as a list of pairs of texts, if it can.
pub uninterp spec fn json_pairs(s: Seq<char>) -> Option<Seq<(Seq<char>, Seq<char>)>>;

/// Pairs that were read, by value.
pub open spec fn read_rows(r: Option<Vec<(String, String)>>) -> Option<
    Seq<(Seq<char>, Seq<char>)>,
> {
    match r {
        Some(v) => Some(pair_rows(v@)),
        None => None,
    }
}

/// `serde_json::from_str` into a list of pairs of texts. What `write_pairs`
/// writes is read back.
#[verifier::external_body]
pub(crate) fn read_pairs(s: &str) -> (r: Option<Vec<(String, String)>>)
    ensures
        read_rows(r) == json_pairs(s@),
        forall|v: Seq<(Seq<char>, Seq<char>)>| #[trigger]
            pairs_text(v) == s@ ==> read_rows(r) == Some(v),
{
    serde_json::from_str::<Vec<(String, String)>>(s).ok()
}

} // verus!
